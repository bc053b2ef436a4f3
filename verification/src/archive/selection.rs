//! What becomes of everything that was selected.

use crate::archive::listing;
use crate::archive::listing::{Found, Node};
use crate::archive::pack;
use crate::archive::pack::{ArchivePlanView, PlannedEntryView, WarningView};
use vstd::prelude::*;

verus! {

/// A node has a name, and the name is UTF-8.
pub open spec fn is_readable<T>(node: Node<T>) -> bool {
    node.name is Some && vstd::utf8::valid_utf8(node.name->Some_0@)
}

/// The node that a way leads to: the first step is a position among `nodes`, each
/// further step one in what the folder reached so far lists. Only folders whose names
/// can be read are entered.
pub open spec fn reached<T>(nodes: Seq<Node<T>>, way: Seq<int>) -> Option<Node<T>>
    decreases way.len(),
{
    if way.len() == 0 || !(0 <= way[0] < nodes.len()) {
        None
    } else if way.len() == 1 {
        Some(nodes[way[0]])
    } else {
        match nodes[way[0]].found {
            Found::Directory { children, .. } => if is_readable(nodes[way[0]]) {
                reached(children@, way.drop_first())
            } else {
                None
            },
            _ => None,
        }
    }
}

/// The names along a way that leads to a node, joined by slashes.
pub open spec fn names_along<T>(nodes: Seq<Node<T>>, way: Seq<int>) -> Seq<char>
    decreases way.len(),
{
    let name = vstd::utf8::decode_utf8(nodes[way[0]].name->Some_0@);
    if way.len() <= 1 {
        name
    } else {
        match nodes[way[0]].found {
            Found::Directory { children, .. } => name + "/"@ + names_along(
                children@,
                way.drop_first(),
            ),
            _ => name,
        }
    }
}

/// The path of something at `names` below the folder `prefix`.
spec fn below(prefix: Option<Seq<char>>, names: Seq<char>) -> Seq<char> {
    match prefix {
        Some(prefix) => prefix + "/"@ + names,
        None => names,
    }
}

/// The node is an entry of the plan, under the path `rel_path`, or it is left out of
/// it with a warning that says why.
pub open spec fn is_accounted_for<T>(
    plan: ArchivePlanView<T>,
    node: Node<T>,
    rel_path: Seq<char>,
) -> bool {
    match node.found {
        Found::Inaccessible { error } => plan.warnings.contains(
            WarningView { path: node.path, reason: "inaccessible : "@ + error@ },
        ),
        Found::Symlink => plan.warnings.contains(
            WarningView { path: node.path, reason: "lien symbolique ignoré (non suivi)"@ },
        ),
        Found::Directory { payload, .. } => if is_readable(node) {
            plan.entries.contains(
                PlannedEntryView { rel_path, source: node.path, is_dir: true, payload },
            )
        } else {
            plan.warnings.contains(
                WarningView { path: node.path, reason: "nom de fichier non-UTF8, ignoré"@ },
            )
        },
        Found::File { payload } => if is_readable(node) {
            plan.entries.contains(
                PlannedEntryView { rel_path, source: node.path, is_dir: false, payload },
            )
        } else {
            plan.warnings.contains(
                WarningView { path: node.path, reason: "nom de fichier non-UTF8, ignoré"@ },
            )
        },
    }
}

/// How many nodes are looked at for a node: itself, and what is below it if it is a
/// folder that is entered.
pub open spec fn looked_at<T>(node: Node<T>) -> nat
    decreases node, 0nat,
{
    match node.found {
        Found::Directory { children, .. } => if is_readable(node) {
            1 + all_looked_at(children@, listing::name_order(children@))
        } else {
            1
        },
        _ => 1,
    }
}

/// How many nodes are looked at for those at the positions `order`.
pub open spec fn all_looked_at<T>(nodes: Seq<Node<T>>, order: Seq<int>) -> nat
    decreases nodes, order.len(),
{
    if order.len() == 0 || !(0 <= order.last() < nodes.len()) {
        0
    } else {
        all_looked_at(nodes, order.drop_last()) + looked_at(nodes[order.last()])
    }
}

proof fn lemma_node_is_part<T>(
    nodes: Seq<Node<T>>,
    order: Seq<int>,
    prefix: Option<Seq<char>>,
    at: int,
)
    requires
        order.contains(at),
        forall|i: int| 0 <= i < order.len() ==> 0 <= #[trigger] order[i] < nodes.len(),
    ensures
        forall|e: PlannedEntryView<T>| #[trigger]
            pack::visit(nodes[at], prefix).entries.contains(e) ==> pack::visit_listed(
                nodes,
                order,
                prefix,
            ).entries.contains(e),
        forall|w: WarningView| #[trigger]
            pack::visit(nodes[at], prefix).warnings.contains(w) ==> pack::visit_listed(
                nodes,
                order,
                prefix,
            ).warnings.contains(w),
    decreases order.len(),
{
    let before = pack::visit_listed(nodes, order.drop_last(), prefix);
    let last = pack::visit(nodes[order.last()], prefix);
    let whole = pack::visit_listed(nodes, order, prefix);
    assert(0 <= order[order.len() - 1] < nodes.len());
    if order.last() != at {
        let k = order.index_of(at);
        assert(order.drop_last()[k] == at);
        lemma_node_is_part(nodes, order.drop_last(), prefix, at);
    }
    let part = pack::visit(nodes[at], prefix);
    assert forall|e: PlannedEntryView<T>| #[trigger] part.entries.contains(
        e,
    ) implies whole.entries.contains(e) by {
        if order.last() == at {
            let k = last.entries.index_of(e);
            assert(whole.entries[before.entries.len() + k] == e);
        } else {
            let k = before.entries.index_of(e);
            assert(whole.entries[k] == e);
        }
    }
    assert forall|w: WarningView| #[trigger] part.warnings.contains(
        w,
    ) implies whole.warnings.contains(w) by {
        if order.last() == at {
            let k = last.warnings.index_of(w);
            assert(whole.warnings[before.warnings.len() + k] == w);
        } else {
            let k = before.warnings.index_of(w);
            assert(whole.warnings[k] == w);
        }
    }
}

proof fn lemma_one_is_accounted_for<T>(
    whole: ArchivePlanView<T>,
    part: ArchivePlanView<T>,
    node: Node<T>,
    rel_path: Seq<char>,
)
    requires
        is_accounted_for(part, node, rel_path),
        forall|e: PlannedEntryView<T>| #[trigger]
            part.entries.contains(e) ==> whole.entries.contains(e),
        forall|w: WarningView| #[trigger]
            part.warnings.contains(w) ==> whole.warnings.contains(w),
    ensures
        is_accounted_for(whole, node, rel_path),
{
}

/// A node itself is accounted for by what it brings into an archive.
proof fn lemma_itself<T>(node: Node<T>, prefix: Option<Seq<char>>)
    ensures
        is_accounted_for(
            pack::visit(node, prefix),
            node,
            below(prefix, vstd::utf8::decode_utf8(node.name->Some_0@)),
        ),
{
    let plan = pack::visit(node, prefix);
    assert(plan.entries.len() > 0 ==> plan.entries.contains(plan.entries[0]));
    assert(plan.warnings.len() > 0 ==> plan.warnings.contains(plan.warnings[0]));
}

proof fn lemma_accounted_for<T>(
    nodes: Seq<Node<T>>,
    order: Seq<int>,
    prefix: Option<Seq<char>>,
    way: Seq<int>,
)
    requires
        reached(nodes, way) is Some,
        order.contains(way[0]),
        forall|i: int| 0 <= i < order.len() ==> 0 <= #[trigger] order[i] < nodes.len(),
    ensures
        is_accounted_for(
            pack::visit_listed(nodes, order, prefix),
            reached(nodes, way)->Some_0,
            below(prefix, names_along(nodes, way)),
        ),
    decreases way.len(),
{
    let top = nodes[way[0]];
    let node = reached(nodes, way)->Some_0;
    let whole = pack::visit_listed(nodes, order, prefix);
    let part = pack::visit(top, prefix);
    let rel_path = below(prefix, names_along(nodes, way));
    lemma_node_is_part(nodes, order, prefix, way[0]);
    if way.len() == 1 {
        lemma_itself(top, prefix);
    } else {
        let children = top.found->children;
        let name = vstd::utf8::decode_utf8(top.name->Some_0@);
        let inner = pack::rel_path_of(prefix, name);
        let listed = listing::name_order(children@);
        let rest = way.drop_first();
        listing::lemma_name_order_exists(children@);
        listing::lemma_order_lists_once(children@, listed);
        assert(reached(children@, rest) is Some);
        assert(0 <= rest[0] < children@.len());
        assert(listed.contains(rest[0]));
        lemma_accounted_for(children@, listed, Some(inner), rest);
        let deeper = pack::visit_listed(children@, listed, Some(inner));
        assert(below(Some(inner), names_along(children@, rest)) =~= rel_path);
        assert forall|e: PlannedEntryView<T>| #[trigger] deeper.entries.contains(
            e,
        ) implies part.entries.contains(e) by {
            let k = deeper.entries.index_of(e);
            assert(part.entries[k + 1] == e);
        }
        assert forall|w: WarningView| #[trigger] deeper.warnings.contains(
            w,
        ) implies part.warnings.contains(w) by {
            let k = deeper.warnings.index_of(w);
            assert(part.warnings[k] == w);
        }
        lemma_one_is_accounted_for(part, deeper, node, rel_path);
    }
    lemma_one_is_accounted_for(whole, part, node, rel_path);
}

/// Nothing is lost silently. Wherever a way through readable folders leads in what
/// was selected, the archive has an entry for what is there, with its source, its
/// payload, its kind, and the path made of the names along the way; or there is a
/// warning, and that only for what cannot be looked at, for symbolic links, and for
/// names that are not UTF-8.
pub proof fn law_nothing_is_lost<T>(selected: Seq<Node<T>>, way: Seq<int>)
    requires
        reached(selected, way) is Some,
    ensures
        is_accounted_for(
            pack::planned(selected),
            reached(selected, way)->Some_0,
            names_along(selected, way),
        ),
{
    let order = pack::as_given(selected);
    assert(order[way[0]] == way[0]);
    lemma_accounted_for(selected, order, None, way);
}

proof fn lemma_node_is_counted<T>(node: Node<T>, prefix: Option<Seq<char>>)
    ensures
        pack::visit(node, prefix).entries.len() + pack::visit(node, prefix).warnings.len()
            == looked_at(node),
    decreases node, 0nat,
{
    match node.found {
        Found::Directory { children, .. } => if is_readable(node) {
            let name = vstd::utf8::decode_utf8(node.name->Some_0@);
            lemma_nodes_are_counted(
                children@,
                listing::name_order(children@),
                Some(pack::rel_path_of(prefix, name)),
            );
        },
        _ => {},
    }
}

proof fn lemma_nodes_are_counted<T>(
    nodes: Seq<Node<T>>,
    order: Seq<int>,
    prefix: Option<Seq<char>>,
)
    ensures
        pack::visit_listed(nodes, order, prefix).entries.len() + pack::visit_listed(
            nodes,
            order,
            prefix,
        ).warnings.len() == all_looked_at(nodes, order),
    decreases nodes, order.len(),
{
    if order.len() > 0 && 0 <= order.last() < nodes.len() {
        lemma_nodes_are_counted(nodes, order.drop_last(), prefix);
        lemma_node_is_counted(nodes[order.last()], prefix);
    }
}

/// Everything that is looked at is counted once: there are as many entries and
/// warnings together as nodes that are looked at.
pub proof fn law_everything_is_counted_once<T>(selected: Seq<Node<T>>)
    ensures
        pack::planned(selected).entries.len() + pack::planned(selected).warnings.len()
            == all_looked_at(selected, Seq::new(selected.len(), |i: int| i)),
{
    lemma_nodes_are_counted(selected, pack::as_given(selected), None);
    assert(pack::as_given(selected) =~= Seq::new(selected.len(), |i: int| i));
}

proof fn lemma_entry_has_a_way<T>(
    nodes: Seq<Node<T>>,
    order: Seq<int>,
    prefix: Option<Seq<char>>,
    at: int,
) -> (way: Seq<int>)
    requires
        forall|i: int| 0 <= i < order.len() ==> 0 <= #[trigger] order[i] < nodes.len(),
        0 <= at < pack::visit_listed(nodes, order, prefix).entries.len(),
    ensures
        ({
            let entry = pack::visit_listed(nodes, order, prefix).entries[at];
            let node = reached(nodes, way)->Some_0;
            &&& reached(nodes, way) is Some
            &&& is_readable(node)
            &&& entry.source == node.path
            &&& entry.rel_path == below(prefix, names_along(nodes, way))
            &&& match node.found {
                Found::Directory { payload, .. } => entry.is_dir && entry.payload == payload,
                Found::File { payload } => !entry.is_dir && entry.payload == payload,
                _ => false,
            }
        }),
    decreases nodes, order.len(),
{
    let before = pack::visit_listed(nodes, order.drop_last(), prefix);
    assert(0 <= order[order.len() - 1] < nodes.len());
    if at < before.entries.len() {
        lemma_entry_has_a_way(nodes, order.drop_last(), prefix, at)
    } else {
        let top = nodes[order.last()];
        let part = pack::visit(top, prefix);
        let k = at - before.entries.len();
        assert(pack::visit_listed(nodes, order, prefix).entries[at] == part.entries[k]);
        if k == 0 {
            seq![order.last()]
        } else {
            let children = top.found->children;
            let name = vstd::utf8::decode_utf8(top.name->Some_0@);
            let inner = pack::rel_path_of(prefix, name);
            let listed = listing::name_order(children@);
            listing::lemma_name_order_exists(children@);
            listing::lemma_order_lists_once(children@, listed);
            let deeper = pack::visit_listed(children@, listed, Some(inner));
            assert(part.entries[k] == deeper.entries[k - 1]);
            let rest = lemma_entry_has_a_way(children@, listed, Some(inner), k - 1);
            let way = seq![order.last()] + rest;
            assert(way.drop_first() =~= rest);
            assert(below(Some(inner), names_along(children@, rest)) =~= below(
                prefix,
                names_along(nodes, way),
            ));
            way
        }
    }
}

/// Nothing is made up: every entry of an archive is a file or a folder that a way
/// leads to in what was selected, with its source, its payload, its kind, and the
/// path made of the names along the way.
pub proof fn law_nothing_is_made_up<T>(selected: Seq<Node<T>>, at: int) -> (way: Seq<int>)
    requires
        0 <= at < pack::planned(selected).entries.len(),
    ensures
        ({
            let entry = pack::planned(selected).entries[at];
            let node = reached(selected, way)->Some_0;
            &&& reached(selected, way) is Some
            &&& is_readable(node)
            &&& entry.source == node.path
            &&& entry.rel_path == names_along(selected, way)
            &&& match node.found {
                Found::Directory { payload, .. } => entry.is_dir && entry.payload == payload,
                Found::File { payload } => !entry.is_dir && entry.payload == payload,
                _ => false,
            }
        }),
{
    let order = pack::as_given(selected);
    lemma_entry_has_a_way(selected, order, None, at)
}

/// A folder comes before what it lists, which follows in the order of names, each
/// listed node with all that is below it.
pub proof fn law_folder_comes_first<T>(node: Node<T>, prefix: Option<Seq<char>>)
    requires
        node.found is Directory,
        is_readable(node),
    ensures
        ({
            let children = node.found->children@;
            let name = vstd::utf8::decode_utf8(node.name->Some_0@);
            let rel_path = match prefix {
                Some(prefix) => prefix + "/"@ + name,
                None => name,
            };
            let listed = Seq::new(
                children.len(),
                |k: int| pack::visit(children[listing::name_order(children)[k]], Some(rel_path)),
            );
            &&& pack::visit(node, prefix).entries == seq![
                PlannedEntryView {
                    rel_path,
                    source: node.path,
                    is_dir: true,
                    payload: node.found->Directory_payload,
                },
            ] + listed.map_values(|plan: ArchivePlanView<T>| plan.entries).flatten()
            &&& pack::visit(node, prefix).warnings == listed.map_values(
                |plan: ArchivePlanView<T>| plan.warnings,
            ).flatten()
        }),
{
    let children = node.found->children@;
    let name = vstd::utf8::decode_utf8(node.name->Some_0@);
    let rel_path = pack::rel_path_of(prefix, name);
    let order = listing::name_order(children);
    listing::lemma_name_order_exists(children);
    listing::lemma_order_lists_once(children, order);
    listing::lemma_order_has_every_position(children);
    lemma_one_after_the_other(children, order, Some(rel_path));
    let listed = Seq::new(
        children.len(),
        |k: int| pack::visit(children[listing::name_order(children)[k]], Some(rel_path)),
    );
    assert(listed =~= visits(children, order, Some(rel_path)));
}

spec fn visits<T>(nodes: Seq<Node<T>>, order: Seq<int>, prefix: Option<Seq<char>>) -> Seq<
    ArchivePlanView<T>,
> {
    Seq::new(order.len(), |k: int| pack::visit(nodes[order[k]], prefix))
}

proof fn lemma_one_after_the_other<T>(
    nodes: Seq<Node<T>>,
    order: Seq<int>,
    prefix: Option<Seq<char>>,
)
    requires
        forall|i: int| 0 <= i < order.len() ==> 0 <= #[trigger] order[i] < nodes.len(),
    ensures
        pack::visit_listed(nodes, order, prefix).entries == visits(
            nodes,
            order,
            prefix,
        ).map_values(|plan: ArchivePlanView<T>| plan.entries).flatten(),
        pack::visit_listed(nodes, order, prefix).warnings == visits(
            nodes,
            order,
            prefix,
        ).map_values(|plan: ArchivePlanView<T>| plan.warnings).flatten(),
    decreases order.len(),
{
    let all = visits(nodes, order, prefix);
    let entries = all.map_values(|plan: ArchivePlanView<T>| plan.entries);
    let warnings = all.map_values(|plan: ArchivePlanView<T>| plan.warnings);
    if order.len() > 0 {
        assert(0 <= order[order.len() - 1] < nodes.len());
        let before = visits(nodes, order.drop_last(), prefix);
        lemma_one_after_the_other(nodes, order.drop_last(), prefix);
        assert(entries.drop_last() =~= before.map_values(
            |plan: ArchivePlanView<T>| plan.entries,
        ));
        assert(warnings.drop_last() =~= before.map_values(
            |plan: ArchivePlanView<T>| plan.warnings,
        ));
        entries.lemma_flatten_and_flatten_alt_are_equivalent();
        entries.drop_last().lemma_flatten_and_flatten_alt_are_equivalent();
        warnings.lemma_flatten_and_flatten_alt_are_equivalent();
        warnings.drop_last().lemma_flatten_and_flatten_alt_are_equivalent();
    }
}

/// A file brings exactly itself into an archive, and what is left out exactly its
/// warning.
pub proof fn law_everything_but_a_folder_brings_one_thing<T>(
    node: Node<T>,
    prefix: Option<Seq<char>>,
)
    ensures
        ({
            let plan = pack::visit(node, prefix);
            let name = vstd::utf8::decode_utf8(node.name->Some_0@);
            let rel_path = match prefix {
                Some(prefix) => prefix + "/"@ + name,
                None => name,
            };
            let left_out = |reason: Seq<char>|
                plan.entries.len() == 0 && plan.warnings == seq![
                    WarningView { path: node.path, reason },
                ];
            match node.found {
                Found::Inaccessible { error } => left_out("inaccessible : "@ + error@),
                Found::Symlink => left_out("lien symbolique ignoré (non suivi)"@),
                Found::Directory { .. } => is_readable(node) || left_out(
                    "nom de fichier non-UTF8, ignoré"@,
                ),
                Found::File { payload } => if is_readable(node) {
                    plan.warnings.len() == 0 && plan.entries == seq![
                        PlannedEntryView { rel_path, source: node.path, is_dir: false, payload },
                    ]
                } else {
                    left_out("nom de fichier non-UTF8, ignoré"@)
                },
            }
        }),
{
}

/// What was selected is gone through in the given order.
pub proof fn law_selection_is_in_the_given_order<T>(selected: Seq<Node<T>>)
    ensures
        pack::planned(selected).entries == selected.map_values(
            |node: Node<T>| pack::visit(node, None).entries,
        ).flatten(),
        pack::planned(selected).warnings == selected.map_values(
            |node: Node<T>| pack::visit(node, None).warnings,
        ).flatten(),
{
    let order = pack::as_given(selected);
    lemma_one_after_the_other(selected, order, None);
    let all = visits(selected, order, None);
    assert(all.map_values(|plan: ArchivePlanView<T>| plan.entries) =~= selected.map_values(
        |node: Node<T>| pack::visit(node, None).entries,
    ));
    assert(all.map_values(|plan: ArchivePlanView<T>| plan.warnings) =~= selected.map_values(
        |node: Node<T>| pack::visit(node, None).warnings,
    ));
}

} // verus!
