//! Making an archive.
//!
//! What is to go into the archive is described by a tree of [`Node`]s.
//! [`plan_archive`] turns it into the list of entries, and [`entry_head`] and
//! [`file_body`] are the bytes of an entry, for callers that read the files one by
//! one; [`build_archive`] does all of it in memory.

use crate::archive::listing;
use crate::archive::listing::{order_by_name, Found, Node};
use crate::archive::path::utf8_text;
use crate::archive::{ArchiveError, ArchiveErrorView, ArchiveWarning};
use crate::bytes;
use crate::bytes::{push_all, push_be};
use crate::compress;
use crate::compress::compress_bytes;
use crate::error::IoErrorKind;
use std::path::PathBuf;
use vstd::prelude::*;

verus! {

// ---------------------------------------------------------------------------
// Which entries an archive has
// ---------------------------------------------------------------------------

/// An entry to be written.
pub struct PlannedEntry<T> {
    pub rel_path: String,
    pub source: PathBuf,
    pub is_dir: bool,
    pub payload: T,
}

/// An entry to be written, as a value.
pub struct PlannedEntryView<T> {
    pub rel_path: Seq<char>,
    pub source: PathBuf,
    pub is_dir: bool,
    pub payload: T,
}

impl<T> View for PlannedEntry<T> {
    type V = PlannedEntryView<T>;

    open spec fn view(&self) -> PlannedEntryView<T> {
        PlannedEntryView {
            rel_path: self.rel_path@,
            source: self.source,
            is_dir: self.is_dir,
            payload: self.payload,
        }
    }
}

/// A warning, as a value.
pub struct WarningView {
    pub path: PathBuf,
    pub reason: Seq<char>,
}

impl View for ArchiveWarning {
    type V = WarningView;

    open spec fn view(&self) -> WarningView {
        WarningView { path: self.path, reason: self.reason@ }
    }
}

/// The entries of an archive, and what is left out of it.
pub struct ArchivePlan<T> {
    pub entries: Vec<PlannedEntry<T>>,
    pub warnings: Vec<ArchiveWarning>,
}

/// The entries of an archive and what is left out of it, as a value.
#[verifier::ext_equal]
pub struct ArchivePlanView<T> {
    pub entries: Seq<PlannedEntryView<T>>,
    pub warnings: Seq<WarningView>,
}

impl<T> View for ArchivePlan<T> {
    type V = ArchivePlanView<T>;

    open spec fn view(&self) -> ArchivePlanView<T> {
        ArchivePlanView {
            entries: self.entries@.map_values(|entry: PlannedEntry<T>| entry@),
            warnings: warnings_of(self.warnings@),
        }
    }
}

impl<T> ArchivePlanView<T> {
    pub open spec fn empty() -> Self {
        ArchivePlanView { entries: Seq::empty(), warnings: Seq::empty() }
    }

    pub open spec fn followed_by(self, next: Self) -> Self {
        ArchivePlanView {
            entries: self.entries + next.entries,
            warnings: self.warnings + next.warnings,
        }
    }
}

/// Only a warning.
pub open spec fn only_warning<T>(path: PathBuf, reason: Seq<char>) -> ArchivePlanView<T> {
    ArchivePlanView { entries: Seq::empty(), warnings: seq![WarningView { path, reason }] }
}

/// Only an entry.
pub open spec fn only_entry<T>(entry: PlannedEntryView<T>) -> ArchivePlanView<T> {
    ArchivePlanView { entries: seq![entry], warnings: Seq::empty() }
}

/// The relative path of `name` inside the folder `prefix`, or at the top.
pub open spec fn rel_path_of(prefix: Option<Seq<char>>, name: Seq<char>) -> Seq<char> {
    match prefix {
        Some(prefix) => prefix + "/"@ + name,
        None => name,
    }
}

/// The name of a node, if it has one and it is UTF-8.
pub open spec fn name_text<T>(node: Node<T>) -> Option<Seq<char>> {
    match node.name {
        Some(name) => if vstd::utf8::valid_utf8(name@) {
            Some(vstd::utf8::decode_utf8(name@))
        } else {
            None
        },
        None => None,
    }
}

/// What a node of the folder `prefix` brings into an archive: a folder comes
/// before what it lists, which comes in the order of names; what cannot be looked
/// at, symbolic links and names that are not UTF-8 are left out with a warning.
pub open spec fn visit<T>(node: Node<T>, prefix: Option<Seq<char>>) -> ArchivePlanView<T>
    decreases node, 0nat,
{
    match (node.found, name_text(node)) {
        (Found::Inaccessible { error }, _) => only_warning(
            node.path,
            "inaccessible : "@ + error@,
        ),
        (Found::Symlink, _) => only_warning(node.path, "lien symbolique ignoré (non suivi)"@),
        (_, None) => only_warning(node.path, "nom de fichier non-UTF8, ignoré"@),
        (Found::Directory { payload, children }, Some(name)) => {
            let rel_path = rel_path_of(prefix, name);
            only_entry(
                PlannedEntryView { rel_path, source: node.path, is_dir: true, payload },
            ).followed_by(
                visit_listed(children@, listing::name_order(children@), Some(rel_path)),
            )
        },
        (Found::File { payload }, Some(name)) => only_entry(
            PlannedEntryView {
                rel_path: rel_path_of(prefix, name),
                source: node.path,
                is_dir: false,
                payload,
            },
        ),
    }
}

/// What the nodes of the folder `prefix` at the positions `order` bring into an
/// archive, one after the other.
pub open spec fn visit_listed<T>(
    nodes: Seq<Node<T>>,
    order: Seq<int>,
    prefix: Option<Seq<char>>,
) -> ArchivePlanView<T>
    decreases nodes, order.len(),
{
    if order.len() == 0 || !(0 <= order.last() < nodes.len()) {
        ArchivePlanView::empty()
    } else {
        visit_listed(nodes, order.drop_last(), prefix).followed_by(
            visit(nodes[order.last()], prefix),
        )
    }
}

/// Every position of `nodes`, from the first to the last.
pub open spec fn as_given<T>(nodes: Seq<Node<T>>) -> Seq<int> {
    Seq::new(nodes.len(), |i: int| i)
}

/// What the archive of `selected` holds.
pub open spec fn planned<T>(selected: Seq<Node<T>>) -> ArchivePlanView<T> {
    visit_listed(selected, as_given(selected), None)
}

fn warn<T>(plan: &mut ArchivePlan<T>, path: PathBuf, reason: String)
    ensures
        final(plan)@ == old(plan)@.followed_by(only_warning(path, reason@)),
{
    plan.warnings.push(ArchiveWarning { path, reason });
    proof {
        assert(plan@ =~= old(plan)@.followed_by(only_warning(path, reason@)));
    }
}

fn join(prefix: Option<&str>, name: String) -> (rel_path: String)
    ensures
        rel_path@ == rel_path_of(
            match prefix {
                Some(prefix) => Some(prefix@),
                None => None,
            },
            name@,
        ),
{
    match prefix {
        Some(prefix) => {
            let mut rel_path = prefix.to_string();
            rel_path.append("/");
            rel_path.append(name.as_str());
            rel_path
        },
        None => name,
    }
}

/// A prefix, as a value.
pub open spec fn place_of(prefix: Option<&str>) -> Option<Seq<char>> {
    match prefix {
        Some(prefix) => Some(prefix@),
        None => None,
    }
}

/// `order` lists positions of `nodes`, none of them twice.
pub open spec fn lists_once<T>(nodes: Seq<Node<T>>, order: Seq<int>) -> bool {
    &&& order.no_duplicates()
    &&& forall|i: int| 0 <= i < order.len() ==> 0 <= #[trigger] order[i] < nodes.len()
}

/// Adds what the nodes of the folder `prefix`, at the positions `order`, bring
/// into an archive.
fn walk_dir<T>(
    nodes: Vec<Node<T>>,
    order: &Vec<usize>,
    prefix: Option<&str>,
    plan: &mut ArchivePlan<T>,
)
    requires
        lists_once(nodes@, listing::positions(order@)),
    ensures
        final(plan)@ == old(plan)@.followed_by(
            visit_listed(nodes@, listing::positions(order@), place_of(prefix)),
        ),
    decreases nodes, 1nat,
{
    let ghost all = nodes@;
    let ghost whole = nodes;
    let ghost listed = listing::positions(order@);
    let ghost before = plan@;
    let ghost place = place_of(prefix);
    let mut slots: Vec<Option<Node<T>>> = Vec::new();
    for node in iter: nodes
        invariant
            iter.seq() == all,
            slots@.len() == iter.index(),
            forall|j: int| 0 <= j < slots@.len() ==> #[trigger] slots@[j] == Some(all[j]),
    {
        slots.push(Some(node));
    }
    let mut k: usize = 0;
    proof {
        assert(listed.take(0) =~= Seq::empty());
        assert(before.followed_by(ArchivePlanView::empty()) =~= before);
    }
    while k < order.len()
        invariant
            k <= order@.len(),
            whole == nodes,
            all == whole@,
            listed == listing::positions(order@),
            lists_once(all, listed),
            place == place_of(prefix),
            slots@.len() == all.len(),
            forall|j: int| k <= j < listed.len() ==> slots@[#[trigger] listed[j]] == Some(
                all[listed[j]],
            ),
            plan@ == before.followed_by(visit_listed(all, listed.take(k as int), place)),
        decreases order@.len() - k,
    {
        let at: usize = order[k];
        proof {
            assert(listed[k as int] == at);
        }
        let mut slot: Option<Node<T>> = None;
        std::mem::swap(&mut slot, &mut slots[at]);
        let ghost earlier = plan@;
        match slot {
            Some(node) => {
                proof {
                    assert(node == all[at as int]);
                    assert(decreases_to!(whole => whole@));
                    assert(decreases_to!(all => all[at as int]));
                }
                visit_node(node, prefix, plan);
                proof {
                    let next = listed.take(k + 1);
                    assert(next.drop_last() =~= listed.take(k as int));
                    assert(next.last() == at);
                    assert(plan@ =~= before.followed_by(visit_listed(all, next, place)));
                }
            },
            None => {
                vstd::pervasive::unreached::<()>();
            },
        }
        k = k + 1;
    }
    proof {
        assert(listed.take(listed.len() as int) =~= listed);
    }
}

/// The name of a node, if it has one and it is UTF-8.
fn name_of<T>(node: &Node<T>) -> (name: Option<String>)
    ensures
        match name {
            Some(name) => name_text(*node) == Some(name@),
            None => name_text(*node) is None,
        },
{
    match &node.name {
        Some(name) => match utf8_text(name.as_slice()) {
            Some(text) => {
                proof {
                    vstd::utf8::encode_utf8_valid_utf8(text@);
                    vstd::utf8::encode_utf8_decode_utf8(text@);
                }
                Some(text.to_string())
            },
            None => None,
        },
        None => None,
    }
}

/// Adds what one node of the folder `prefix` brings into an archive.
fn visit_node<T>(node: Node<T>, prefix: Option<&str>, plan: &mut ArchivePlan<T>)
    ensures
        final(plan)@ == old(plan)@.followed_by(visit(node, place_of(prefix))),
    decreases node, 0nat,
{
    let ghost whole = node;
    let name = name_of(&node);
    match node.found {
        Found::Inaccessible { error } => {
            let mut reason = "inaccessible : ".to_string();
            reason.append(error.as_str());
            warn(plan, node.path, reason);
        },
        Found::Symlink => {
            warn(plan, node.path, "lien symbolique ignoré (non suivi)".to_string());
        },
        Found::Directory { payload, children } => match name {
            None => {
                warn(plan, node.path, "nom de fichier non-UTF8, ignoré".to_string());
            },
            Some(name) => {
                let rel_path = join(prefix, name);
                let inner = rel_path.clone();
                let entry = PlannedEntry { rel_path, source: node.path, is_dir: true, payload };
                let ghost this = entry@;
                plan.entries.push(entry);
                proof {
                    assert(plan@ =~= old(plan)@.followed_by(only_entry(this)));
                }
                let order = order_by_name(&children);
                let ghost below = visit_listed(
                    children@,
                    listing::name_order(children@),
                    Some(inner@),
                );
                proof {
                    listing::lemma_order_lists_once(children@, listing::positions(order@));
                }
                walk_dir(children, &order, Some(inner.as_str()), plan);
                proof {
                    assert(plan@ =~= old(plan)@.followed_by(only_entry(this).followed_by(below)));
                }
            },
        },
        Found::File { payload } => match name {
            None => {
                warn(plan, node.path, "nom de fichier non-UTF8, ignoré".to_string());
            },
            Some(name) => {
                let rel_path = join(prefix, name);
                let entry = PlannedEntry { rel_path, source: node.path, is_dir: false, payload };
                let ghost this = entry@;
                plan.entries.push(entry);
                proof {
                    assert(plan@ =~= old(plan)@.followed_by(only_entry(this)));
                }
            },
        },
    }
}

/// The entries of the archive of `selected`, and what is left out of it. What was
/// selected comes in the given order, what a folder lists in the order of names,
/// each folder before what it lists. The name of a selected folder is where the
/// relative paths of its content start.
pub fn plan_archive<T>(selected: Vec<Node<T>>) -> (plan: ArchivePlan<T>)
    ensures
        plan@ == planned(selected@),
{
    let mut plan = ArchivePlan { entries: Vec::new(), warnings: Vec::new() };
    let ghost wanted = planned(selected@);
    let mut order: Vec<usize> = Vec::new();
    let mut i: usize = 0;
    while i < selected.len()
        invariant
            i <= selected@.len(),
            order@.len() == i,
            forall|j: int| 0 <= j < i ==> #[trigger] order@[j] == j,
        decreases selected@.len() - i,
    {
        order.push(i);
        i = i + 1;
    }
    proof {
        assert(listing::positions(order@) =~= as_given(selected@));
    }
    walk_dir(selected, &order, None, &mut plan);
    proof {
        assert(plan@ =~= wanted);
    }
    plan
}

// ---------------------------------------------------------------------------
// The bytes of an archive
// ---------------------------------------------------------------------------

/// The longest relative path that an archive holds, in bytes.
pub const MAX_PATH_LEN: usize = 0xffff;

/// What an archive holds of an entry.
pub struct Payload {
    pub permissions: u32,
    /// The content of a file; nothing for a folder.
    pub content: Vec<u8>,
}

/// What comes before the content of an entry, without its size.
pub open spec fn head_bytes(rel_path: Seq<char>, is_dir: bool, permissions: u32) -> Seq<u8> {
    let path_bytes = vstd::utf8::encode_utf8(rel_path);
    bytes::be(path_bytes.len(), 2) + path_bytes + seq![if is_dir { 1u8 } else { 0u8 }] + bytes::be(
        permissions as nat,
        4,
    )
}

/// The content of an entry, after its size.
pub open spec fn body_bytes(body: Seq<u8>) -> Seq<u8> {
    bytes::be(body.len(), 8) + body
}

/// The bytes of an entry, or why it cannot be written: its path is too long, or
/// the compression of its content fails.
pub open spec fn entry_bytes(rel_path: Seq<char>, is_dir: bool, permissions: u32, content: Seq<u8>) -> Result<
    Seq<u8>,
    ArchiveErrorView,
> {
    if vstd::utf8::encode_utf8(rel_path).len() > MAX_PATH_LEN {
        Err(ArchiveErrorView::PathTooLong(rel_path))
    } else if is_dir {
        Ok(head_bytes(rel_path, is_dir, permissions) + body_bytes(Seq::empty()))
    } else {
        match compress::deflate(content) {
            Some(body) => Ok(head_bytes(rel_path, is_dir, permissions) + body_bytes(body)),
            None => Err(ArchiveErrorView::Io(IoErrorKind::Other)),
        }
    }
}

/// The bytes of entries that follow each other, up to the first that cannot be
/// written.
pub open spec fn entries_bytes(entries: Seq<PlannedEntryView<Payload>>) -> Result<
    Seq<u8>,
    ArchiveErrorView,
>
    decreases entries.len(),
{
    if entries.len() == 0 {
        Ok(Seq::empty())
    } else {
        let last = entries.last();
        match entries_bytes(entries.drop_last()) {
            Err(error) => Err(error),
            Ok(before) => match entry_bytes(
                last.rel_path,
                last.is_dir,
                last.payload.permissions,
                last.payload.content@,
            ) {
                Err(error) => Err(error),
                Ok(entry) => Ok(before + entry),
            },
        }
    }
}

/// What comes before the size of the content of an entry. A path that is longer
/// than its length field can say is refused.
pub fn entry_head(rel_path: &str, is_dir: bool, permissions: u32) -> (result: Result<
    Vec<u8>,
    ArchiveError,
>)
    ensures
        match result {
            Ok(head) => {
                &&& vstd::utf8::encode_utf8(rel_path@).len() <= MAX_PATH_LEN
                &&& head@ == head_bytes(rel_path@, is_dir, permissions)
            },
            Err(error) => {
                &&& vstd::utf8::encode_utf8(rel_path@).len() > MAX_PATH_LEN
                &&& error@ == ArchiveErrorView::PathTooLong(rel_path@)
            },
        },
{
    let path_bytes = rel_path.as_bytes();
    if path_bytes.len() > MAX_PATH_LEN {
        return Err(ArchiveError::PathTooLong(rel_path.to_string()));
    }
    let mut head: Vec<u8> = Vec::new();
    push_be(&mut head, path_bytes.len() as u64, 2);
    push_all(&mut head, path_bytes);
    head.push(if is_dir { 1 } else { 0 });
    push_be(&mut head, permissions as u64, 4);
    proof {
        assert(head@ =~= head_bytes(rel_path@, is_dir, permissions));
    }
    Ok(head)
}

/// The size and the content of a folder: none.
pub fn directory_body() -> (body: Vec<u8>)
    ensures
        body@ == body_bytes(Seq::empty()),
{
    let mut body: Vec<u8> = Vec::new();
    push_be(&mut body, 0, 8);
    proof {
        assert(body@ =~= body_bytes(Seq::empty()));
    }
    body
}

/// The size and the content of a file: its content is compressed.
pub fn file_body(content: &[u8]) -> (result: Result<Vec<u8>, ArchiveError>)
    ensures
        match result {
            Ok(body) => {
                &&& compress::deflate(content@) is Some
                &&& body@ == body_bytes(compress::deflate(content@)->Some_0)
                &&& compress::inflate(compress::deflate(content@)->Some_0) == (
                    content@,
                    None::<IoErrorKind>,
                )
            },
            Err(error) => {
                &&& compress::deflate(content@) is None
                &&& error@ == ArchiveErrorView::Io(IoErrorKind::Other)
            },
        },
{
    match compress_bytes(content) {
        Ok(compressed) => {
            let mut body: Vec<u8> = Vec::new();
            push_be(&mut body, compressed.len() as u64, 8);
            push_all(&mut body, compressed.as_slice());
            proof {
                assert(body@ =~= body_bytes(compressed@));
            }
            Ok(body)
        },
        Err(error) => Err(ArchiveError::Io(error)),
    }
}

/// The bytes of an entry.
pub fn write_entry(rel_path: &str, is_dir: bool, permissions: u32, content: &[u8]) -> (result:
    Result<Vec<u8>, ArchiveError>)
    ensures
        match result {
            Ok(entry) => {
                &&& entry_bytes(rel_path@, is_dir, permissions, content@) == Ok::<
                    Seq<u8>,
                    ArchiveErrorView,
                >(entry@)
                &&& !is_dir ==> compress::inflate(compress::deflate(content@)->Some_0) == (
                    content@,
                    None::<IoErrorKind>,
                )
            },
            Err(error) => entry_bytes(rel_path@, is_dir, permissions, content@) == Err::<
                Seq<u8>,
                ArchiveErrorView,
            >(error@),
        },
{
    let mut entry = match entry_head(rel_path, is_dir, permissions) {
        Ok(head) => head,
        Err(error) => {
            return Err(error);
        },
    };
    let body = if is_dir {
        directory_body()
    } else {
        match file_body(content) {
            Ok(body) => body,
            Err(error) => {
                return Err(error);
            },
        }
    };
    push_all(&mut entry, body.as_slice());
    Ok(entry)
}

/// The number of entries, as an archive starts.
pub fn archive_start(count: usize) -> (start: Vec<u8>)
    ensures
        start@ == bytes::be(count as nat, 4),
{
    let mut start: Vec<u8> = Vec::new();
    push_be(&mut start, count as u64, 4);
    proof {
        assert(start@ =~= bytes::be(count as nat, 4));
    }
    start
}

/// The bytes of an archive of `entries`, all of which can be written: their
/// number, then each of them.
pub open spec fn archive_bytes(entries: Seq<PlannedEntryView<Payload>>) -> Seq<u8> {
    bytes::be(entries.len(), 4) + entries_bytes(entries)->Ok_0
}

/// Warnings, as values.
pub open spec fn warnings_of(warnings: Seq<ArchiveWarning>) -> Seq<WarningView> {
    warnings.map_values(|warning: ArchiveWarning| warning@)
}

/// An archive held in memory, the number of its entries, and what was left out
/// of it.
pub struct BuiltArchive {
    pub bytes: Vec<u8>,
    pub count: u32,
    pub warnings: Vec<ArchiveWarning>,
}

/// The archive of `selected`: the entries that [`plan_archive`] lists, with
/// their number in front. The content of each file decompresses to itself.
pub fn build_archive(selected: Vec<Node<Payload>>) -> (result: Result<BuiltArchive, ArchiveError>)
    ensures
        ({
            let plan = planned(selected@);
            match result {
                Ok(archive) => {
                    &&& entries_bytes(plan.entries) is Ok
                    &&& archive.bytes@ == archive_bytes(plan.entries)
                    &&& archive.count == plan.entries.len() as u32
                    &&& warnings_of(archive.warnings@) == plan.warnings
                    &&& contents_come_back(plan.entries)
                },
                Err(error) => entries_bytes(plan.entries) == Err::<Seq<u8>, ArchiveErrorView>(
                    error@,
                ),
            }
        }),
{
    let plan = plan_archive(selected);
    let ghost entries = plan@.entries;
    let mut out = archive_start(plan.entries.len());
    let mut i: usize = 0;
    proof {
        assert(entries.take(0) =~= Seq::empty());
        assert(out@ =~= bytes::be(entries.len(), 4) + entries_bytes(entries.take(0))->Ok_0);
    }
    while i < plan.entries.len()
        invariant
            i <= plan.entries@.len(),
            plan@ == planned(selected@),
            plan@.entries == entries,
            entries.len() == plan.entries@.len(),
            entries_bytes(entries.take(i as int)) is Ok,
            out@ == bytes::be(entries.len(), 4) + entries_bytes(entries.take(i as int))->Ok_0,
            contents_come_back(entries.take(i as int)),
        decreases plan.entries@.len() - i,
    {
        let entry = &plan.entries[i];
        let ghost sofar = out@;
        proof {
            assert(entries[i as int] == entry@);
            assert(entries.take(i + 1).drop_last() =~= entries.take(i as int));
            assert(entries.take(i + 1).last() == entry@);
        }
        match write_entry(
            entry.rel_path.as_str(),
            entry.is_dir,
            entry.payload.permissions,
            entry.payload.content.as_slice(),
        ) {
            Ok(entry_out) => {
                push_all(&mut out, entry_out.as_slice());
                proof {
                    assert(out@ =~= bytes::be(entries.len(), 4) + (entries_bytes(
                        entries.take(i as int),
                    )->Ok_0 + entry_out@));
                    assert forall|j: int|
                        0 <= j < i + 1 implies content_comes_back(
                        #[trigger] entries.take(i + 1)[j],
                    ) by {
                        if j < i {
                            assert(content_comes_back(entries.take(i as int)[j]));
                        }
                    }
                }
                i = i + 1;
            },
            Err(error) => {
                proof {
                    lemma_first_error(entries, i as int);
                }
                return Err(error);
            },
        }
    }
    proof {
        assert(entries.take(entries.len() as int) =~= entries);
    }
    let count: usize = plan.entries.len();
    Ok(BuiltArchive { bytes: out, count: count as u32, warnings: plan.warnings })
}

/// The compressed content of a file decompresses to its content.
pub open spec fn content_comes_back(entry: PlannedEntryView<Payload>) -> bool {
    entry.is_dir || compress::inflate(
        compress::deflate(entry.payload.content@)->Some_0,
    ) == (entry.payload.content@, None::<IoErrorKind>)
}

pub open spec fn contents_come_back(entries: Seq<PlannedEntryView<Payload>>) -> bool {
    forall|i: int| 0 <= i < entries.len() ==> content_comes_back(#[trigger] entries[i])
}

/// Entries that follow one that cannot be written change nothing.
proof fn lemma_first_error(entries: Seq<PlannedEntryView<Payload>>, index: int)
    requires
        0 <= index < entries.len(),
        entries_bytes(entries.take(index + 1)) is Err,
    ensures
        entries_bytes(entries) == entries_bytes(entries.take(index + 1)),
    decreases entries.len(),
{
    if index + 1 == entries.len() {
        assert(entries.take(index + 1) =~= entries);
    } else {
        assert(entries.drop_last().take(index + 1) =~= entries.take(index + 1));
        lemma_first_error(entries.drop_last(), index);
    }
}

} // verus!
