//! What holds of archives as a whole.

use crate::archive::extract;
use crate::archive::extract::{ActionView, ExtractionView, ATTRIBUTES_LEN};
use crate::archive::listing;
use crate::archive::listing::{Found, Node};
use crate::archive::pack;
use crate::archive::pack::{Payload, PlannedEntryView, MAX_PATH_LEN};
use crate::archive::path;
use crate::archive::ExtractionLimits;
use crate::bytes;
use crate::compress;
use vstd::prelude::*;

verus! {

// ---------------------------------------------------------------------------
// Whatever an archive holds
// ---------------------------------------------------------------------------

/// An action that stays below the destination folder and restores no dangerous
/// permission.
pub open spec fn is_contained(action: ActionView, limits: ExtractionLimits) -> bool {
    match action {
        ActionView::CreateRoot => true,
        ActionView::CreateParent { path } => path::is_safe(vstd::utf8::encode_utf8(path)),
        ActionView::Directory { path, mode } => {
            &&& path::is_safe(vstd::utf8::encode_utf8(path))
            &&& mode & 0o7002 == 0
        },
        ActionView::File { path, mode, content } => {
            &&& path::is_safe(vstd::utf8::encode_utf8(path))
            &&& mode & 0o7002 == 0
            &&& !limits.preserve_executable_bit ==> mode & 0o111 == 0
        },
    }
}

pub open spec fn all_contained(actions: Seq<ActionView>, limits: ExtractionLimits) -> bool {
    forall|i: int| 0 <= i < actions.len() ==> is_contained(#[trigger] actions[i], limits)
}

/// How many bytes the actions write in all.
pub open spec fn written(actions: Seq<ActionView>) -> nat
    decreases actions.len(),
{
    if actions.len() == 0 {
        0
    } else {
        written(actions.drop_first()) + match actions[0] {
            ActionView::File { content, .. } => content.len(),
            _ => 0,
        }
    }
}

/// How many entries the actions create.
pub open spec fn created(actions: Seq<ActionView>) -> nat
    decreases actions.len(),
{
    if actions.len() == 0 {
        0
    } else {
        created(actions.drop_first()) + match actions[0] {
            ActionView::File { .. } => 1nat,
            ActionView::Directory { .. } => 1nat,
            _ => 0nat,
        }
    }
}

proof fn lemma_first(action: ActionView, rest: ExtractionView, limits: ExtractionLimits)
    requires
        is_contained(action, limits),
        all_contained(rest.actions, limits),
    ensures
        all_contained(extract::first(action, rest).actions, limits),
        written(extract::first(action, rest).actions) == written(rest.actions) + match action {
            ActionView::File { content, .. } => content.len(),
            _ => 0,
        },
        created(extract::first(action, rest).actions) == created(rest.actions) + match action {
            ActionView::File { .. } => 1nat,
            ActionView::Directory { .. } => 1nat,
            _ => 0nat,
        },
{
    let actions = extract::first(action, rest).actions;
    assert(actions.drop_first() =~= rest.actions);
    assert forall|i: int| 0 <= i < actions.len() implies is_contained(
        #[trigger] actions[i],
        limits,
    ) by {
        if i > 0 {
            assert(actions[i] == rest.actions[i - 1]);
        }
    }
}

proof fn lemma_entries_are_contained(
    limits: ExtractionLimits,
    left: nat,
    total: nat,
    rest: Seq<u8>,
)
    requires
        total <= limits.max_total_extracted_size,
    ensures
        all_contained(extract::at_entry(limits, left, total, rest).actions, limits),
        total + written(extract::at_entry(limits, left, total, rest).actions)
            <= limits.max_total_extracted_size,
        created(extract::at_entry(limits, left, total, rest).actions) <= left,
    decreases left,
{
    if left > 0 && rest.len() >= 2 {
        let len = bytes::be_value(rest.take(2));
        let at_path = rest.skip(2);
        let path_bytes = at_path.take(len as int);
        let path = vstd::utf8::decode_utf8(path_bytes);
        if at_path.len() >= len && vstd::utf8::valid_utf8(path_bytes) && path::is_safe(
            path_bytes,
        ) {
            vstd::utf8::decode_utf8_encode_utf8(path_bytes);
            let attributes = at_path.skip(len as int);
            let kind = attributes[0];
            let permissions = bytes::be_value(attributes.subrange(1, 5)) as u32;
            let size = bytes::be_value(attributes.subrange(5, 13));
            let after = attributes.skip(ATTRIBUTES_LEN as int);
            let preserve = limits.preserve_executable_bit;
            if attributes.len() >= ATTRIBUTES_LEN && kind <= 1 && size
                <= limits.max_entry_compressed_size && size <= usize::MAX {
                extract::law_safe_mode(permissions, kind == 1, preserve);
                let mode = extract::safe_mode(permissions, kind == 1, preserve);
                if kind == 1 {
                    lemma_entries_are_contained(limits, (left - 1) as nat, total, after);
                    lemma_first(
                        ActionView::Directory { path, mode },
                        extract::at_entry(limits, (left - 1) as nat, total, after),
                        limits,
                    );
                } else {
                    let content_stage = extract::at_content(
                        limits,
                        left,
                        total,
                        path,
                        mode,
                        size,
                        after,
                    );
                    let inflated = compress::inflate_capped(
                        after.take(size as int),
                        extract::budget(limits, total),
                    );
                    if after.len() >= size && inflated is Ok {
                        let content = inflated->Ok_0;
                        let later = after.skip(size as int);
                        lemma_entries_are_contained(
                            limits,
                            (left - 1) as nat,
                            total + content.len(),
                            later,
                        );
                        lemma_first(
                            ActionView::File { path, mode, content },
                            extract::at_entry(
                                limits,
                                (left - 1) as nat,
                                total + content.len(),
                                later,
                            ),
                            limits,
                        );
                    }
                    lemma_first(ActionView::CreateParent { path }, content_stage, limits);
                }
            }
        }
    }
}

/// Whatever bytes an archive is made of, its extraction only touches paths below
/// the destination folder, restores neither `setuid`, `setgid`, `sticky` nor
/// writing by others, and stays within the limits on the number of entries and on
/// what is written in all, even if it fails in the end.
pub proof fn law_extraction_is_contained(data: Seq<u8>, limits: ExtractionLimits)
    ensures
        all_contained(extract::extraction(data, limits).actions, limits),
        written(extract::extraction(data, limits).actions) <= limits.max_total_extracted_size,
        created(extract::extraction(data, limits).actions) <= limits.max_entries,
{
    if data.len() >= 4 && bytes::be_value(data.take(4)) <= limits.max_entries {
        let count = bytes::be_value(data.take(4));
        lemma_entries_are_contained(limits, count, 0, data.skip(4));
        lemma_first(
            ActionView::CreateRoot,
            extract::at_entry(limits, count, 0, data.skip(4)),
            limits,
        );
    }
}

// ---------------------------------------------------------------------------
// Archives that were made here
// ---------------------------------------------------------------------------

/// The compressed content of an entry.
pub open spec fn body_of(entry: PlannedEntryView<Payload>) -> Seq<u8> {
    if entry.is_dir {
        Seq::empty()
    } else {
        compress::deflate(entry.payload.content@)->Some_0
    }
}

/// How many bytes the files of `entries` hold in all.
pub open spec fn content_size(entries: Seq<PlannedEntryView<Payload>>) -> nat
    decreases entries.len(),
{
    if entries.len() == 0 {
        0
    } else {
        content_size(entries.drop_first()) + if entries[0].is_dir {
            0
        } else {
            entries[0].payload.content@.len()
        }
    }
}

/// What restoring an entry takes.
pub open spec fn restore_entry(entry: PlannedEntryView<Payload>, limits: ExtractionLimits) -> Seq<
    ActionView,
> {
    let path = entry.rel_path;
    let mode = extract::safe_mode(
        entry.payload.permissions,
        entry.is_dir,
        limits.preserve_executable_bit,
    );
    if entry.is_dir {
        seq![ActionView::Directory { path, mode }]
    } else {
        seq![
            ActionView::CreateParent { path },
            ActionView::File { path, mode, content: entry.payload.content@ },
        ]
    }
}

/// What restoring `entries` takes, in order.
pub open spec fn restore_all(entries: Seq<PlannedEntryView<Payload>>, limits: ExtractionLimits) -> Seq<
    ActionView,
>
    decreases entries.len(),
{
    if entries.len() == 0 {
        Seq::empty()
    } else {
        restore_entry(entries[0], limits) + restore_all(entries.drop_first(), limits)
    }
}

/// The compressed content of an entry is within the limit and fits in memory.
pub open spec fn fits_in(entry: PlannedEntryView<Payload>, limits: ExtractionLimits) -> bool {
    &&& body_of(entry).len() <= limits.max_entry_compressed_size
    &&& body_of(entry).len() <= usize::MAX
}

/// The limits leave room for `entries`: for their number, for each of them, and
/// for their contents in all.
pub open spec fn are_within(
    entries: Seq<PlannedEntryView<Payload>>,
    limits: ExtractionLimits,
) -> bool {
    &&& entries.len() <= limits.max_entries
    &&& forall|i: int| 0 <= i < entries.len() ==> fits_in(#[trigger] entries[i], limits)
    &&& content_size(entries) <= limits.max_total_extracted_size
}

/// An entry that an extraction with the given limits can restore: its path is
/// safe, and the limits leave room for it.
pub open spec fn can_be_restored(entry: PlannedEntryView<Payload>, limits: ExtractionLimits) -> bool {
    &&& path::is_safe(vstd::utf8::encode_utf8(entry.rel_path))
    &&& fits_in(entry, limits)
}

proof fn lemma_entries_from_the_front(entries: Seq<PlannedEntryView<Payload>>)
    requires
        entries.len() > 0,
        pack::entries_bytes(entries) is Ok,
    ensures
        pack::entries_bytes(entries.drop_first()) is Ok,
        pack::entry_bytes(
            entries[0].rel_path,
            entries[0].is_dir,
            entries[0].payload.permissions,
            entries[0].payload.content@,
        ) is Ok,
        pack::entries_bytes(entries)->Ok_0 == pack::entry_bytes(
            entries[0].rel_path,
            entries[0].is_dir,
            entries[0].payload.permissions,
            entries[0].payload.content@,
        )->Ok_0 + pack::entries_bytes(entries.drop_first())->Ok_0,
    decreases entries.len(),
{
    let first = pack::entry_bytes(
        entries[0].rel_path,
        entries[0].is_dir,
        entries[0].payload.permissions,
        entries[0].payload.content@,
    );
    if entries.len() == 1 {
        assert(entries.drop_first() =~= Seq::empty());
        assert(entries.drop_last() =~= Seq::empty());
        assert(Seq::<u8>::empty() + first->Ok_0 =~= first->Ok_0 + Seq::<u8>::empty());
    } else {
        lemma_entries_from_the_front(entries.drop_last());
        assert(entries.drop_last().drop_first() =~= entries.drop_first().drop_last());
        assert(entries.drop_first().last() == entries.last());
        let middle = pack::entries_bytes(entries.drop_first().drop_last())->Ok_0;
        let last = pack::entry_bytes(
            entries.last().rel_path,
            entries.last().is_dir,
            entries.last().payload.permissions,
            entries.last().payload.content@,
        )->Ok_0;
        assert((first->Ok_0 + middle) + last =~= first->Ok_0 + (middle + last));
    }
}

/// Reading an entry comes to its path, then to its attributes.
proof fn lemma_read_head(
    limits: ExtractionLimits,
    path: Seq<char>,
    left: nat,
    total: nat,
    data: Seq<u8>,
)
    requires
        left > 0,
        path::is_safe(vstd::utf8::encode_utf8(path)),
        vstd::utf8::encode_utf8(path).len() <= MAX_PATH_LEN,
        data.len() >= 2 + vstd::utf8::encode_utf8(path).len(),
        data.take(2) == bytes::be(vstd::utf8::encode_utf8(path).len(), 2),
        data.skip(2).take(vstd::utf8::encode_utf8(path).len() as int) == vstd::utf8::encode_utf8(
            path,
        ),
    ensures
        extract::at_entry(limits, left, total, data) == extract::at_attributes(
            limits,
            left,
            total,
            path,
            data.skip(2).skip(vstd::utf8::encode_utf8(path).len() as int),
        ),
{
    bytes::lemma_pow256_values();
    bytes::lemma_be_value_of_be(vstd::utf8::encode_utf8(path).len(), 2);
    vstd::utf8::encode_utf8_valid_utf8(path);
    vstd::utf8::encode_utf8_decode_utf8(path);
}

/// Reading a file's content gives the file.
proof fn lemma_read_content(
    limits: ExtractionLimits,
    path: Seq<char>,
    mode: u32,
    content: Seq<u8>,
    body: Seq<u8>,
    left: nat,
    total: nat,
    more: Seq<u8>,
)
    requires
        left > 0,
        compress::inflate(body) == (content, None::<crate::error::IoErrorKind>),
        content.len() <= usize::MAX,
        total + content.len() <= limits.max_total_extracted_size,
    ensures
        extract::at_content(limits, left, total, path, mode, body.len(), body + more)
            == extract::first(
            ActionView::File { path, mode, content },
            extract::at_entry(limits, (left - 1) as nat, total + content.len(), more),
        ),
{
    assert((body + more).take(body.len() as int) =~= body);
    assert((body + more).skip(body.len() as int) =~= more);
    compress::law_inflate_of_deflate(content, body, extract::budget(limits, total));
}

/// Where the fields of an entry lie.
proof fn lemma_entry_layout(
    path: Seq<char>,
    is_dir: bool,
    permissions: u32,
    body: Seq<u8>,
    more: Seq<u8>,
)
    requires
        body.len() <= usize::MAX,
    ensures
        ({
            let path_bytes = vstd::utf8::encode_utf8(path);
            let n = path_bytes.len() as int;
            let data = pack::head_bytes(path, is_dir, permissions) + pack::body_bytes(body) + more;
            let attributes = data.skip(2).skip(n);
            &&& data.len() >= 2 + n
            &&& data.take(2) == bytes::be(path_bytes.len(), 2)
            &&& data.skip(2).take(n) == path_bytes
            &&& attributes.len() >= ATTRIBUTES_LEN
            &&& attributes[0] == if is_dir { 1u8 } else { 0u8 }
            &&& bytes::be_value(attributes.subrange(1, 5)) == permissions
            &&& bytes::be_value(attributes.subrange(5, 13)) == body.len()
            &&& attributes.skip(ATTRIBUTES_LEN as int) == body + more
        }),
{
    let path_bytes = vstd::utf8::encode_utf8(path);
    let n = path_bytes.len() as int;
    let data = pack::head_bytes(path, is_dir, permissions) + pack::body_bytes(body) + more;
    let attributes = data.skip(2).skip(n);
    bytes::lemma_pow256_values();
    bytes::lemma_be_len(path_bytes.len(), 2);
    bytes::lemma_be_value_of_be(permissions as nat, 4);
    bytes::lemma_be_value_of_be(body.len(), 8);
    assert(data.take(2) =~= bytes::be(path_bytes.len(), 2));
    assert(data.skip(2).take(n) =~= path_bytes);
    assert(attributes.subrange(1, 5) =~= bytes::be(permissions as nat, 4));
    assert(attributes.subrange(5, 13) =~= bytes::be(body.len(), 8));
    assert(attributes.skip(ATTRIBUTES_LEN as int) =~= body + more);
}

#[verifier::rlimit(40)]
proof fn lemma_extract_entry(
    limits: ExtractionLimits,
    entry: PlannedEntryView<Payload>,
    left: nat,
    total: nat,
    more: Seq<u8>,
)
    requires
        left > 0,
        pack::entry_bytes(
            entry.rel_path,
            entry.is_dir,
            entry.payload.permissions,
            entry.payload.content@,
        ) is Ok,
        can_be_restored(entry, limits),
        pack::content_comes_back(entry),
        !entry.is_dir ==> total + entry.payload.content@.len() <= limits.max_total_extracted_size,
    ensures
        ({
            let encoded = pack::entry_bytes(
                entry.rel_path,
                entry.is_dir,
                entry.payload.permissions,
                entry.payload.content@,
            )->Ok_0;
            let added = if entry.is_dir {
                0
            } else {
                entry.payload.content@.len()
            };
            let rest = extract::at_entry(limits, (left - 1) as nat, total + added, more);
            extract::at_entry(limits, left, total, encoded + more) == ExtractionView {
                actions: restore_entry(entry, limits) + rest.actions,
                error: rest.error,
            }
        }),
{
    let path = entry.rel_path;
    let path_bytes = vstd::utf8::encode_utf8(path);
    let body = body_of(entry);
    let permissions = entry.payload.permissions;
    let encoded = pack::head_bytes(path, entry.is_dir, permissions) + pack::body_bytes(body);
    let data = encoded + more;
    lemma_entry_layout(path, entry.is_dir, permissions, body, more);
    lemma_read_head(limits, path, left, total, data);
    let attributes = data.skip(2).skip(path_bytes.len() as int);
    let after = attributes.skip(ATTRIBUTES_LEN as int);
    let mode = extract::safe_mode(permissions, entry.is_dir, limits.preserve_executable_bit);
    if entry.is_dir {
        assert(after =~= more);
        let rest = extract::at_entry(limits, (left - 1) as nat, total, more);
        assert(extract::at_attributes(limits, left, total, path, attributes) == extract::first(
            ActionView::Directory { path, mode },
            rest,
        ));
    } else {
        let content = entry.payload.content@;
        assert(content.len() <= usize::MAX) by {
            assert(entry.payload.content.len() == content.len());
        }
        lemma_read_content(limits, path, mode, content, body, left, total, more);
        let rest = extract::at_entry(limits, (left - 1) as nat, total + content.len(), more);
        let file = extract::first(ActionView::File { path, mode, content }, rest);
        assert(extract::at_attributes(limits, left, total, path, attributes) == extract::first(
            ActionView::CreateParent { path },
            file,
        ));
        assert(extract::first(ActionView::CreateParent { path }, file).actions =~= restore_entry(
            entry,
            limits,
        ) + rest.actions);
    }
}

proof fn lemma_extract_entries(
    limits: ExtractionLimits,
    entries: Seq<PlannedEntryView<Payload>>,
    total: nat,
    more: Seq<u8>,
)
    requires
        pack::entries_bytes(entries) is Ok,
        pack::contents_come_back(entries),
        forall|i: int| 0 <= i < entries.len() ==> can_be_restored(#[trigger] entries[i], limits),
        total + content_size(entries) <= limits.max_total_extracted_size,
    ensures
        extract::at_entry(
            limits,
            entries.len(),
            total,
            pack::entries_bytes(entries)->Ok_0 + more,
        ) == (ExtractionView { actions: restore_all(entries, limits), error: None }),
    decreases entries.len(),
{
    if entries.len() == 0 {
        assert(extract::ended() =~= (ExtractionView {
            actions: restore_all(entries, limits),
            error: None,
        }));
    } else {
        let entry = entries[0];
        let tail = entries.drop_first();
        lemma_entries_from_the_front(entries);
        assert(can_be_restored(entry, limits));
        assert(pack::content_comes_back(entry));
        let encoded = pack::entry_bytes(
            entry.rel_path,
            entry.is_dir,
            entry.payload.permissions,
            entry.payload.content@,
        )->Ok_0;
        let tail_bytes = pack::entries_bytes(tail)->Ok_0;
        assert(encoded + tail_bytes + more =~= encoded + (tail_bytes + more));
        lemma_extract_entry(limits, entry, entries.len(), total, tail_bytes + more);
        let added = if entry.is_dir {
            0
        } else {
            entry.payload.content@.len()
        };
        assert forall|i: int| 0 <= i < tail.len() implies can_be_restored(
            #[trigger] tail[i],
            limits,
        ) by {
            assert(tail[i] == entries[i + 1]);
        }
        assert forall|i: int| 0 <= i < tail.len() implies pack::content_comes_back(
            #[trigger] tail[i],
        ) by {
            assert(tail[i] == entries[i + 1]);
        }
        lemma_extract_entries(limits, tail, total + added, more);
    }
}

/// Extracting an archive that was made here restores its entries: every folder,
/// and every file with its content, in order, with filtered permissions. That
/// holds if the limits leave room for them, and if the relative paths are safe
/// ones.
pub proof fn law_extract_of_build(
    entries: Seq<PlannedEntryView<Payload>>,
    archive: Seq<u8>,
    limits: ExtractionLimits,
)
    requires
        pack::entries_bytes(entries) is Ok,
        pack::contents_come_back(entries),
        archive == pack::archive_bytes(entries),
        are_within(entries, limits),
        paths_are_safe(entries),
    ensures
        extract::extraction(archive, limits) == (ExtractionView {
            actions: seq![ActionView::CreateRoot] + restore_all(entries, limits),
            error: None,
        }),
{
    bytes::lemma_pow256_values();
    bytes::lemma_be_value_of_be(entries.len(), 4);
    assert forall|i: int| 0 <= i < entries.len() implies can_be_restored(
        #[trigger] entries[i],
        limits,
    ) by {
        assert(fits_in(entries[i], limits));
    }
    let body = pack::entries_bytes(entries)->Ok_0;
    assert(archive.take(4) =~= bytes::be(entries.len(), 4));
    assert(archive.skip(4) =~= body + Seq::<u8>::empty());
    lemma_extract_entries(limits, entries, 0, Seq::empty());
}

// ---------------------------------------------------------------------------
// Paths of the entries of an archive
// ---------------------------------------------------------------------------

/// What a file or folder can be called: not empty, without `/`, and neither `.`
/// nor `..`.
pub open spec fn is_name(name: Seq<u8>) -> bool {
    &&& name.len() > 0
    &&& forall|i: int| 0 <= i < name.len() ==> #[trigger] name[i] != 0x2f
    &&& name != seq![0x2eu8]
    &&& name != seq![0x2eu8, 0x2eu8]
}

/// Every node below, and this one, has a name that a file or folder can have.
pub open spec fn is_named_properly<T>(node: Node<T>) -> bool
    decreases node,
{
    &&& node.name matches Some(name) ==> is_name(name@)
    &&& match node.found {
        Found::Directory { children, .. } => are_named_properly(children@),
        _ => true,
    }
}

pub open spec fn are_named_properly<T>(nodes: Seq<Node<T>>) -> bool
    decreases nodes,
{
    nodes.len() > 0 ==> is_named_properly(nodes.last()) && are_named_properly(nodes.drop_last())
}

proof fn lemma_each_is_named_properly<T>(nodes: Seq<Node<T>>, i: int)
    requires
        are_named_properly(nodes),
        0 <= i < nodes.len(),
    ensures
        is_named_properly(nodes[i]),
    decreases nodes.len(),
{
    if i < nodes.len() - 1 {
        lemma_each_is_named_properly(nodes.drop_last(), i);
    }
}

proof fn lemma_name_is_safe(name: Seq<u8>)
    requires
        is_name(name),
    ensures
        path::is_safe(name),
{
    if name[0] == 0x2e && path::component_ends(name, 1) {
        assert(name =~= seq![0x2eu8]);
    }
    assert forall|at: int| !#[trigger] path::climbs_at(name, at) by {
        if path::climbs_at(name, at) {
            if at > 0 {
                assert(name[at - 1] != 0x2f);
            }
            assert(name =~= seq![0x2eu8, 0x2eu8]);
        }
    }
}

proof fn lemma_joined_path_is_safe(prefix: Seq<u8>, name: Seq<u8>)
    requires
        path::is_safe(prefix),
        is_name(name),
    ensures
        path::is_safe(prefix + seq![0x2fu8] + name),
{
    let joined = prefix + seq![0x2fu8] + name;
    let n = prefix.len() as int;
    lemma_name_is_safe(name);
    assert(joined[0] == prefix[0]);
    if joined[0] == 0x2e && path::component_ends(joined, 1) {
        if n > 1 {
            assert(joined[1] == prefix[1]);
        }
        assert(path::component_ends(prefix, 1));
    }
    assert forall|at: int| !#[trigger] path::climbs_at(joined, at) by {
        if path::climbs_at(joined, at) {
            if at < n {
                assert(joined[at] == prefix[at]);
                assert(joined[n] == 0x2f);
                assert(at + 1 < n);
                assert(joined[at + 1] == prefix[at + 1]);
                if at > 0 {
                    assert(joined[at - 1] == prefix[at - 1]);
                }
                if at + 2 < n {
                    assert(joined[at + 2] == prefix[at + 2]);
                }
                assert(path::climbs_at(prefix, at));
            } else if at > n {
                let here = at - n - 1;
                assert(joined[at] == name[here]);
                assert(joined[at + 1] == name[here + 1]);
                if here > 0 {
                    assert(joined[at - 1] == name[here - 1]);
                }
                if here + 2 < name.len() {
                    assert(joined[at + 2] == name[here + 2]);
                }
                assert(path::climbs_at(name, here));
            }
        }
    }
}

proof fn lemma_encode_concat(a: Seq<char>, b: Seq<char>)
    ensures
        vstd::utf8::encode_utf8(a + b) == vstd::utf8::encode_utf8(a) + vstd::utf8::encode_utf8(b),
    decreases a.len(),
{
    if a.len() == 0 {
        assert(a + b =~= b);
        assert(vstd::utf8::encode_utf8(a) + vstd::utf8::encode_utf8(b)
            =~= vstd::utf8::encode_utf8(b));
    } else {
        assert((a + b).drop_first() =~= a.drop_first() + b);
        lemma_encode_concat(a.drop_first(), b);
        assert(vstd::utf8::encode_utf8(a + b) =~= vstd::utf8::encode_utf8(a)
            + vstd::utf8::encode_utf8(b));
    }
}

proof fn lemma_rel_path_is_safe(prefix: Option<Seq<char>>, name: Seq<char>)
    requires
        prefix is Some ==> path::is_safe(vstd::utf8::encode_utf8(prefix->Some_0)),
        is_name(vstd::utf8::encode_utf8(name)),
    ensures
        path::is_safe(vstd::utf8::encode_utf8(pack::rel_path_of(prefix, name))),
{
    match prefix {
        None => {
            lemma_name_is_safe(vstd::utf8::encode_utf8(name));
        },
        Some(prefix) => {
            reveal_strlit("/");
            assert("/"@ =~= seq!['/']);
            vstd::utf8::is_ascii_chars_encode_utf8("/"@);
            assert(vstd::utf8::encode_utf8("/"@) =~= seq![0x2fu8]);
            lemma_encode_concat(prefix, "/"@);
            lemma_encode_concat(prefix + "/"@, name);
            lemma_joined_path_is_safe(
                vstd::utf8::encode_utf8(prefix),
                vstd::utf8::encode_utf8(name),
            );
        },
    }
}

/// The relative paths of the entries are safe.
pub open spec fn paths_are_safe<T>(entries: Seq<PlannedEntryView<T>>) -> bool {
    forall|i: int|
        0 <= i < entries.len() ==> path::is_safe(
            vstd::utf8::encode_utf8((#[trigger] entries[i]).rel_path),
        )
}

proof fn lemma_node_paths<T>(node: Node<T>, prefix: Option<Seq<char>>)
    requires
        is_named_properly(node),
        prefix is Some ==> path::is_safe(vstd::utf8::encode_utf8(prefix->Some_0)),
    ensures
        paths_are_safe(pack::visit(node, prefix).entries),
    decreases node, 0nat,
{
    match pack::name_text(node) {
        None => {},
        Some(name) => {
            vstd::utf8::decode_utf8_encode_utf8(node.name->Some_0@);
            lemma_rel_path_is_safe(prefix, name);
            match node.found {
                Found::Directory { payload, children } => {
                    lemma_listed_paths(
                        children@,
                        listing::name_order(children@),
                        Some(pack::rel_path_of(prefix, name)),
                    );
                },
                _ => {},
            }
        },
    }
}

proof fn lemma_listed_paths<T>(nodes: Seq<Node<T>>, order: Seq<int>, prefix: Option<Seq<char>>)
    requires
        are_named_properly(nodes),
        prefix is Some ==> path::is_safe(vstd::utf8::encode_utf8(prefix->Some_0)),
    ensures
        paths_are_safe(pack::visit_listed(nodes, order, prefix).entries),
    decreases nodes, order.len(),
{
    if order.len() > 0 && 0 <= order.last() < nodes.len() {
        lemma_listed_paths(nodes, order.drop_last(), prefix);
        lemma_each_is_named_properly(nodes, order.last());
        lemma_node_paths(nodes[order.last()], prefix);
    }
}

/// An archive of files and folders with ordinary names only has entries that an
/// extraction accepts the path of.
pub proof fn law_planned_paths_are_safe<T>(selected: Seq<Node<T>>)
    requires
        are_named_properly(selected),
    ensures
        paths_are_safe(pack::planned(selected).entries),
{
    lemma_listed_paths(selected, pack::as_given(selected), None);
}

} // verus!
