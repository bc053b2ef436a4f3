//! What holds of the bytes of an archive, entry by entry.

use crate::archive::extract;
use crate::archive::extract::{Action, ActionView, ExtractionView};
use crate::archive::pack;
use crate::archive::pack::{ArchivePlan, Payload, PlannedEntry, PlannedEntryView};
use crate::archive::path;
use crate::archive::unpack::Extraction;
use crate::archive::{ArchiveError, ArchiveErrorView, ArchiveWarning, ExtractionLimits};
use crate::bytes;
use crate::compress;
use crate::error::IoErrorKind;
use crate::text;
use vstd::prelude::*;

verus! {

// ---------------------------------------------------------------------------
// Paths
// ---------------------------------------------------------------------------

/// Which paths are safe: those that are not empty, do not start with a slash nor with
/// the component `.`, and have no component `..`, that is no two dots between slashes
/// or the ends of the path.
pub proof fn law_safe_paths(path: Seq<u8>)
    ensures
        path::is_safe(path) <==> {
            &&& path.len() > 0
            &&& path[0] != 0x2f
            &&& path != seq![0x2eu8]
            &&& !(path.len() >= 2 && path[0] == 0x2e && path[1] == 0x2f)
            &&& forall|at: int|
                0 <= at && at + 2 <= path.len() && #[trigger] path[at] == 0x2e && path[at + 1]
                    == 0x2e ==> (at > 0 && path[at - 1] != 0x2f) || (at + 2 < path.len() && path[at
                    + 2] != 0x2f)
        },
{
    if path::is_safe(path) {
        assert forall|at: int|
            0 <= at && at + 2 <= path.len() && #[trigger] path[at] == 0x2e && path[at + 1]
                == 0x2e implies (at > 0 && path[at - 1] != 0x2f) || (at + 2 < path.len() && path[at
            + 2] != 0x2f) by {
            assert(!path::climbs_at(path, at));
        }
        if path == seq![0x2eu8] {
            assert(path[0] == 0x2e && path.len() == 1);
        }
    } else if path.len() > 0 && path[0] != 0x2f {
        if path[0] == 0x2e && path::component_ends(path, 1) {
            if path.len() == 1 {
                assert(path =~= seq![0x2eu8]);
            }
        } else {
            let at = choose|at: int| #[trigger] path::climbs_at(path, at);
            assert(path[at] == 0x2e);
        }
    }
}

// ---------------------------------------------------------------------------
// Writing
// ---------------------------------------------------------------------------

/// The bytes of an entry: the length of its path, the path, its kind, its
/// permissions, the size of its compressed content, and that content. It cannot be
/// written if its path has more than 65535 bytes, or if the compression of its content
/// fails, and for no other reason.
pub proof fn law_entry_bytes(
    rel_path: Seq<char>,
    is_dir: bool,
    permissions: u32,
    content: Seq<u8>,
)
    ensures
        ({
            let path_bytes = vstd::utf8::encode_utf8(rel_path);
            let body = if is_dir {
                Some(Seq::<u8>::empty())
            } else {
                compress::deflate(content)
            };
            pack::entry_bytes(rel_path, is_dir, permissions, content) == (if path_bytes.len()
                > 65535 {
                Err::<Seq<u8>, ArchiveErrorView>(ArchiveErrorView::PathTooLong(rel_path))
            } else if body is None {
                Err(ArchiveErrorView::Io(IoErrorKind::Other))
            } else {
                Ok(
                    raw_entry(
                        path_bytes,
                        if is_dir {
                            1
                        } else {
                            0
                        },
                        permissions,
                        body->Some_0,
                    ),
                )
            })
        }),
{
    let path_bytes = vstd::utf8::encode_utf8(rel_path);
    match pack::entry_bytes(rel_path, is_dir, permissions, content) {
        Ok(encoded) => {
            let body = if is_dir {
                Seq::empty()
            } else {
                compress::deflate(content)->Some_0
            };
            assert(encoded =~= raw_entry(
                path_bytes,
                if is_dir {
                    1
                } else {
                    0
                },
                permissions,
                body,
            ));
        },
        Err(_) => {},
    }
}

/// An archive is the number of its entries, then each of them. It can be written if
/// all of them can; otherwise the first that cannot says why.
pub proof fn law_archive_bytes(entries: Seq<PlannedEntryView<Payload>>)
    ensures
        (forall|i: int| 0 <= i < entries.len() ==> (#[trigger] encoded(entries[i])) is Ok)
            ==> pack::entries_bytes(entries) is Ok && pack::archive_bytes(entries) == bytes::be(
            entries.len(),
            4,
        ) + entries.map_values(
            |entry: PlannedEntryView<Payload>| encoded(entry)->Ok_0,
        ).flatten(),
        forall|i: int|
            0 <= i < entries.len() && (#[trigger] encoded(entries[i])) is Err && (forall|j: int|
                0 <= j < i ==> (#[trigger] encoded(entries[j])) is Ok) ==> pack::entries_bytes(
                entries,
            ) == Err::<Seq<u8>, ArchiveErrorView>(encoded(entries[i])->Err_0),
    decreases entries.len(),
{
    let of = |entry: PlannedEntryView<Payload>| encoded(entry)->Ok_0;
    let all = entries.map_values(of);
    if entries.len() > 0 {
        let before = entries.drop_last();
        law_archive_bytes(before);
        assert forall|i: int| 0 <= i < before.len() implies #[trigger] encoded(before[i])
            == encoded(entries[i]) by {}
        if forall|i: int| 0 <= i < entries.len() ==> (#[trigger] encoded(entries[i])) is Ok {
            assert forall|i: int| 0 <= i < before.len() implies (
            #[trigger] encoded(before[i])) is Ok by {
                assert(encoded(entries[i]) is Ok);
            }
            assert(encoded(entries[entries.len() - 1]) is Ok);
            assert(all.drop_last() =~= before.map_values(of));
            all.lemma_flatten_and_flatten_alt_are_equivalent();
            all.drop_last().lemma_flatten_and_flatten_alt_are_equivalent();
            lemma_body_of_archive(before);
            lemma_body_of_archive(entries);
        }
        assert forall|i: int|
            0 <= i < entries.len() && (#[trigger] encoded(entries[i])) is Err && (forall|j: int|
                0 <= j < i ==> (#[trigger] encoded(entries[j])) is Ok) implies pack::entries_bytes(
            entries,
        ) == Err::<Seq<u8>, ArchiveErrorView>(encoded(entries[i])->Err_0) by {
            if i < before.len() {
                assert(encoded(before[i]) is Err);
                assert forall|j: int| 0 <= j < i implies (
                #[trigger] encoded(before[j])) is Ok by {
                    assert(encoded(entries[j]) is Ok);
                }
            } else {
                assert forall|j: int| 0 <= j < before.len() implies (
                #[trigger] encoded(before[j])) is Ok by {
                    assert(encoded(entries[j]) is Ok);
                }
            }
        }
    } else {
        assert(all =~= Seq::empty());
        assert(all.flatten() =~= Seq::<u8>::empty());
    }
}

proof fn lemma_body_of_archive(entries: Seq<PlannedEntryView<Payload>>)
    ensures
        pack::archive_bytes(entries).skip(4) == pack::entries_bytes(entries)->Ok_0,
{
    bytes::lemma_be_len(entries.len(), 4);
    assert(pack::archive_bytes(entries).skip(4) =~= pack::entries_bytes(entries)->Ok_0);
}

/// The bytes of an entry.
pub open spec fn encoded(entry: PlannedEntryView<Payload>) -> Result<Seq<u8>, ArchiveErrorView> {
    pack::entry_bytes(
        entry.rel_path,
        entry.is_dir,
        entry.payload.permissions,
        entry.payload.content@,
    )
}

// ---------------------------------------------------------------------------
// Reading
// ---------------------------------------------------------------------------

/// An entry as it stands in an archive, whatever it declares.
pub open spec fn raw_entry(path: Seq<u8>, kind: u8, permissions: u32, body: Seq<u8>) -> Seq<u8> {
    bytes::be(path.len(), 2) + path + seq![kind] + bytes::be(permissions as nat, 4) + bytes::be(
        body.len(),
        8,
    ) + body
}

/// How an archive starts: without the number of its entries it is malformed, with
/// more of them than the limit it is refused, else the destination is created and the
/// entries follow. What comes after the last one is ignored.
pub proof fn law_start_of_an_extraction(
    count: u32,
    limits: ExtractionLimits,
    rest: Seq<u8>,
    short: Seq<u8>,
)
    requires
        short.len() < 4,
    ensures
        extract::extraction(short, limits) == (ExtractionView {
            actions: Seq::empty(),
            error: Some(ArchiveErrorView::Malformed),
        }),
        extract::extraction(bytes::be(count as nat, 4) + rest, limits) == (if count
            > limits.max_entries {
            ExtractionView {
                actions: Seq::empty(),
                error: Some(
                    ArchiveErrorView::LimitExceeded(
                        "nombre d'entrées ("@ + text::decimal(count as nat)
                            + ") dépasse la limite autorisée ("@ + text::decimal(
                            limits.max_entries as nat,
                        ) + ")"@,
                    ),
                ),
            }
        } else {
            let next = extract::at_entry(limits, count as nat, 0, rest);
            ExtractionView {
                actions: seq![ActionView::CreateRoot] + next.actions,
                error: next.error,
            }
        }),
        extract::at_entry(limits, 0, 0, rest) == (ExtractionView {
            actions: Seq::empty(),
            error: None,
        }),
{
    bytes::lemma_pow256_values();
    bytes::lemma_be_len(count as nat, 4);
    bytes::lemma_be_value_of_be(count as nat, 4);
    let data = bytes::be(count as nat, 4) + rest;
    assert(data.take(4) =~= bytes::be(count as nat, 4));
    assert(data.skip(4) =~= rest);
}

/// What is done with the next entry of an archive, once `total` bytes have been
/// written: it is refused for its path, its kind or its size, or it is restored and
/// the next one follows.
pub proof fn law_next_entry(
    limits: ExtractionLimits,
    left: nat,
    total: nat,
    path: Seq<u8>,
    kind: u8,
    permissions: u32,
    body: Seq<u8>,
    more: Seq<u8>,
)
    requires
        left > 0,
        path.len() <= 65535,
        body.len() <= usize::MAX,
    ensures
        ({
            let outcome = extract::at_entry(
                limits,
                left,
                total,
                raw_entry(path, kind, permissions, body) + more,
            );
            let name = vstd::utf8::decode_utf8(path);
            let (content, stop) = compress::inflate(body);
            let parent = ActionView::CreateParent { path: name };
            if !vstd::utf8::valid_utf8(path) {
                outcome == only_error(Seq::empty(), ArchiveErrorView::Malformed)
            } else if !path::is_safe(path) {
                outcome == only_error(Seq::empty(), ArchiveErrorView::UnsafePath(name))
            } else if kind > 1 {
                outcome == only_error(Seq::empty(), ArchiveErrorView::Malformed)
            } else if body.len() > limits.max_entry_compressed_size {
                outcome == only_error(
                    Seq::empty(),
                    ArchiveErrorView::LimitExceeded(
                        "taille compressée déclarée pour "@ + name + " ("@ + text::decimal(
                            body.len(),
                        ) + " octets) dépasse la limite par entrée ("@ + text::decimal(
                            limits.max_entry_compressed_size as nat,
                        ) + " octets)"@,
                    ),
                )
            } else if kind == 1 {
                let next = extract::at_entry(limits, (left - 1) as nat, total, body + more);
                outcome == (ExtractionView {
                    actions: seq![
                        ActionView::Directory { path: name, mode: permissions & 0o775 },
                    ] + next.actions,
                    error: next.error,
                })
            } else if total + content.len() > limits.max_total_extracted_size && content.len() > 0
                || content.len() > usize::MAX {
                outcome == only_error(
                    seq![parent],
                    ArchiveErrorView::LimitExceeded(
                        "taille totale extraite dépasserait la limite autorisée ("@
                            + text::decimal(limits.max_total_extracted_size as nat)
                            + " octets) en traitant "@ + name,
                    ),
                )
            } else if stop is Some && stop->Some_0 != IoErrorKind::OutOfMemory {
                outcome == only_error(seq![parent], ArchiveErrorView::Malformed)
            } else if stop is None {
                let mode = if limits.preserve_executable_bit {
                    permissions & 0o775
                } else {
                    permissions & 0o664
                };
                let next = extract::at_entry(
                    limits,
                    (left - 1) as nat,
                    total + content.len(),
                    more,
                );
                outcome == (ExtractionView {
                    actions: seq![parent, ActionView::File { path: name, mode, content }]
                        + next.actions,
                    error: next.error,
                })
            } else {
                true
            }
        }),
{
    let data = raw_entry(path, kind, permissions, body) + more;
    let name = vstd::utf8::decode_utf8(path);
    let start = bytes::be(path.len(), 2) + path;
    let fixed = fixed_part(kind, permissions, body.len());
    assert(data =~= start + (fixed + (body + more)));
    assert(data =~= start + fixed + (body + more));
    if !vstd::utf8::valid_utf8(path) || !path::is_safe(path) {
        lemma_path_is_refused(limits, left, total, path, fixed + (body + more));
    } else {
        lemma_path_is_read(limits, left, total, path, fixed + (body + more));
        lemma_attributes(limits, left, total, name, kind, permissions, body.len(), body + more);
        extract::law_mode_keeps_every_other_bit(permissions, true, limits.preserve_executable_bit);
        extract::law_mode_keeps_every_other_bit(
            permissions,
            false,
            limits.preserve_executable_bit,
        );
        if kind == 0 && body.len() <= limits.max_entry_compressed_size {
            let mode = extract::safe_mode(permissions, false, limits.preserve_executable_bit);
            lemma_content(limits, left, total, name, mode, body, more);
        }
    }
}

/// What comes between the path and the content of an entry.
pub open spec fn fixed_part(kind: u8, permissions: u32, size: nat) -> Seq<u8> {
    seq![kind] + bytes::be(permissions as nat, 4) + bytes::be(size, 8)
}

proof fn lemma_path_bytes(path: Seq<u8>, after: Seq<u8>)
    requires
        path.len() <= 65535,
    ensures
        ({
            let data = bytes::be(path.len(), 2) + path + after;
            &&& data.len() >= 2 + path.len()
            &&& bytes::be_value(data.take(2)) == path.len()
            &&& data.skip(2).take(path.len() as int) == path
            &&& data.skip(2).skip(path.len() as int) == after
        }),
{
    let data = bytes::be(path.len(), 2) + path + after;
    bytes::lemma_pow256_values();
    bytes::lemma_be_len(path.len(), 2);
    bytes::lemma_be_value_of_be(path.len(), 2);
    assert(data.take(2) =~= bytes::be(path.len(), 2));
    assert(data.skip(2).take(path.len() as int) =~= path);
    assert(data.skip(2).skip(path.len() as int) =~= after);
}

proof fn lemma_path_is_refused(
    limits: ExtractionLimits,
    left: nat,
    total: nat,
    path: Seq<u8>,
    after: Seq<u8>,
)
    requires
        left > 0,
        path.len() <= 65535,
        !vstd::utf8::valid_utf8(path) || !path::is_safe(path),
    ensures
        extract::at_entry(limits, left, total, bytes::be(path.len(), 2) + path + after)
            == only_error(
            Seq::empty(),
            if !vstd::utf8::valid_utf8(path) {
                ArchiveErrorView::Malformed
            } else {
                ArchiveErrorView::UnsafePath(vstd::utf8::decode_utf8(path))
            },
        ),
{
    lemma_path_bytes(path, after);
}

proof fn lemma_path_is_read(
    limits: ExtractionLimits,
    left: nat,
    total: nat,
    path: Seq<u8>,
    after: Seq<u8>,
)
    requires
        left > 0,
        path.len() <= 65535,
        vstd::utf8::valid_utf8(path),
        path::is_safe(path),
    ensures
        extract::at_entry(limits, left, total, bytes::be(path.len(), 2) + path + after)
            == extract::at_attributes(
            limits,
            left,
            total,
            vstd::utf8::decode_utf8(path),
            after,
        ),
{
    lemma_path_bytes(path, after);
}

/// What is done once the attributes of an entry are there.
proof fn lemma_attributes(
    limits: ExtractionLimits,
    left: nat,
    total: nat,
    name: Seq<char>,
    kind: u8,
    permissions: u32,
    size: nat,
    tail: Seq<u8>,
)
    requires
        left > 0,
        size <= u64::MAX,
    ensures
        ({
            let outcome = extract::at_attributes(
                limits,
                left,
                total,
                name,
                fixed_part(kind, permissions, size) + tail,
            );
            if kind > 1 {
                outcome == only_error(Seq::empty(), ArchiveErrorView::Malformed)
            } else if size > limits.max_entry_compressed_size {
                outcome == only_error(Seq::empty(), extract::entry_too_large(name, size, limits))
            } else if size > usize::MAX {
                outcome == only_error(Seq::empty(), ArchiveErrorView::Malformed)
            } else if kind == 1 {
                outcome == extract::first(
                    ActionView::Directory {
                        path: name,
                        mode: extract::safe_mode(
                            permissions,
                            true,
                            limits.preserve_executable_bit,
                        ),
                    },
                    extract::at_entry(limits, (left - 1) as nat, total, tail),
                )
            } else {
                outcome == extract::first(
                    ActionView::CreateParent { path: name },
                    extract::at_content(
                        limits,
                        left,
                        total,
                        name,
                        extract::safe_mode(permissions, false, limits.preserve_executable_bit),
                        size,
                        tail,
                    ),
                )
            }
        }),
{
    let attributes = fixed_part(kind, permissions, size) + tail;
    bytes::lemma_pow256_values();
    bytes::lemma_be_len(permissions as nat, 4);
    bytes::lemma_be_len(size, 8);
    bytes::lemma_be_value_of_be(permissions as nat, 4);
    bytes::lemma_be_value_of_be(size, 8);
    assert(attributes[0] == kind);
    assert(attributes.subrange(1, 5) =~= bytes::be(permissions as nat, 4));
    assert(attributes.subrange(5, 13) =~= bytes::be(size, 8));
    assert(attributes.skip(13) =~= tail);
}

/// What is done with the content of a file, after its folder has been created.
proof fn lemma_content(
    limits: ExtractionLimits,
    left: nat,
    total: nat,
    name: Seq<char>,
    mode: u32,
    body: Seq<u8>,
    more: Seq<u8>,
)
    requires
        left > 0,
    ensures
        ({
            let parent = ActionView::CreateParent { path: name };
            let outcome = extract::first(
                parent,
                extract::at_content(limits, left, total, name, mode, body.len(), body + more),
            );
            let (content, stop) = compress::inflate(body);
            if total + content.len() > limits.max_total_extracted_size && content.len() > 0
                || content.len() > usize::MAX {
                outcome == only_error(seq![parent], extract::total_too_large(name, limits))
            } else if stop is Some && stop->Some_0 != IoErrorKind::OutOfMemory {
                outcome == only_error(seq![parent], ArchiveErrorView::Malformed)
            } else if stop is None {
                let next = extract::at_entry(
                    limits,
                    (left - 1) as nat,
                    total + content.len(),
                    more,
                );
                outcome == (ExtractionView {
                    actions: seq![parent, ActionView::File { path: name, mode, content }]
                        + next.actions,
                    error: next.error,
                })
            } else {
                true
            }
        }),
{
    let parent = ActionView::CreateParent { path: name };
    let (content, stop) = compress::inflate(body);
    assert((body + more).take(body.len() as int) =~= body);
    assert((body + more).skip(body.len() as int) =~= more);
    assert(seq![parent] + Seq::<ActionView>::empty() =~= seq![parent]);
    if stop is None && content.len() <= extract::budget(limits, total) {
        let next = extract::at_entry(limits, (left - 1) as nat, total + content.len(), more);
        let file = ActionView::File { path: name, mode, content };
        assert(seq![parent] + (seq![file] + next.actions) =~= seq![parent, file] + next.actions);
    }
}

/// An entry is refused as soon as what refuses it has been read, whatever follows: a
/// path that is not UTF-8 or not safe once the path is there, a kind or a size once it
/// is declared. A file with less content than it declares is malformed, and only the
/// folder it goes to is created.
pub proof fn law_entry_is_refused_early(
    limits: ExtractionLimits,
    left: nat,
    total: nat,
    path: Seq<u8>,
    kind: u8,
    permissions: u32,
    size: u64,
    more: Seq<u8>,
)
    requires
        left > 0,
        path.len() <= 65535,
    ensures
        ({
            let start = bytes::be(path.len(), 2) + path;
            let head = start + (seq![kind] + bytes::be(permissions as nat, 4) + bytes::be(
                size as nat,
                8,
            ));
            let name = vstd::utf8::decode_utf8(path);
            &&& !vstd::utf8::valid_utf8(path) ==> extract::at_entry(
                limits,
                left,
                total,
                start + more,
            ) == only_error(Seq::empty(), ArchiveErrorView::Malformed)
            &&& vstd::utf8::valid_utf8(path) && !path::is_safe(path) ==> extract::at_entry(
                limits,
                left,
                total,
                start + more,
            ) == only_error(Seq::empty(), ArchiveErrorView::UnsafePath(name))
            &&& vstd::utf8::valid_utf8(path) && path::is_safe(path) ==> {
                let outcome = extract::at_entry(limits, left, total, head + more);
                &&& kind > 1 ==> outcome == only_error(Seq::empty(), ArchiveErrorView::Malformed)
                &&& kind <= 1 && size > limits.max_entry_compressed_size ==> outcome == only_error(
                    Seq::empty(),
                    ArchiveErrorView::LimitExceeded(
                        "taille compressée déclarée pour "@ + name + " ("@ + text::decimal(
                            size as nat,
                        ) + " octets) dépasse la limite par entrée ("@ + text::decimal(
                            limits.max_entry_compressed_size as nat,
                        ) + " octets)"@,
                    ),
                )
                &&& kind <= 1 && size <= limits.max_entry_compressed_size && size > usize::MAX
                    ==> outcome == only_error(Seq::empty(), ArchiveErrorView::Malformed)
                &&& kind == 0 && size <= limits.max_entry_compressed_size && size <= usize::MAX
                    && more.len() < size ==> outcome == only_error(
                    seq![ActionView::CreateParent { path: name }],
                    ArchiveErrorView::Malformed,
                )
            }
        }),
{
    let start = bytes::be(path.len(), 2) + path;
    let fixed = fixed_part(kind, permissions, size as nat);
    let name = vstd::utf8::decode_utf8(path);
    if !vstd::utf8::valid_utf8(path) || !path::is_safe(path) {
        lemma_path_is_refused(limits, left, total, path, more);
    } else {
        bytes::lemma_concat_assoc(start, fixed, more);
        lemma_path_is_read(limits, left, total, path, fixed + more);
        lemma_attributes(limits, left, total, name, kind, permissions, size as nat, more);
        assert(seq![ActionView::CreateParent { path: name }] + Seq::<ActionView>::empty()
            =~= seq![ActionView::CreateParent { path: name }]);
    }
}

/// Only these actions, then an error.
pub open spec fn only_error(actions: Seq<ActionView>, error: ArchiveErrorView) -> ExtractionView {
    ExtractionView { actions, error: Some(error) }
}

/// An archive that ends inside an entry is malformed, wherever it ends, once its path
/// is there and is fit; and so is one that ends inside the path. Of a file whose
/// content is cut off only the folder it goes to is created.
#[verifier::rlimit(60)]
pub proof fn law_cut_entry_is_malformed(
    limits: ExtractionLimits,
    left: nat,
    total: nat,
    path: Seq<u8>,
    kind: u8,
    permissions: u32,
    body: Seq<u8>,
    len: int,
)
    requires
        left > 0,
        0 < path.len() <= 65535,
        vstd::utf8::valid_utf8(path),
        path::is_safe(path),
        body.len() <= usize::MAX,
        body.len() <= limits.max_entry_compressed_size,
        kind == 0 || (kind == 1 && body.len() == 0),
        0 <= len < raw_entry(path, kind, permissions, body).len(),
    ensures
        extract::at_entry(
            limits,
            left,
            total,
            raw_entry(path, kind, permissions, body).take(len),
        ).error == Some(ArchiveErrorView::Malformed),
        extract::at_entry(
            limits,
            left,
            total,
            raw_entry(path, kind, permissions, body).take(len),
        ).actions == (if len < 15 + path.len() {
            Seq::<ActionView>::empty()
        } else {
            seq![ActionView::CreateParent { path: vstd::utf8::decode_utf8(path) }]
        }),
{
    let whole = raw_entry(path, kind, permissions, body);
    let data = whole.take(len);
    let n = path.len() as int;
    bytes::lemma_pow256_values();
    bytes::lemma_be_len(path.len(), 2);
    bytes::lemma_be_len(permissions as nat, 4);
    bytes::lemma_be_len(body.len(), 8);
    bytes::lemma_be_value_of_be(path.len(), 2);
    bytes::lemma_be_value_of_be(body.len(), 8);
    let name = vstd::utf8::decode_utf8(path);
    assert(data.len() == len);
    if len >= 2 {
        assert(data.take(2) =~= bytes::be(path.len(), 2));
        let rest = data.skip(2);
        assert(extract::at_entry(limits, left, total, data) == extract::at_path(
            limits,
            left,
            total,
            path.len(),
            rest,
        ));
        if len >= 2 + n {
            assert(rest.take(n) =~= path);
            let attributes = rest.skip(n);
            assert(extract::at_path(limits, left, total, path.len(), rest)
                == extract::at_attributes(limits, left, total, name, attributes));
            if attributes.len() >= 13 {
                assert(attributes[0] == kind);
                assert(attributes.subrange(5, 13) =~= bytes::be(body.len(), 8));
                let permissions = bytes::be_value(attributes.subrange(1, 5)) as u32;
                let mode = extract::safe_mode(permissions, false, limits.preserve_executable_bit);
                let after = attributes.skip(13);
                assert(after.len() < body.len());
                assert(extract::at_attributes(limits, left, total, name, attributes)
                    == extract::first(
                    ActionView::CreateParent { path: name },
                    extract::at_content(limits, left, total, name, mode, body.len(), after),
                ));
                assert(seq![ActionView::CreateParent { path: name }] + Seq::<ActionView>::empty()
                    =~= seq![ActionView::CreateParent { path: name }]);
            }
        }
    }
}

// ---------------------------------------------------------------------------
// Values
// ---------------------------------------------------------------------------

/// Actions, errors, warnings and entries are what their fields say.
pub proof fn law_values(
    action: Action,
    error: ArchiveError,
    warning: ArchiveWarning,
    entry: PlannedEntry<Payload>,
)
    ensures
        match action {
            Action::CreateRoot => action@ == ActionView::CreateRoot,
            Action::CreateParent { path } => action@ == (ActionView::CreateParent { path: path@ }),
            Action::Directory { path, mode } => action@ == (ActionView::Directory {
                path: path@,
                mode,
            }),
            Action::File { path, mode, content } => action@ == (ActionView::File {
                path: path@,
                mode,
                content: content@,
            }),
        },
        match error {
            ArchiveError::Io(io) => error@ == ArchiveErrorView::Io(io.kind),
            ArchiveError::UnsafePath(path) => error@ == ArchiveErrorView::UnsafePath(path@),
            ArchiveError::PathTooLong(path) => error@ == ArchiveErrorView::PathTooLong(path@),
            ArchiveError::LimitExceeded(what) => error@ == ArchiveErrorView::LimitExceeded(what@),
            ArchiveError::Malformed => error@ == ArchiveErrorView::Malformed,
        },
        warning@.path == warning.path,
        warning@.reason == warning.reason@,
        entry@.rel_path == entry.rel_path@,
        entry@.source == entry.source,
        entry@.is_dir == entry.is_dir,
        entry@.payload == entry.payload,
{
}

/// Lists of actions, entries and warnings are what their items say, one by one.
pub proof fn law_lists_of_values(extraction: Extraction, plan: ArchivePlan<Payload>, i: int)
    ensures
        extraction@.actions.len() == extraction.actions@.len(),
        0 <= i < extraction.actions@.len() ==> extraction@.actions[i] == extraction.actions@[i]@,
        extraction@.error == (match extraction.result {
            Ok(_) => None,
            Err(error) => Some(error@),
        }),
        plan@.entries.len() == plan.entries@.len(),
        0 <= i < plan.entries@.len() ==> plan@.entries[i] == plan.entries@[i]@,
        plan@.warnings.len() == plan.warnings@.len(),
        0 <= i < plan.warnings@.len() ==> plan@.warnings[i] == plan.warnings@[i]@,
        pack::warnings_of(plan.warnings@) == plan@.warnings,
{
}

} // verus!
