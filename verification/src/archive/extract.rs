//! Reading an archive.
//!
//! [`Extractor`] decides; its caller reads the archive and writes the files.

use crate::archive::path;
use crate::archive::path::{utf8_text, validate_relative_path};
use crate::archive::{ArchiveError, ArchiveErrorView, ExtractionLimits};
use crate::bytes;
use crate::bytes::{push_all, read_be};
use crate::compress;
use crate::compress::decompress_bytes_capped;
use crate::error::IoErrorKind;
use crate::text;
use crate::text::push_decimal;
use vstd::prelude::*;

verus! {

/// Size of the blocks in which the content of an entry is read: memory follows
/// the bytes that are there, not the size that the archive declares.
pub const READ_CHUNK_SIZE: usize = 64 * 1024;

/// Length of what comes between the path and the content of an entry.
pub const ATTRIBUTES_LEN: usize = 1 + 4 + 8;

/// What an extraction does to the destination folder.
#[derive(Debug)]
pub enum Action {
    /// Create the destination folder itself.
    CreateRoot,
    /// Create the folder that the file at `path` goes to.
    CreateParent { path: String },
    /// Create the folder `path`, and give it `mode`.
    Directory { path: String, mode: u32 },
    /// Write the file `path`, and give it `mode`.
    File { path: String, mode: u32, content: Vec<u8> },
}

/// An action, as a value.
pub enum ActionView {
    CreateRoot,
    CreateParent { path: Seq<char> },
    Directory { path: Seq<char>, mode: u32 },
    File { path: Seq<char>, mode: u32, content: Seq<u8> },
}

impl View for Action {
    type V = ActionView;

    open spec fn view(&self) -> ActionView {
        match self {
            Action::CreateRoot => ActionView::CreateRoot,
            Action::CreateParent { path } => ActionView::CreateParent { path: path@ },
            Action::Directory { path, mode } => ActionView::Directory { path: path@, mode: *mode },
            Action::File { path, mode, content } => ActionView::File {
                path: path@,
                mode: *mode,
                content: content@,
            },
        }
    }
}

/// What an extraction comes to: the actions it takes, in order, and the error
/// that stops it, if any.
#[verifier::ext_equal]
pub struct ExtractionView {
    pub actions: Seq<ActionView>,
    pub error: Option<ArchiveErrorView>,
}

/// Nothing more is done.
pub open spec fn ended() -> ExtractionView {
    ExtractionView { actions: Seq::empty(), error: None }
}

/// Nothing more is done: `error` stops the extraction.
pub open spec fn stopped(error: ArchiveErrorView) -> ExtractionView {
    ExtractionView { actions: Seq::empty(), error: Some(error) }
}

/// `action` comes first.
pub open spec fn first(action: ActionView, rest: ExtractionView) -> ExtractionView {
    ExtractionView { actions: seq![action] + rest.actions, error: rest.error }
}

/// `action` comes first, if there is one.
pub open spec fn first_if_any(action: Option<ActionView>, rest: ExtractionView) -> ExtractionView {
    match action {
        Some(action) => first(action, rest),
        None => rest,
    }
}

// ---------------------------------------------------------------------------
// Permissions
// ---------------------------------------------------------------------------

/// The mode that is restored for a stored mode: only the nine permission bits
/// are kept, without writing by others, and files lose their executable bits
/// unless they are to be preserved.
pub open spec fn safe_mode(mode: u32, is_dir: bool, preserve_executable_bit: bool) -> u32 {
    if is_dir || preserve_executable_bit {
        mode & 0o775
    } else {
        mode & 0o664
    }
}

/// Filters a stored mode before it is applied. That an archive is authentic does
/// not make its modes safe: `setuid`, `setgid`, `sticky` and writing by others
/// are always dropped.
pub fn sanitize_mode(mode: u32, is_dir: bool, preserve_executable_bit: bool) -> (safe: u32)
    ensures
        safe == safe_mode(mode, is_dir, preserve_executable_bit),
{
    let cleaned: u32 = (mode & 0o777) & !(0o4000u32 | 0o2000u32 | 0o1000u32 | 0o002u32);
    assert((mode & 0o777) & !(0o4000u32 | 0o2000u32 | 0o1000u32 | 0o002u32) == mode & 0o775)
        by (bit_vector);
    if is_dir || preserve_executable_bit {
        cleaned
    } else {
        assert((mode & 0o775) & !0o111u32 == mode & 0o664) by (bit_vector);
        cleaned & !0o111u32
    }
}

/// A restored mode has all nine permission bits that were stored but writing by
/// others: those of a folder, and those of a file whose executable bits are
/// preserved, as they were, those of another file without the executable ones.
pub proof fn law_mode_keeps_every_other_bit(mode: u32, is_dir: bool, preserve_executable_bit: bool)
    ensures
        is_dir || preserve_executable_bit ==> safe_mode(mode, is_dir, preserve_executable_bit)
            == mode & 0o775,
        !is_dir && !preserve_executable_bit ==> safe_mode(mode, is_dir, preserve_executable_bit)
            == mode & 0o664,
{
}

/// A restored mode never has `setuid`, `setgid`, `sticky` or writing by others,
/// and has only bits that were stored. A file whose executable bits are not
/// preserved has none. Filtering twice is filtering once.
pub proof fn law_safe_mode(mode: u32, is_dir: bool, preserve_executable_bit: bool)
    ensures
        safe_mode(mode, is_dir, preserve_executable_bit) & 0o7002 == 0,
        safe_mode(mode, is_dir, preserve_executable_bit) & mode == safe_mode(
            mode,
            is_dir,
            preserve_executable_bit,
        ),
        !is_dir && !preserve_executable_bit ==> safe_mode(mode, is_dir, preserve_executable_bit)
            & 0o111 == 0,
        is_dir || preserve_executable_bit ==> safe_mode(mode, is_dir, preserve_executable_bit)
            & 0o111 == mode & 0o111,
        safe_mode(
            safe_mode(mode, is_dir, preserve_executable_bit),
            is_dir,
            preserve_executable_bit,
        ) == safe_mode(mode, is_dir, preserve_executable_bit),
{
    assert((mode & 0o775) & 0o7002 == 0) by (bit_vector);
    assert((mode & 0o664) & 0o7002 == 0) by (bit_vector);
    assert((mode & 0o775) & mode == mode & 0o775) by (bit_vector);
    assert((mode & 0o664) & mode == mode & 0o664) by (bit_vector);
    assert((mode & 0o664) & 0o111 == 0) by (bit_vector);
    assert((mode & 0o775) & 0o111 == mode & 0o111) by (bit_vector);
    assert((mode & 0o775) & 0o775 == mode & 0o775) by (bit_vector);
    assert((mode & 0o664) & 0o664 == mode & 0o664) by (bit_vector);
}

// ---------------------------------------------------------------------------
// Messages
// ---------------------------------------------------------------------------

pub open spec fn too_many_entries(count: nat, limits: ExtractionLimits) -> ArchiveErrorView {
    ArchiveErrorView::LimitExceeded(
        "nombre d'entrées ("@ + text::decimal(count) + ") dépasse la limite autorisée ("@
            + text::decimal(limits.max_entries as nat) + ")"@,
    )
}

pub open spec fn entry_too_large(path: Seq<char>, size: nat, limits: ExtractionLimits) -> ArchiveErrorView {
    ArchiveErrorView::LimitExceeded(
        "taille compressée déclarée pour "@ + path + " ("@ + text::decimal(size)
            + " octets) dépasse la limite par entrée ("@ + text::decimal(
            limits.max_entry_compressed_size as nat,
        ) + " octets)"@,
    )
}

pub open spec fn total_too_large(path: Seq<char>, limits: ExtractionLimits) -> ArchiveErrorView {
    ArchiveErrorView::LimitExceeded(
        "taille totale extraite dépasserait la limite autorisée ("@ + text::decimal(
            limits.max_total_extracted_size as nat,
        ) + " octets) en traitant "@ + path,
    )
}

fn too_many_entries_error(count: u32, limits: &ExtractionLimits) -> (error: ArchiveError)
    ensures
        error@ == too_many_entries(count as nat, *limits),
{
    let mut message = "nombre d'entrées (".to_string();
    push_decimal(&mut message, count as u64);
    message.append(") dépasse la limite autorisée (");
    push_decimal(&mut message, limits.max_entries as u64);
    message.append(")");
    ArchiveError::LimitExceeded(message)
}

fn entry_too_large_error(path: &str, size: u64, limits: &ExtractionLimits) -> (error: ArchiveError)
    ensures
        error@ == entry_too_large(path@, size as nat, *limits),
{
    let mut message = "taille compressée déclarée pour ".to_string();
    message.append(path);
    message.append(" (");
    push_decimal(&mut message, size);
    message.append(" octets) dépasse la limite par entrée (");
    push_decimal(&mut message, limits.max_entry_compressed_size);
    message.append(" octets)");
    ArchiveError::LimitExceeded(message)
}

fn total_too_large_error(path: &str, limits: &ExtractionLimits) -> (error: ArchiveError)
    ensures
        error@ == total_too_large(path@, *limits),
{
    let mut message = "taille totale extraite dépasserait la limite autorisée (".to_string();
    push_decimal(&mut message, limits.max_total_extracted_size);
    message.append(" octets) en traitant ");
    message.append(path);
    ArchiveError::LimitExceeded(message)
}

// ---------------------------------------------------------------------------
// What an archive says to do
// ---------------------------------------------------------------------------

/// How many bytes may still come out of the entries once `total` have.
pub open spec fn budget(limits: ExtractionLimits, total: nat) -> nat {
    let left = if limits.max_total_extracted_size >= total {
        (limits.max_total_extracted_size - total) as nat
    } else {
        0
    };
    if left <= usize::MAX {
        left
    } else {
        usize::MAX as nat
    }
}

/// What is done with the whole archive `data`.
pub open spec fn extraction(data: Seq<u8>, limits: ExtractionLimits) -> ExtractionView {
    if data.len() < 4 {
        stopped(ArchiveErrorView::Malformed)
    } else {
        let count = bytes::be_value(data.take(4));
        if count > limits.max_entries {
            stopped(too_many_entries(count, limits))
        } else {
            first(ActionView::CreateRoot, at_entry(limits, count, 0, data.skip(4)))
        }
    }
}

/// What is done when `left` entries are to come, `total` bytes have come out of
/// the files so far, and `rest` is left of the archive. What follows the last
/// entry is ignored.
pub open spec fn at_entry(limits: ExtractionLimits, left: nat, total: nat, rest: Seq<u8>) -> ExtractionView
    decreases left, 4int,
{
    if left == 0 {
        ended()
    } else if rest.len() < 2 {
        stopped(ArchiveErrorView::Malformed)
    } else {
        at_path(limits, left, total, bytes::be_value(rest.take(2)), rest.skip(2))
    }
}

/// ... with an entry whose path has `len` bytes.
pub open spec fn at_path(
    limits: ExtractionLimits,
    left: nat,
    total: nat,
    len: nat,
    rest: Seq<u8>,
) -> ExtractionView
    decreases left, 3int,
{
    let path_bytes = rest.take(len as int);
    let path = vstd::utf8::decode_utf8(path_bytes);
    if rest.len() < len || !vstd::utf8::valid_utf8(path_bytes) {
        stopped(ArchiveErrorView::Malformed)
    } else if !path::is_safe(path_bytes) {
        stopped(ArchiveErrorView::UnsafePath(path))
    } else {
        at_attributes(limits, left, total, path, rest.skip(len as int))
    }
}

/// ... with an entry at `path`.
pub open spec fn at_attributes(
    limits: ExtractionLimits,
    left: nat,
    total: nat,
    path: Seq<char>,
    rest: Seq<u8>,
) -> ExtractionView
    decreases left, 2int,
{
    let kind = rest[0];
    let permissions = bytes::be_value(rest.subrange(1, 5)) as u32;
    let size = bytes::be_value(rest.subrange(5, 13));
    let after = rest.skip(ATTRIBUTES_LEN as int);
    if left == 0 || rest.len() < ATTRIBUTES_LEN || kind > 1 {
        stopped(ArchiveErrorView::Malformed)
    } else if size > limits.max_entry_compressed_size {
        stopped(entry_too_large(path, size, limits))
    } else if size > usize::MAX {
        stopped(ArchiveErrorView::Malformed)
    } else if kind == 1 {
        let mode = safe_mode(permissions, true, limits.preserve_executable_bit);
        first(
            ActionView::Directory { path, mode },
            at_entry(limits, (left - 1) as nat, total, after),
        )
    } else {
        let mode = safe_mode(permissions, false, limits.preserve_executable_bit);
        first(
            ActionView::CreateParent { path },
            at_content(limits, left, total, path, mode, size, after),
        )
    }
}

/// ... with a file at `path` whose compressed content has `size` bytes.
pub open spec fn at_content(
    limits: ExtractionLimits,
    left: nat,
    total: nat,
    path: Seq<char>,
    mode: u32,
    size: nat,
    rest: Seq<u8>,
) -> ExtractionView
    decreases left, 1int,
{
    if left == 0 || rest.len() < size {
        stopped(ArchiveErrorView::Malformed)
    } else {
        match compress::inflate_capped(rest.take(size as int), budget(limits, total)) {
            Ok(content) => first(
                ActionView::File { path, mode, content },
                at_entry(
                    limits,
                    (left - 1) as nat,
                    total + content.len(),
                    rest.skip(size as int),
                ),
            ),
            Err(kind) => if kind == IoErrorKind::OutOfMemory {
                stopped(total_too_large(path, limits))
            } else {
                stopped(ArchiveErrorView::Malformed)
            },
        }
    }
}

// ---------------------------------------------------------------------------
// Extracting step by step
// ---------------------------------------------------------------------------

/// What is read next.
enum Stage {
    Count,
    PathLength,
    Path { len: usize },
    Attributes { path: String },
    Content { path: String, mode: u32, remaining: usize, gathered: Vec<u8> },
}

/// Reads an archive step by step. The caller reads the [`Self::wanted`] bytes,
/// hands over what it got, and carries out the action that comes back, until
/// [`Self::is_done`].
pub struct Extractor {
    limits: ExtractionLimits,
    stage: Stage,
    left: u32,
    total: u64,
}

impl Extractor {
    /// What is done with the rest of the archive.
    pub closed spec fn outcome(&self, rest: Seq<u8>) -> ExtractionView {
        let left = self.left as nat;
        let total = self.total as nat;
        match self.stage {
            Stage::Count => extraction(rest, self.limits),
            Stage::PathLength => at_entry(self.limits, left, total, rest),
            Stage::Path { len } => at_path(self.limits, left, total, len as nat, rest),
            Stage::Attributes { path } => at_attributes(self.limits, left, total, path@, rest),
            Stage::Content { path, mode, remaining, gathered } => at_content(
                self.limits,
                left,
                total,
                path@,
                mode,
                gathered@.len() + remaining as nat,
                gathered@ + rest,
            ),
        }
    }

    /// Every entry has been dealt with.
    pub closed spec fn done(&self) -> bool {
        self.stage is PathLength && self.left == 0
    }

    /// How many bytes are read next.
    pub closed spec fn spec_wanted(&self) -> nat {
        match self.stage {
            Stage::Count => 4,
            Stage::PathLength => 2,
            Stage::Path { len } => len as nat,
            Stage::Attributes { path } => ATTRIBUTES_LEN as nat,
            Stage::Content { path, mode, remaining, gathered } => if remaining
                <= READ_CHUNK_SIZE {
                remaining as nat
            } else {
                READ_CHUNK_SIZE as nat
            },
        }
    }

    pub closed spec fn wf(&self) -> bool {
        &&& self.total <= self.limits.max_total_extracted_size
        &&& match self.stage {
            Stage::Count => self.total == 0,
            Stage::PathLength => true,
            Stage::Path { len } => len <= 0xffff && self.left > 0,
            Stage::Attributes { path } => self.left > 0,
            Stage::Content { path, mode, remaining, gathered } => {
                &&& self.left > 0
                &&& gathered@.len() + remaining <= usize::MAX
            },
        }
    }

    /// How many steps are at most to come before another entry is begun, and
    /// how many entries: what each step makes smaller.
    pub closed spec fn entries_left(&self) -> nat {
        match self.stage {
            Stage::Count => u32::MAX as nat + 1,
            _ => self.left as nat,
        }
    }

    pub closed spec fn steps_left(&self) -> nat {
        match self.stage {
            Stage::Count => 0,
            Stage::PathLength => usize::MAX as nat + 4,
            Stage::Path { .. } => usize::MAX as nat + 3,
            Stage::Attributes { .. } => usize::MAX as nat + 2,
            Stage::Content { remaining, .. } => remaining as nat + 1,
        }
    }

    pub fn new(limits: ExtractionLimits) -> (extractor: Self)
        ensures
            extractor.wf(),
            !extractor.done(),
            forall|data: Seq<u8>| #[trigger]
                extractor.outcome(data) == extraction(data, limits),
    {
        Extractor { limits, stage: Stage::Count, left: 0, total: 0 }
    }

    pub fn is_done(&self) -> (done: bool)
        ensures
            done == self.done(),
            done ==> forall|rest: Seq<u8>| #[trigger] self.outcome(rest) == ended(),
    {
        match self.stage {
            Stage::PathLength => self.left == 0,
            _ => false,
        }
    }

    /// How many bytes are read next: at most 64 KiB.
    pub fn wanted(&self) -> (len: usize)
        requires
            self.wf(),
        ensures
            len == self.spec_wanted(),
            len <= READ_CHUNK_SIZE,
    {
        match &self.stage {
            Stage::Count => 4,
            Stage::PathLength => 2,
            Stage::Path { len } => *len,
            Stage::Attributes { .. } => ATTRIBUTES_LEN,
            Stage::Content { remaining, .. } => if *remaining <= READ_CHUNK_SIZE {
                *remaining
            } else {
                READ_CHUNK_SIZE
            },
        }
    }
}

/// The action of a step, as a value.
pub open spec fn action_of(action: Option<Action>) -> Option<ActionView> {
    match action {
        Some(action) => Some(action@),
        None => None,
    }
}

impl Extractor {
    /// Takes what could be read of the [`Self::wanted`] bytes, and says what to
    /// do. An archive that ends early is malformed. After an error the
    /// extraction is over.
    pub fn feed(&mut self, data: &[u8]) -> (result: Result<Option<Action>, ArchiveError>)
        requires
            old(self).wf(),
            !old(self).done(),
            data@.len() <= old(self).spec_wanted(),
        ensures
            match result {
                Ok(action) => {
                    &&& data@.len() == old(self).spec_wanted()
                    &&& final(self).wf()
                    &&& final(self).entries_left() < old(self).entries_left() || (
                    final(self).entries_left() == old(self).entries_left()
                        && final(self).steps_left() < old(self).steps_left())
                    &&& forall|rest: Seq<u8>| #[trigger]
                        old(self).outcome(data@ + rest) == first_if_any(
                            action_of(action),
                            final(self).outcome(rest),
                        )
                },
                Err(error) => {
                    &&& old(self).outcome(data@) == stopped(error@)
                    &&& data@.len() == old(self).spec_wanted() ==> forall|rest: Seq<u8>|
                        #[trigger] old(self).outcome(data@ + rest) == stopped(error@)
                },
            },
    {
        let want: usize = self.wanted();
        if data.len() < want {
            return Err(ArchiveError::Malformed);
        }
        let mut stage = Stage::PathLength;
        std::mem::swap(&mut stage, &mut self.stage);
        match stage {
            Stage::Count => self.feed_count(data),
            Stage::PathLength => {
                let len: usize = read_be(data, 0, 2) as usize;
                self.stage = Stage::Path { len };
                proof {
                    bytes::lemma_pow256_values();
                    assert(data@.subrange(0, 2) =~= data@);
                    assert forall|rest: Seq<u8>| #[trigger]
                        old(self).outcome(data@ + rest) == self.outcome(rest) by {
                        assert((data@ + rest).take(2) =~= data@);
                        assert((data@ + rest).skip(2) =~= rest);
                    }
                }
                Ok(None)
            },
            Stage::Path { len } => self.feed_path(data),
            Stage::Attributes { path } => self.feed_attributes(path, data),
            Stage::Content { path, mode, remaining, gathered } => self.feed_content(
                path,
                mode,
                remaining,
                gathered,
                data,
            ),
        }
    }

    fn feed_count(&mut self, data: &[u8]) -> (result: Result<Option<Action>, ArchiveError>)
        requires
            old(self).total == 0,
            data@.len() == 4,
        ensures
            match result {
                Ok(action) => {
                    &&& final(self).wf()
                    &&& final(self).entries_left() <= u32::MAX
                    &&& forall|rest: Seq<u8>| #[trigger]
                        extraction(data@ + rest, old(self).limits) == first_if_any(
                            action_of(action),
                            final(self).outcome(rest),
                        )
                },
                Err(error) => {
                    &&& forall|rest: Seq<u8>| #[trigger]
                        extraction(data@ + rest, old(self).limits) == stopped(error@)
                    &&& extraction(data@, old(self).limits) == stopped(error@)
                },
            },
    {
        let count: u32 = read_be(data, 0, 4) as u32;
        proof {
            bytes::lemma_pow256_values();
            assert(data@.subrange(0, 4) =~= data@);
            assert(data@.take(4) =~= data@);
            assert forall|rest: Seq<u8>| (#[trigger] (data@ + rest)).take(4) == data@ && (data@
                + rest).skip(4) == rest by {
                assert((data@ + rest).take(4) =~= data@);
                assert((data@ + rest).skip(4) =~= rest);
            }
        }
        if count > self.limits.max_entries {
            return Err(too_many_entries_error(count, &self.limits));
        }
        self.left = count;
        self.stage = Stage::PathLength;
        Ok(Some(Action::CreateRoot))
    }

    fn feed_path(&mut self, data: &[u8]) -> (result: Result<Option<Action>, ArchiveError>)
        requires
            old(self).left > 0,
            old(self).total <= old(self).limits.max_total_extracted_size,
        ensures
            match result {
                Ok(action) => {
                    &&& action is None
                    &&& final(self).wf()
                    &&& final(self).left == old(self).left
                    &&& final(self).stage is Attributes
                    &&& forall|rest: Seq<u8>| #[trigger]
                        at_path(
                            old(self).limits,
                            old(self).left as nat,
                            old(self).total as nat,
                            data@.len(),
                            data@ + rest,
                        ) == final(self).outcome(rest)
                },
                Err(error) => {
                    &&& forall|rest: Seq<u8>| #[trigger]
                        at_path(
                            old(self).limits,
                            old(self).left as nat,
                            old(self).total as nat,
                            data@.len(),
                            data@ + rest,
                        ) == stopped(error@)
                    &&& at_path(
                        old(self).limits,
                        old(self).left as nat,
                        old(self).total as nat,
                        data@.len(),
                        data@,
                    ) == stopped(error@)
                },
            },
    {
        proof {
            let len = data@.len() as int;
            assert(data@.take(len) =~= data@);
            assert forall|rest: Seq<u8>| (#[trigger] (data@ + rest)).take(len) == data@ && (data@
                + rest).skip(len) == rest by {
                assert((data@ + rest).take(len) =~= data@);
                assert((data@ + rest).skip(len) =~= rest);
            }
        }
        match utf8_text(data) {
            None => Err(ArchiveError::Malformed),
            Some(path) => {
                proof {
                    vstd::utf8::encode_utf8_valid_utf8(path@);
                    vstd::utf8::encode_utf8_decode_utf8(path@);
                }
                match validate_relative_path(path) {
                    Err(error) => Err(error),
                    Ok(_) => {
                        self.stage = Stage::Attributes { path: path.to_string() };
                        Ok(None)
                    },
                }
            },
        }
    }

    fn feed_attributes(&mut self, path: String, data: &[u8]) -> (result: Result<
        Option<Action>,
        ArchiveError,
    >)
        requires
            old(self).left > 0,
            old(self).total <= old(self).limits.max_total_extracted_size,
            old(self).stage is PathLength,
            data@.len() == ATTRIBUTES_LEN,
        ensures
            match result {
                Ok(action) => {
                    &&& final(self).wf()
                    &&& final(self).left < old(self).left || (final(self).left == old(self).left
                        && final(self).stage is Content)
                    &&& final(self).stage is PathLength || final(self).stage is Content
                    &&& forall|rest: Seq<u8>| #[trigger]
                        at_attributes(
                            old(self).limits,
                            old(self).left as nat,
                            old(self).total as nat,
                            path@,
                            data@ + rest,
                        ) == first_if_any(action_of(action), final(self).outcome(rest))
                },
                Err(error) => {
                    &&& forall|rest: Seq<u8>| #[trigger]
                        at_attributes(
                            old(self).limits,
                            old(self).left as nat,
                            old(self).total as nat,
                            path@,
                            data@ + rest,
                        ) == stopped(error@)
                    &&& at_attributes(
                        old(self).limits,
                        old(self).left as nat,
                        old(self).total as nat,
                        path@,
                        data@,
                    ) == stopped(error@)
                },
            },
    {
        let kind: u8 = data[0];
        let permissions: u32 = read_be(data, 1, 4) as u32;
        let size: u64 = read_be(data, 5, 8);
        proof {
            bytes::lemma_pow256_values();
            let len = ATTRIBUTES_LEN as int;
            assert forall|rest: Seq<u8>|
                (#[trigger] (data@ + rest)).skip(len) == rest && (data@ + rest)[0] == kind && (data@
                    + rest).subrange(1, 5) == data@.subrange(1, 5) && (data@ + rest).subrange(5, 13)
                    == data@.subrange(5, 13) by {
                assert((data@ + rest).skip(len) =~= rest);
                assert((data@ + rest).subrange(1, 5) =~= data@.subrange(1, 5));
                assert((data@ + rest).subrange(5, 13) =~= data@.subrange(5, 13));
            }
        }
        if kind > 1 {
            return Err(ArchiveError::Malformed);
        }
        if size > self.limits.max_entry_compressed_size {
            return Err(entry_too_large_error(path.as_str(), size, &self.limits));
        }
        if size > usize::MAX as u64 {
            return Err(ArchiveError::Malformed);
        }
        let preserve: bool = self.limits.preserve_executable_bit;
        if kind == 1 {
            let mode: u32 = sanitize_mode(permissions, true, preserve);
            self.left = self.left - 1;
            Ok(Some(Action::Directory { path, mode }))
        } else {
            let mode: u32 = sanitize_mode(permissions, false, preserve);
            let parent_of = path.clone();
            self.stage = Stage::Content {
                path,
                mode,
                remaining: size as usize,
                gathered: Vec::new(),
            };
            proof {
                assert forall|rest: Seq<u8>| Seq::<u8>::empty() + rest == rest by {
                    assert(Seq::<u8>::empty() + rest =~= rest);
                }
            }
            Ok(Some(Action::CreateParent { path: parent_of }))
        }
    }

    fn feed_content(
        &mut self,
        path: String,
        mode: u32,
        remaining: usize,
        gathered: Vec<u8>,
        data: &[u8],
    ) -> (result: Result<Option<Action>, ArchiveError>)
        requires
            old(self).left > 0,
            old(self).total <= old(self).limits.max_total_extracted_size,
            old(self).stage is PathLength,
            gathered@.len() + remaining <= usize::MAX,
            data@.len() <= remaining,
            data@.len() == 0 ==> remaining == 0,
        ensures
            match result {
                Ok(action) => {
                    &&& final(self).wf()
                    &&& final(self).left < old(self).left || (final(self).left == old(self).left
                        && final(self).steps_left() <= remaining)
                    &&& final(self).stage is PathLength || final(self).stage is Content
                    &&& forall|rest: Seq<u8>| #[trigger]
                        at_content(
                            old(self).limits,
                            old(self).left as nat,
                            old(self).total as nat,
                            path@,
                            mode,
                            gathered@.len() + remaining as nat,
                            gathered@ + (data@ + rest),
                        ) == first_if_any(action_of(action), final(self).outcome(rest))
                },
                Err(error) => {
                    &&& forall|rest: Seq<u8>| #[trigger]
                        at_content(
                            old(self).limits,
                            old(self).left as nat,
                            old(self).total as nat,
                            path@,
                            mode,
                            gathered@.len() + remaining as nat,
                            gathered@ + (data@ + rest),
                        ) == stopped(error@)
                    &&& at_content(
                        old(self).limits,
                        old(self).left as nat,
                        old(self).total as nat,
                        path@,
                        mode,
                        gathered@.len() + remaining as nat,
                        gathered@ + data@,
                    ) == stopped(error@)
                },
            },
    {
        let ghost start = gathered@;
        let mut compressed = gathered;
        push_all(&mut compressed, data);
        let left: usize = remaining - data.len();
        proof {
            assert forall|rest: Seq<u8>| #[trigger] (start + (data@ + rest)) == compressed@
                + rest by {
                assert(start + (data@ + rest) =~= compressed@ + rest);
            }
        }
        if left > 0 {
            self.stage = Stage::Content { path, mode, remaining: left, gathered: compressed };
            return Ok(None);
        }
        proof {
            let size = compressed@.len() as int;
            assert(compressed@.take(size) =~= compressed@);
            assert forall|rest: Seq<u8>|
                (#[trigger] (compressed@ + rest)).take(size) == compressed@ && (compressed@
                    + rest).skip(size) == rest by {
                assert((compressed@ + rest).take(size) =~= compressed@);
                assert((compressed@ + rest).skip(size) =~= rest);
            }
        }
        let room: u64 = self.limits.max_total_extracted_size - self.total;
        let cap: usize = if room <= usize::MAX as u64 {
            room as usize
        } else {
            usize::MAX
        };
        match decompress_bytes_capped(compressed.as_slice(), cap) {
            Ok(content) => {
                self.total = self.total + content.len() as u64;
                self.left = self.left - 1;
                Ok(Some(Action::File { path, mode, content }))
            },
            Err(error) => match error.kind {
                IoErrorKind::OutOfMemory => Err(
                    total_too_large_error(path.as_str(), &self.limits),
                ),
                _ => Err(ArchiveError::Malformed),
            },
        }
    }
}

} // verus!
