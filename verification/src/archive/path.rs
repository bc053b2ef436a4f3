//! Relative paths of an archive.

use crate::archive::{ArchiveError, ArchiveErrorView};
use vstd::prelude::*;

verus! {

/// `std::str::from_utf8`: the text that `bytes` encode, unless they are not
/// UTF-8.
#[verifier::external_body]
pub(crate) fn utf8_text(bytes: &[u8]) -> (text: Option<&str>)
    ensures
        match text {
            Some(text) => vstd::utf8::encode_utf8(text@) == bytes@,
            None => !vstd::utf8::valid_utf8(bytes@),
        },
{
    match std::str::from_utf8(bytes) {
        Ok(text) => Some(text),
        Err(_) => None,
    }
}

/// A component of the path starts at byte `at`.
pub open spec fn component_starts(path: Seq<u8>, at: int) -> bool {
    at == 0 || path[at - 1] == 0x2f
}

/// A component of the path ends before byte `at`.
pub open spec fn component_ends(path: Seq<u8>, at: int) -> bool {
    at == path.len() || path[at] == 0x2f
}

/// The component that starts at byte `at` is `..`.
pub open spec fn climbs_at(path: Seq<u8>, at: int) -> bool {
    &&& 0 <= at
    &&& at + 2 <= path.len()
    &&& component_starts(path, at)
    &&& path[at] == 0x2e
    &&& path[at + 1] == 0x2e
    &&& component_ends(path, at + 2)
}

/// A path, given by its UTF-8 bytes, that stays below the folder it is joined
/// to: it is not empty, does not start with `/` nor with the component `.`, and
/// has no component `..`. (Elsewhere than in front a component `.` means
/// nothing, and neither do repeated or final slashes.)
pub open spec fn is_safe(path: Seq<u8>) -> bool {
    &&& path.len() > 0
    &&& path[0] != 0x2f
    &&& !(path[0] == 0x2e && component_ends(path, 1))
    &&& forall|at: int| !#[trigger] climbs_at(path, at)
}

/// Whether a path is safe, see [`is_safe`].
pub fn path_is_safe(path: &[u8]) -> (safe: bool)
    ensures
        safe == is_safe(path@),
{
    if path.len() == 0 || path[0] == 0x2f {
        return false;
    }
    if path[0] == 0x2e && (path.len() == 1 || path[1] == 0x2f) {
        return false;
    }
    let mut at: usize = 0;
    while at < path.len()
        invariant
            at <= path.len(),
            forall|i: int| i < at ==> !#[trigger] climbs_at(path@, i),
        decreases path.len() - at,
    {
        if path.len() - at >= 2 && path[at] == 0x2e && path[at + 1] == 0x2e && (at == 0 || path[at
            - 1] == 0x2f) && (path.len() - at == 2 || path[at + 2] == 0x2f) {
            assert(climbs_at(path@, at as int));
            return false;
        }
        at = at + 1;
    }
    true
}

/// Refuses a relative path that is empty, absolute, or climbs with `..`.
pub fn validate_relative_path(rel: &str) -> (result: Result<(), ArchiveError>)
    ensures
        match result {
            Ok(_) => is_safe(vstd::utf8::encode_utf8(rel@)),
            Err(error) => {
                &&& !is_safe(vstd::utf8::encode_utf8(rel@))
                &&& error@ == ArchiveErrorView::UnsafePath(rel@)
            },
        },
{
    if path_is_safe(rel.as_bytes()) {
        Ok(())
    } else {
        Err(ArchiveError::UnsafePath(rel.to_string()))
    }
}

} // verus!
