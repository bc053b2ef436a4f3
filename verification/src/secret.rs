//! Values that are erased from memory when they go out of scope.

use vstd::prelude::*;
use vstd::string::StrSliceExecFns;

verus! {

/// `zeroize::Zeroize::zeroize` on a byte slice: every byte becomes zero, the
/// length stays.
#[verifier::external_body]
pub(crate) fn zeroize_slice(bytes: &mut [u8])
    ensures
        final(bytes)@ == Seq::new(old(bytes)@.len(), |i: int| 0u8),
    opens_invariants none
    no_unwind
{
    zeroize::Zeroize::zeroize(bytes);
}

/// `zeroize::Zeroize::zeroize` on a `Vec`: its bytes are overwritten with
/// zeros, then it is emptied.
#[verifier::external_body]
fn zeroize_vec(bytes: &mut Vec<u8>)
    ensures
        final(bytes)@ == Seq::<u8>::empty(),
    opens_invariants none
    no_unwind
{
    zeroize::Zeroize::zeroize(bytes);
}

/// `zeroize::Zeroize::zeroize` on a `String`: its bytes are overwritten with
/// zeros, then it is emptied.
#[verifier::external_body]
fn zeroize_string(text: &mut String)
    ensures
        final(text)@ == Seq::<char>::empty(),
    opens_invariants none
    no_unwind
{
    zeroize::Zeroize::zeroize(text);
}

/// A password typed by the user, erased from memory when it is dropped. It is
/// never written to disk nor logged.
pub struct Password {
    text: String,
}

impl View for Password {
    type V = Seq<char>;

    closed spec fn view(&self) -> Seq<char> {
        self.text@
    }
}

impl Password {
    /// The UTF-8 bytes of the password: what the key derivation is fed with.
    pub open spec fn spec_bytes(&self) -> Seq<u8> {
        vstd::utf8::encode_utf8(self@)
    }

    pub fn new(text: String) -> (password: Self)
        ensures
            password@ == text@,
    {
        Password { text }
    }

    pub fn as_str(&self) -> (text: &str)
        ensures
            text@ == self@,
    {
        self.text.as_str()
    }

    /// Whether the two passwords are the same text.
    pub fn same_as(&self, other: &Password) -> (same: bool)
        ensures
            same == (self@ == other@),
    {
        self.text == other.text
    }

    pub fn as_bytes(&self) -> (bytes: &[u8])
        ensures
            bytes@ == self.spec_bytes(),
            bytes@ == vstd::utf8::encode_utf8(self@),
    {
        self.text.as_str().as_bytes()
    }
}

impl Drop for Password {
    fn drop(&mut self)
        opens_invariants none
        no_unwind
    {
        zeroize_string(&mut self.text);
    }
}

/// A line without the line breaks at its end.
pub open spec fn without_line_breaks(line: Seq<char>) -> Seq<char>
    decreases line.len(),
{
    if line.len() > 0 && (line.last() == '\n' || line.last() == '\r') {
        without_line_breaks(line.drop_last())
    } else {
        line
    }
}

/// The password on a line that was read: everything but the line breaks at its
/// end.
pub fn password_of_line(line: &str) -> (password: Password)
    ensures
        password@ == without_line_breaks(line@),
{
    let mut len: usize = line.unicode_len();
    proof {
        assert(line@.take(line@.len() as int) =~= line@);
    }
    while len > 0 && (line.get_char(len - 1) == '\n' || line.get_char(len - 1) == '\r')
        invariant
            len <= line@.len(),
            without_line_breaks(line@.take(len as int)) == without_line_breaks(line@),
        decreases len,
    {
        proof {
            assert(line@.take(len as int).drop_last() =~= line@.take(len - 1));
        }
        len = len - 1;
    }
    Password::new(line.substring_char(0, len).to_string())
}

/// Plaintext bytes, erased from memory when they are dropped.
pub struct SecretBytes {
    bytes: Vec<u8>,
}

impl View for SecretBytes {
    type V = Seq<u8>;

    closed spec fn view(&self) -> Seq<u8> {
        self.bytes@
    }
}

impl SecretBytes {
    pub fn new(bytes: Vec<u8>) -> (secret: Self)
        ensures
            secret@ == bytes@,
    {
        SecretBytes { bytes }
    }

    pub fn as_slice(&self) -> (bytes: &[u8])
        ensures
            bytes@ == self@,
    {
        self.bytes.as_slice()
    }

    pub fn len(&self) -> (len: usize)
        ensures
            len == self@.len(),
    {
        self.bytes.len()
    }

    /// Appends `tail`.
    pub(crate) fn extend(&mut self, tail: &[u8])
        ensures
            final(self)@ == old(self)@ + tail@,
    {
        crate::bytes::push_all(&mut self.bytes, tail);
    }
}

impl Drop for SecretBytes {
    fn drop(&mut self)
        opens_invariants none
        no_unwind
    {
        zeroize_vec(&mut self.bytes);
    }
}

/// A password on a line is the longest start of the line that does not end with a
/// line break: only line breaks are taken off, and only at the end.
pub proof fn law_only_line_breaks_are_taken_off(line: Seq<char>)
    ensures
        without_line_breaks(line).len() <= line.len(),
        without_line_breaks(line) == line.take(without_line_breaks(line).len() as int),
        forall|i: int|
            without_line_breaks(line).len() <= i < line.len() ==> #[trigger] line[i] == '\n'
                || line[i] == '\r',
        without_line_breaks(line).len() > 0 ==> without_line_breaks(line).last() != '\n'
            && without_line_breaks(line).last() != '\r',
    decreases line.len(),
{
    if line.len() > 0 && (line.last() == '\n' || line.last() == '\r') {
        law_only_line_breaks_are_taken_off(line.drop_last());
        let kept = without_line_breaks(line).len() as int;
        assert(line.drop_last().take(kept) =~= line.take(kept));
        assert forall|i: int| kept <= i < line.len() implies #[trigger] line[i] == '\n' || line[i]
            == '\r' by {
            if i < line.len() - 1 {
                assert(line.drop_last()[i] == line[i]);
            }
        }
    } else {
        assert(line.take(line.len() as int) =~= line);
    }
}

} // verus!
