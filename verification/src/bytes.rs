//! Big-endian integers and fixed-size copies of byte slices.

use vstd::prelude::*;

verus! {

/// `value` written on `width` bytes, most significant byte first. Only the
/// low `8 * width` bits of `value` are kept.
pub open spec fn be(value: nat, width: nat) -> Seq<u8>
    decreases width,
{
    if width == 0 {
        Seq::empty()
    } else {
        be(value / 256, (width - 1) as nat).push((value % 256) as u8)
    }
}

/// The integer that `bytes` spells, most significant byte first.
pub open spec fn be_value(bytes: Seq<u8>) -> nat
    decreases bytes.len(),
{
    if bytes.len() == 0 {
        0
    } else {
        be_value(bytes.drop_last()) * 256 + bytes.last() as nat
    }
}

/// `256` to the power `width`: how many integers fit on `width` bytes.
pub open spec fn pow256(width: nat) -> nat
    decreases width,
{
    if width == 0 {
        1
    } else {
        256 * pow256((width - 1) as nat)
    }
}

pub proof fn lemma_pow256_values()
    ensures
        pow256(0) == 1,
        pow256(1) == 0x100,
        pow256(2) == 0x1_0000,
        pow256(4) == 0x1_0000_0000,
        pow256(8) == 0x1_0000_0000_0000_0000,
{
    reveal_with_fuel(pow256, 9);
}

pub proof fn lemma_pow256_monotonic(a: nat, b: nat)
    requires
        a <= b,
    ensures
        pow256(a) <= pow256(b),
    decreases b - a,
{
    if a < b {
        lemma_pow256_monotonic(a, (b - 1) as nat);
    }
}

pub proof fn lemma_be_len(value: nat, width: nat)
    ensures
        be(value, width).len() == width,
    decreases width,
{
    if width > 0 {
        lemma_be_len(value / 256, (width - 1) as nat);
    }
}

pub proof fn lemma_be_value_bound(bytes: Seq<u8>)
    ensures
        be_value(bytes) < pow256(bytes.len()),
    decreases bytes.len(),
{
    if bytes.len() > 0 {
        lemma_be_value_bound(bytes.drop_last());
    }
}

/// Reading back what was written gives the integer, as long as it fits.
pub proof fn lemma_be_value_of_be(value: nat, width: nat)
    requires
        value < pow256(width),
    ensures
        be_value(be(value, width)) == value,
        be(value, width).len() == width,
    decreases width,
{
    if width > 0 {
        lemma_be_value_of_be(value / 256, (width - 1) as nat);
        assert(be(value, width).drop_last() =~= be(value / 256, (width - 1) as nat));
    }
}

/// Writing what was read gives the bytes back.
pub proof fn lemma_be_of_be_value(bytes: Seq<u8>)
    ensures
        be(be_value(bytes), bytes.len()) == bytes,
    decreases bytes.len(),
{
    if bytes.len() > 0 {
        lemma_be_of_be_value(bytes.drop_last());
        assert(be(be_value(bytes), bytes.len()) =~= bytes);
    } else {
        assert(be(be_value(bytes), bytes.len()) =~= bytes);
    }
}

/// Two integers that fit on `width` bytes and have the same bytes are equal.
pub proof fn lemma_be_injective(a: nat, b: nat, width: nat)
    requires
        a < pow256(width),
        b < pow256(width),
        be(a, width) == be(b, width),
    ensures
        a == b,
{
    lemma_be_value_of_be(a, width);
    lemma_be_value_of_be(b, width);
}

/// Concatenation is associative.
pub proof fn lemma_concat_assoc(a: Seq<u8>, b: Seq<u8>, c: Seq<u8>)
    ensures
        (a + b) + c == a + (b + c),
{
    assert((a + b) + c =~= a + (b + c));
}

/// Zero is all zeros.
pub proof fn lemma_be_of_zero(width: nat, i: int)
    requires
        0 <= i < width,
    ensures
        be(0, width).len() == width,
        be(0, width)[i] == 0,
    decreases width,
{
    lemma_be_len(0, width);
    lemma_be_len(0, (width - 1) as nat);
    if i < width - 1 {
        lemma_be_of_zero((width - 1) as nat, i);
    }
}

/// Appends the low `8 * width` bits of `value` to `out`, big-endian.
pub fn push_be(out: &mut Vec<u8>, value: u64, width: usize)
    ensures
        final(out)@ == old(out)@ + be(value as nat, width as nat),
    decreases width,
{
    if width > 0 {
        push_be(out, value / 256, width - 1);
        out.push((value % 256) as u8);
    }
    proof {
        assert(out@ =~= old(out)@ + be(value as nat, width as nat));
    }
}

/// The big-endian integer held by the `width` bytes of `bytes` from `at`.
pub fn read_be(bytes: &[u8], at: usize, width: usize) -> (value: u64)
    requires
        width <= 8,
        at + width <= bytes.len(),
    ensures
        value as nat == be_value(bytes@.subrange(at as int, at + width)),
        (value as nat) < pow256(width as nat),
{
    let mut value: u64 = 0;
    let mut i: usize = 0;
    proof {
        assert(bytes@.subrange(at as int, at + 0) =~= Seq::<u8>::empty());
    }
    while i < width
        invariant
            i <= width <= 8,
            at + width <= bytes.len(),
            value as nat == be_value(bytes@.subrange(at as int, at + i)),
            (value as nat) < pow256(i as nat),
        decreases width - i,
    {
        proof {
            let shorter = bytes@.subrange(at as int, at + i);
            let longer = bytes@.subrange(at as int, at + i + 1);
            assert(longer.drop_last() =~= shorter);
            assert(pow256((i + 1) as nat) == 256 * pow256(i as nat));
            lemma_pow256_monotonic((i + 1) as nat, 8);
            lemma_pow256_values();
        }
        value = value * 256 + bytes[at + i] as u64;
        i = i + 1;
    }
    value
}

/// Copies the `N` bytes of `bytes` from `at` into an array.
pub fn copy_array<const N: usize>(bytes: &[u8], at: usize) -> (out: [u8; N])
    requires
        at + N <= bytes.len(),
    ensures
        out@ == bytes@.subrange(at as int, at + N),
{
    let mut out: [u8; N] = [0u8; N];
    let mut i: usize = 0;
    while i < N
        invariant
            i <= N,
            at + N <= bytes.len(),
            forall|j: int| 0 <= j < i ==> out@[j] == bytes@[at + j],
        decreases N - i,
    {
        out[i] = bytes[at + i];
        i = i + 1;
    }
    proof {
        assert(out@ =~= bytes@.subrange(at as int, at + N));
    }
    out
}

/// Appends the bytes of `tail` to `out`.
pub fn push_all(out: &mut Vec<u8>, tail: &[u8])
    ensures
        final(out)@ == old(out)@ + tail@,
{
    out.extend_from_slice(tail);
    proof {
        assert(out@ =~= old(out)@ + tail@);
    }
}

/// Big-endian integers: byte `i` of `width` is the digit, to the base 256, that has
/// `width - 1 - i` digits after it, and the bytes spell the integer again if it fits.
pub proof fn law_big_endian(value: nat, width: nat, i: int)
    requires
        0 <= i < width,
    ensures
        be(value, width).len() == width,
        be(value, width)[i] == (value as int / vstd::arithmetic::power::pow(
            256,
            (width - 1 - i) as nat,
        )) % 256,
        value < vstd::arithmetic::power::pow(256, width) ==> be_value(be(value, width)) == value,
    decreases width,
{
    lemma_be_len(value, width);
    lemma_be_len(value / 256, (width - 1) as nat);
    lemma_pow256_is_pow(width);
    if value < pow256(width) {
        lemma_be_value_of_be(value, width);
    }
    if i == width - 1 {
        vstd::arithmetic::power::lemma_pow0(256);
    } else {
        law_big_endian(value / 256, (width - 1) as nat, i);
        let n = (width - 2 - i) as nat;
        vstd::arithmetic::power::lemma_pow_positive(256, n);
        vstd::arithmetic::power::lemma_pow_adds(256, 1, n);
        vstd::arithmetic::power::lemma_pow1(256);
        vstd::arithmetic::div_mod::lemma_div_denominator(
            value as int,
            256,
            vstd::arithmetic::power::pow(256, n),
        );
    }
}

proof fn lemma_pow256_is_pow(width: nat)
    ensures
        pow256(width) == vstd::arithmetic::power::pow(256, width),
    decreases width,
{
    if width == 0 {
        vstd::arithmetic::power::lemma_pow0(256);
    } else {
        lemma_pow256_is_pow((width - 1) as nat);
        vstd::arithmetic::power::lemma_pow_adds(256, 1, (width - 1) as nat);
        vstd::arithmetic::power::lemma_pow1(256);
    }
}

} // verus!
