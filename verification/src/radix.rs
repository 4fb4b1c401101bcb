//! Fixed-width integers as byte strings, in base 256.
//!
//! The document counter is stored big-endian; the ranked map's fields are
//! stored little-endian. Both are defined here by plain arithmetic on
//! naturals, together with the facts that make them codecs: every width-`w`
//! byte string is the encoding of exactly one number below `256^w`.

use vstd::prelude::*;

verus! {

/// `256^n`.
pub open spec fn radix_pow(n: nat) -> nat
    decreases n,
{
    if n == 0 {
        1
    } else {
        256 * radix_pow((n - 1) as nat)
    }
}

/// The `width` low base-256 digits of `x`, least significant first.
pub open spec fn le_bytes(x: nat, width: nat) -> Seq<u8>
    decreases width,
{
    if width == 0 {
        Seq::empty()
    } else {
        seq![(x % 256) as u8] + le_bytes(x / 256, (width - 1) as nat)
    }
}

/// The number whose base-256 digits, least significant first, are `s`.
pub open spec fn le_value(s: Seq<u8>) -> nat
    decreases s.len(),
{
    if s.len() == 0 {
        0
    } else {
        s[0] as nat + 256 * le_value(s.drop_first())
    }
}

/// The `width` low base-256 digits of `x`, most significant first.
pub open spec fn be_bytes(x: nat, width: nat) -> Seq<u8>
    decreases width,
{
    if width == 0 {
        Seq::empty()
    } else {
        be_bytes(x / 256, (width - 1) as nat).push((x % 256) as u8)
    }
}

/// The number whose base-256 digits, most significant first, are `s`.
pub open spec fn be_value(s: Seq<u8>) -> nat
    decreases s.len(),
{
    if s.len() == 0 {
        0
    } else {
        256 * be_value(s.drop_last()) + s.last() as nat
    }
}

/// `256^8` is one more than the largest `u64`, and the smaller powers that
/// the codecs use are what they should be.
pub proof fn lemma_radix_pow_values()
    ensures
        radix_pow(0) == 1,
        radix_pow(1) == 0x100,
        radix_pow(2) == 0x1_0000,
        radix_pow(4) == 0x1_0000_0000,
        radix_pow(8) == 0x1_0000_0000_0000_0000,
{
    reveal_with_fuel(radix_pow, 9);
}

/// An encoding has as many bytes as its width.
pub proof fn lemma_le_bytes_len(x: nat, width: nat)
    ensures
        le_bytes(x, width).len() == width,
    decreases width,
{
    if width > 0 {
        lemma_le_bytes_len(x / 256, (width - 1) as nat);
    }
}

/// A byte string of length `n` denotes a number below `256^n`.
pub proof fn lemma_le_value_bound(s: Seq<u8>)
    ensures
        le_value(s) < radix_pow(s.len()),
    decreases s.len(),
{
    if s.len() > 0 {
        lemma_le_value_bound(s.drop_first());
    }
}

/// Decoding undoes encoding, for every number that fits the width.
pub proof fn lemma_le_value_of_bytes(x: nat, width: nat)
    requires
        x < radix_pow(width),
    ensures
        le_value(le_bytes(x, width)) == x,
    decreases width,
{
    if width > 0 {
        let rest = le_bytes(x / 256, (width - 1) as nat);
        lemma_le_value_of_bytes(x / 256, (width - 1) as nat);
        assert(le_bytes(x, width).drop_first() =~= rest);
    }
}

/// Encoding undoes decoding: a byte string is the encoding, at its own
/// length, of the number it denotes.
pub proof fn lemma_le_bytes_of_value(s: Seq<u8>)
    ensures
        le_bytes(le_value(s), s.len()) == s,
    decreases s.len(),
{
    if s.len() > 0 {
        lemma_le_bytes_of_value(s.drop_first());
    }
}

/// An encoding has as many bytes as its width.
pub proof fn lemma_be_bytes_len(x: nat, width: nat)
    ensures
        be_bytes(x, width).len() == width,
    decreases width,
{
    if width > 0 {
        lemma_be_bytes_len(x / 256, (width - 1) as nat);
    }
}

/// A byte string of length `n` denotes a number below `256^n`.
pub proof fn lemma_be_value_bound(s: Seq<u8>)
    ensures
        be_value(s) < radix_pow(s.len()),
    decreases s.len(),
{
    if s.len() > 0 {
        lemma_be_value_bound(s.drop_last());
    }
}

/// Decoding undoes encoding, for every number that fits the width.
pub proof fn lemma_be_value_of_bytes(x: nat, width: nat)
    requires
        x < radix_pow(width),
    ensures
        be_value(be_bytes(x, width)) == x,
    decreases width,
{
    if width > 0 {
        let rest = be_bytes(x / 256, (width - 1) as nat);
        lemma_be_value_of_bytes(x / 256, (width - 1) as nat);
        assert(be_bytes(x, width).drop_last() =~= rest);
    }
}

/// Encoding undoes decoding: a byte string is the encoding, at its own
/// length, of the number it denotes.
pub proof fn lemma_be_bytes_of_value(s: Seq<u8>)
    ensures
        be_bytes(be_value(s), s.len()) == s,
    decreases s.len(),
{
    if s.len() > 0 {
        lemma_be_bytes_of_value(s.drop_last());
    }
}

/// The powers of 256 grow with the exponent.
pub proof fn lemma_radix_pow_monotone(a: nat, b: nat)
    requires
        a <= b,
    ensures
        radix_pow(a) <= radix_pow(b),
    decreases b,
{
    if a < b {
        lemma_radix_pow_monotone(a, (b - 1) as nat);
    }
}

/// Appends to `out` the `width` low base-256 digits of `x`, least
/// significant first.
pub fn push_le(out: &mut Vec<u8>, x: u64, width: usize)
    ensures
        final(out)@ == old(out)@ + le_bytes(x as nat, width as nat),
{
    let ghost start = out@;
    let mut rest: u64 = x;
    let mut i: usize = 0;
    while i < width
        invariant
            i <= width,
            start + le_bytes(x as nat, width as nat) == out@ + le_bytes(
                rest as nat,
                (width - i) as nat,
            ),
        decreases width - i,
    {
        out.push((rest % 256) as u8);
        rest = rest / 256;
        i += 1;
    }
}

/// Reads the number written in the `width` bytes of `bytes` that start at
/// `at`, least significant first.
pub fn read_le(bytes: &[u8], at: usize, width: usize) -> (x: u64)
    requires
        width <= 8,
        at + width <= bytes@.len(),
    ensures
        x as nat == le_value(bytes@.subrange(at as int, at + width)),
{
    assert(bytes@.len() == bytes.len());
    let mut acc: u64 = 0;
    let mut i: usize = width;
    while i > 0
        invariant
            i <= width <= 8,
            at + width <= bytes@.len() <= usize::MAX,
            acc as nat == le_value(bytes@.subrange(at + i, at + width)),
        decreases i,
    {
        let ghost tail = bytes@.subrange(at + i, at + width);
        let ghost whole = bytes@.subrange(at + i - 1, at + width);
        proof {
            assert(whole.drop_first() =~= tail);
            lemma_le_value_bound(whole);
            lemma_radix_pow_monotone(whole.len(), 8);
            lemma_radix_pow_values();
        }
        i -= 1;
        acc = acc * 256 + bytes[at + i] as u64;
    }
    acc
}

/// The eight bytes of `x`, most significant first.
pub fn u64_to_be_bytes(x: u64) -> (out: Vec<u8>)
    ensures
        out@ == be_bytes(x as nat, 8),
        out@.len() == 8,
{
    let mut out: Vec<u8> = vec![0u8; 8];
    let mut rest: u64 = x;
    let mut i: usize = 8;
    while i > 0
        invariant
            i <= 8,
            out@.len() == 8,
            be_bytes(x as nat, 8) == be_bytes(rest as nat, i as nat) + out@.subrange(i as int, 8),
        decreases i,
    {
        i -= 1;
        out.set(i, (rest % 256) as u8);
        rest = rest / 256;
    }
    out
}

/// The number written in the eight bytes of `bytes`, most significant first.
pub fn u64_from_be_bytes(bytes: &[u8]) -> (x: u64)
    requires
        bytes@.len() == 8,
    ensures
        x as nat == be_value(bytes@),
{
    let mut acc: u64 = 0;
    let mut i: usize = 0;
    while i < 8
        invariant
            i <= 8,
            bytes@.len() == 8,
            acc as nat == be_value(bytes@.subrange(0, i as int)),
        decreases 8 - i,
    {
        let ghost head = bytes@.subrange(0, i as int);
        let ghost whole = bytes@.subrange(0, i + 1);
        proof {
            assert(whole.drop_last() =~= head);
            lemma_be_value_bound(whole);
            lemma_radix_pow_monotone(whole.len(), 8);
            lemma_radix_pow_values();
        }
        acc = acc * 256 + bytes[i] as u64;
        i += 1;
    }
    assert(bytes@.subrange(0, 8) =~= bytes@);
    acc
}

} // verus!
