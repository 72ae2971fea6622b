//! Big-endian encoding of fixed-width integers.

use vstd::prelude::*;

verus! {

/// The bytes of `x`, most significant first, `n` of them: the value of `x`
/// modulo `256^n` written in base 256.
pub open spec fn be_digits(x: nat, n: nat) -> Seq<u8>
    decreases n,
{
    if n == 0 {
        Seq::empty()
    } else {
        be_digits(x / 256, (n - 1) as nat).push((x % 256) as u8)
    }
}

/// The number that `s` denotes when read as base-256 digits, most
/// significant first.
pub open spec fn be_value(s: Seq<u8>) -> nat
    decreases s.len(),
{
    if s.len() == 0 {
        0
    } else {
        be_value(s.drop_last()) * 256 + s.last() as nat
    }
}

/// The four bytes of `x`, most significant first.
pub open spec fn be_u32(x: u32) -> Seq<u8> {
    be_digits(x as nat, 4)
}

/// The eight bytes of `x`, most significant first.
pub open spec fn be_u64(x: u64) -> Seq<u8> {
    be_digits(x as nat, 8)
}

/// `256` to the power `n`.
pub open spec fn pow256(n: nat) -> nat
    decreases n,
{
    if n == 0 {
        1
    } else {
        256 * pow256((n - 1) as nat)
    }
}

/// `n` digits are `n` bytes.
pub proof fn lemma_be_digits_len(x: nat, n: nat)
    ensures
        be_digits(x, n).len() == n,
    decreases n,
{
    if n > 0 {
        lemma_be_digits_len(x / 256, (n - 1) as nat);
    }
}

/// A sequence of `n` digits denotes a number below `256^n`.
pub proof fn lemma_be_value_bound(s: Seq<u8>)
    ensures
        be_value(s) < pow256(s.len()),
    decreases s.len(),
{
    if s.len() > 0 {
        lemma_be_value_bound(s.drop_last());
    }
}

/// Reading back the `n` digits of a number below `256^n` gives the number.
pub proof fn lemma_be_value_of_digits(x: nat, n: nat)
    requires
        x < pow256(n),
    ensures
        be_value(be_digits(x, n)) == x,
    decreases n,
{
    if n > 0 {
        let rest = be_digits(x / 256, (n - 1) as nat);
        lemma_be_value_of_digits(x / 256, (n - 1) as nat);
        assert(be_digits(x, n).drop_last() =~= rest);
    }
}

/// Writing the number that `s` denotes in `s.len()` digits gives `s` back.
pub proof fn lemma_be_digits_of_value(s: Seq<u8>)
    ensures
        be_digits(be_value(s), s.len()) == s,
    decreases s.len(),
{
    if s.len() > 0 {
        lemma_be_digits_of_value(s.drop_last());
        let v = be_value(s.drop_last());
        assert((v * 256 + s.last() as nat) / 256 == v);
        assert((v * 256 + s.last() as nat) % 256 == s.last() as nat);
        assert(be_digits(be_value(s), s.len()) =~= s);
    }
}

/// The powers of 256 that bound the fixed-width integers.
pub proof fn lemma_pow256_values()
    ensures
        pow256(4) == 0x1_0000_0000,
        pow256(8) == 0x1_0000_0000_0000_0000,
{
    reveal_with_fuel(pow256, 9);
}

/// The integer whose big-endian bytes are `s`, for `s` of four bytes.
pub open spec fn from_be_u32(s: Seq<u8>) -> u32
    recommends
        s.len() == 4,
{
    be_value(s) as u32
}

/// The integer whose big-endian bytes are `s`, for `s` of eight bytes.
pub open spec fn from_be_u64(s: Seq<u8>) -> u64
    recommends
        s.len() == 8,
{
    be_value(s) as u64
}

/// Decoding undoes encoding.
pub proof fn lemma_be_u32_round_trip(x: u32)
    ensures
        be_u32(x).len() == 4,
        from_be_u32(be_u32(x)) == x,
{
    lemma_pow256_values();
    lemma_be_digits_len(x as nat, 4);
    lemma_be_value_of_digits(x as nat, 4);
}

/// Decoding undoes encoding.
pub proof fn lemma_be_u64_round_trip(x: u64)
    ensures
        be_u64(x).len() == 8,
        from_be_u64(be_u64(x)) == x,
{
    lemma_pow256_values();
    lemma_be_digits_len(x as nat, 8);
    lemma_be_value_of_digits(x as nat, 8);
}

/// Encoding undoes decoding on exactly four bytes.
pub proof fn lemma_from_be_u32_round_trip(s: Seq<u8>)
    requires
        s.len() == 4,
    ensures
        be_u32(from_be_u32(s)) == s,
{
    lemma_pow256_values();
    lemma_be_value_bound(s);
    lemma_be_digits_of_value(s);
}

/// Encoding undoes decoding on exactly eight bytes.
pub proof fn lemma_from_be_u64_round_trip(s: Seq<u8>)
    requires
        s.len() == 8,
    ensures
        be_u64(from_be_u64(s)) == s,
{
    lemma_pow256_values();
    lemma_be_value_bound(s);
    lemma_be_digits_of_value(s);
}

/// Appends the big-endian bytes of `x` to `out`.
pub fn put_u32(out: &mut Vec<u8>, x: u32)
    ensures
        final(out)@ == old(out)@ + be_u32(x),
{
    let d3: u32 = x;
    let d2: u32 = d3 / 256;
    let d1: u32 = d2 / 256;
    let d0: u32 = d1 / 256;
    out.push((d0 % 256) as u8);
    out.push((d1 % 256) as u8);
    out.push((d2 % 256) as u8);
    out.push((d3 % 256) as u8);
    proof {
        reveal_with_fuel(be_digits, 5);
        assert(out@ =~= old(out)@ + be_u32(x));
    }
}

/// Appends the big-endian bytes of `x` to `out`.
pub fn put_u64(out: &mut Vec<u8>, x: u64)
    ensures
        final(out)@ == old(out)@ + be_u64(x),
{
    let d7: u64 = x;
    let d6: u64 = d7 / 256;
    let d5: u64 = d6 / 256;
    let d4: u64 = d5 / 256;
    let d3: u64 = d4 / 256;
    let d2: u64 = d3 / 256;
    let d1: u64 = d2 / 256;
    let d0: u64 = d1 / 256;
    out.push((d0 % 256) as u8);
    out.push((d1 % 256) as u8);
    out.push((d2 % 256) as u8);
    out.push((d3 % 256) as u8);
    out.push((d4 % 256) as u8);
    out.push((d5 % 256) as u8);
    out.push((d6 % 256) as u8);
    out.push((d7 % 256) as u8);
    proof {
        reveal_with_fuel(be_digits, 9);
        assert(out@ =~= old(out)@ + be_u64(x));
    }
}

/// Reads the big-endian `u32` stored in `bytes` at `pos`.
pub fn get_u32(bytes: &[u8], pos: usize) -> (x: u32)
    requires
        pos + 4 <= bytes.len(),
    ensures
        x == from_be_u32(bytes@.subrange(pos as int, pos + 4)),
{
    let ghost s = bytes@.subrange(pos as int, pos + 4);
    let mut x: u32 = 0;
    let mut i: usize = 0;
    while i < 4
        invariant
            i <= 4,
            pos + 4 <= bytes.len(),
            s == bytes@.subrange(pos as int, pos + 4),
            x == be_value(s.take(i as int)),
        decreases 4 - i,
    {
        proof {
            lemma_pow256_values();
            reveal_with_fuel(pow256, 5);
            lemma_be_value_bound(s.take(i as int));
            assert(s.take(i + 1).drop_last() =~= s.take(i as int));
            assert(pow256(i as nat) * 256 <= pow256(4)) by {
                reveal_with_fuel(pow256, 5);
            }
        }
        x = x * 256 + bytes[pos + i] as u32;
        i = i + 1;
    }
    assert(s.take(4) =~= s);
    x
}

/// Reads the big-endian `u64` stored in `bytes` at `pos`.
pub fn get_u64(bytes: &[u8], pos: usize) -> (x: u64)
    requires
        pos + 8 <= bytes.len(),
    ensures
        x == from_be_u64(bytes@.subrange(pos as int, pos + 8)),
{
    let ghost s = bytes@.subrange(pos as int, pos + 8);
    let mut x: u64 = 0;
    let mut i: usize = 0;
    while i < 8
        invariant
            i <= 8,
            pos + 8 <= bytes.len(),
            s == bytes@.subrange(pos as int, pos + 8),
            x == be_value(s.take(i as int)),
        decreases 8 - i,
    {
        proof {
            lemma_pow256_values();
            lemma_be_value_bound(s.take(i as int));
            assert(s.take(i + 1).drop_last() =~= s.take(i as int));
            assert(pow256(i as nat) * 256 <= pow256(8)) by {
                reveal_with_fuel(pow256, 9);
            }
        }
        x = x * 256 + bytes[pos + i] as u64;
        i = i + 1;
    }
    assert(s.take(8) =~= s);
    x
}

} // verus!
