//! Little-endian integer fields of binary formats.
use vstd::prelude::*;
use vstd::arithmetic::div_mod::{
    lemma_basic_div,
    lemma_div_denominator,
    lemma_fundamental_div_mod,
    lemma_multiply_divide_lt,
};

verus! {

/// `n` as four little-endian bytes.
pub open spec fn le_u32(n: nat) -> Seq<u8> {
    seq![(n % 256) as u8, ((n / 256) % 256) as u8, ((n / 65536) % 256) as u8, ((n / 16777216) % 256) as u8]
}

/// `n` as two little-endian bytes.
pub open spec fn le_u16(n: nat) -> Seq<u8> {
    seq![(n % 256) as u8, ((n / 256) % 256) as u8]
}

/// The value of the four little-endian bytes of `b` from `at`.
pub open spec fn u32_at(b: Seq<u8>, at: int) -> nat {
    (b[at] + 256 * b[at + 1] + 65536 * b[at + 2] + 16777216 * b[at + 3]) as nat
}

/// Four little-endian bytes read back give the number written.
pub proof fn lemma_le_u32_value(n: nat)
    requires
        n <= u32::MAX,
    ensures
        u32_at(le_u32(n), 0) == n,
        le_u32(n)[0] + 256 * le_u32(n)[1] + 65536 * le_u32(n)[2] + 16777216 * le_u32(n)[3] == n,
{
    let n = n as int;
    lemma_fundamental_div_mod(n, 256);
    lemma_fundamental_div_mod(n / 256, 256);
    lemma_fundamental_div_mod(n / 65536, 256);
    lemma_div_denominator(n, 256, 256);
    lemma_div_denominator(n, 65536, 256);
    assert(n / 16777216 < 256) by {
        lemma_multiply_divide_lt(n, 16777216, 256);
    }
    lemma_basic_div(n / 16777216, 256);
}

pub fn read_le_u32(b: &[u8], at: usize) -> (r: u32)
    requires
        at + 4 <= b@.len(),
    ensures
        r == u32_at(b@, at as int),
{
    b[at] as u32 + 256 * (b[at + 1] as u32) + 65536 * (b[at + 2] as u32) + 16777216 * (
    b[at + 3] as u32)
}

pub fn push_le_u32(out: &mut Vec<u8>, n: u32)
    ensures
        final(out)@ == old(out)@ + le_u32(n as nat),
{
    out.push((n % 256) as u8);
    out.push(((n / 256) % 256) as u8);
    out.push(((n / 65536) % 256) as u8);
    out.push(((n / 16777216) % 256) as u8);
    assert(final(out)@ =~= old(out)@ + le_u32(n as nat));
}

pub fn push_le_u16(out: &mut Vec<u8>, n: u16)
    ensures
        final(out)@ == old(out)@ + le_u16(n as nat),
{
    out.push((n % 256) as u8);
    out.push(((n / 256) % 256) as u8);
    assert(final(out)@ =~= old(out)@ + le_u16(n as nat));
}

} // verus!
