use vstd::arithmetic::div_mod::{
    lemma_div_is_ordered, lemma_fundamental_div_mod, lemma_mod_bound,
};
use vstd::prelude::*;

verus! {

/// The value of the big-endian 16-bit integer stored at byte offset `i` of `s`.
pub open spec fn be16_at(s: Seq<u8>, i: int) -> int {
    s[i] * 0x100 + s[i + 1]
}

/// The value of the big-endian 32-bit integer stored at byte offset `i` of `s`.
pub open spec fn be32_at(s: Seq<u8>, i: int) -> int {
    s[i] * 0x1000000 + s[i + 1] * 0x10000 + s[i + 2] * 0x100 + s[i + 3]
}

/// The two bytes of `v` in big-endian order.
pub open spec fn u16_be_bytes(v: u16) -> Seq<u8> {
    let x: int = v as int;
    seq![(x / 0x100) as u8, (x % 0x100) as u8]
}

/// The four bytes of `v` in big-endian order.
pub open spec fn u32_be_bytes(v: u32) -> Seq<u8> {
    let x: int = v as int;
    let d0: int = x / 0x1000000;
    let r0: int = x % 0x1000000;
    let d1: int = r0 / 0x10000;
    let r1: int = r0 % 0x10000;
    let d2: int = r1 / 0x100;
    let d3: int = r1 % 0x100;
    seq![d0 as u8, d1 as u8, d2 as u8, d3 as u8]
}

/// Reading the two big-endian bytes of a 16-bit value back as an integer
/// gives the value itself.
pub proof fn lemma_u16_be_round_trip(v: u16)
    ensures
        u16_be_bytes(v).len() == 2,
        u16_be_bytes(v)[0] * 0x100 + u16_be_bytes(v)[1] == v as int,
{
    let x: int = v as int;
    lemma_fundamental_div_mod(x, 0x100);
    lemma_mod_bound(x, 0x100);
    lemma_div_is_ordered(x, 0xFFFF, 0x100);
}

/// Reading the four big-endian bytes of a 32-bit value back as an integer
/// gives the value itself.
pub proof fn lemma_u32_be_round_trip(v: u32)
    ensures
        u32_be_bytes(v).len() == 4,
        u32_be_bytes(v)[0] * 0x1000000 + u32_be_bytes(v)[1] * 0x10000 + u32_be_bytes(v)[2] * 0x100
            + u32_be_bytes(v)[3] == v as int,
{
    let x: int = v as int;
    let d0: int = x / 0x1000000;
    let r0: int = x % 0x1000000;
    let d1: int = r0 / 0x10000;
    let r1: int = r0 % 0x10000;
    lemma_fundamental_div_mod(x, 0x1000000);
    lemma_mod_bound(x, 0x1000000);
    lemma_div_is_ordered(x, 0xFFFFFFFF, 0x1000000);
    lemma_fundamental_div_mod(r0, 0x10000);
    lemma_mod_bound(r0, 0x10000);
    lemma_div_is_ordered(r0, 0xFFFFFF, 0x10000);
    lemma_fundamental_div_mod(r1, 0x100);
    lemma_mod_bound(r1, 0x100);
    lemma_div_is_ordered(r1, 0xFFFF, 0x100);
}

/// Appends the two big-endian bytes of `v` to `out`.
pub fn push_u16_be(out: &mut Vec<u8>, v: u16)
    ensures
        final(out)@ == old(out)@ + u16_be_bytes(v),
{
    out.push((v / 0x100) as u8);
    out.push((v % 0x100) as u8);
    proof {
        assert(out@ =~= old(out)@ + u16_be_bytes(v));
    }
}

/// Appends the four big-endian bytes of `v` to `out`.
pub fn push_u32_be(out: &mut Vec<u8>, v: u32)
    ensures
        final(out)@ == old(out)@ + u32_be_bytes(v),
{
    let r0: u32 = v % 0x1000000;
    let r1: u32 = r0 % 0x10000;
    out.push((v / 0x1000000) as u8);
    out.push((r0 / 0x10000) as u8);
    out.push((r1 / 0x100) as u8);
    out.push((r1 % 0x100) as u8);
    proof {
        assert(out@ =~= old(out)@ + u32_be_bytes(v));
    }
}

} // verus!
