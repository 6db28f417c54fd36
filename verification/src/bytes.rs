//! Little-endian byte encoding of fixed-width integers, with the lemmas the
//! record codec is proved against.

use vstd::prelude::*;
use vstd::arithmetic::div_mod::lemma_fundamental_div_mod;

verus! {

/// 256 to the power `n`: the number of values `n` bytes can hold.
pub open spec fn pow256(n: nat) -> nat
    decreases n,
{
    if n == 0 {
        1
    } else {
        256 * pow256((n - 1) as nat)
    }
}

/// The `n` little-endian bytes of `v`.
pub open spec fn le_bytes(v: nat, n: nat) -> Seq<u8>
    decreases n,
{
    if n == 0 {
        Seq::empty()
    } else {
        seq![(v % 256) as u8] + le_bytes(v / 256, (n - 1) as nat)
    }
}

/// The value a little-endian byte string denotes.
pub open spec fn le_value(s: Seq<u8>) -> nat
    decreases s.len(),
{
    if s.len() == 0 {
        0
    } else {
        s[0] as nat + 256 * le_value(s.drop_first())
    }
}

/// The 4 little-endian bytes of a `u32`.
pub open spec fn u32_le(v: u32) -> Seq<u8> {
    le_bytes(v as nat, 4)
}

/// The 8 little-endian bytes of a `u64`.
pub open spec fn u64_le(v: u64) -> Seq<u8> {
    le_bytes(v as nat, 8)
}

pub proof fn lemma_le_bytes_len(v: nat, n: nat)
    ensures
        le_bytes(v, n).len() == n,
    decreases n,
{
    if n > 0 {
        lemma_le_bytes_len(v / 256, (n - 1) as nat);
    }
}

pub proof fn lemma_le_value_bound(s: Seq<u8>)
    ensures
        le_value(s) < pow256(s.len()),
    decreases s.len(),
{
    if s.len() > 0 {
        lemma_le_value_bound(s.drop_first());
        assert(s[0] < 256);
        assert(le_value(s) == s[0] as nat + 256 * le_value(s.drop_first()));
        assert(256 * le_value(s.drop_first()) <= 256 * (pow256(s.drop_first().len()) - 1))
            by (nonlinear_arith)
            requires
                le_value(s.drop_first()) <= pow256(s.drop_first().len()) - 1,
        ;
    }
}

/// Decoding the little-endian bytes of `v` gives `v` back.
pub proof fn lemma_le_round_trip(v: nat, n: nat)
    requires
        v < pow256(n),
    ensures
        le_value(le_bytes(v, n)) == v,
    decreases n,
{
    if n == 0 {
    } else {
        let rest = le_bytes(v / 256, (n - 1) as nat);
        lemma_le_bytes_len(v / 256, (n - 1) as nat);
        assert(le_bytes(v, n).drop_first() =~= rest);
        assert(v / 256 < pow256((n - 1) as nat)) by (nonlinear_arith)
            requires
                v < 256 * pow256((n - 1) as nat),
        ;
        lemma_le_round_trip(v / 256, (n - 1) as nat);
        lemma_fundamental_div_mod(v as int, 256);
    }
}

/// Appends the 4 little-endian bytes of `v`.
pub fn push_u32_le(out: &mut Vec<u8>, v: u32)
    ensures
        final(out)@ == old(out)@ + u32_le(v),
{
    let b0: u8 = (v % 256) as u8;
    let r1: u32 = v / 256;
    let b1: u8 = (r1 % 256) as u8;
    let r2: u32 = r1 / 256;
    let b2: u8 = (r2 % 256) as u8;
    let r3: u32 = r2 / 256;
    let b3: u8 = (r3 % 256) as u8;
    out.push(b0);
    out.push(b1);
    out.push(b2);
    out.push(b3);
    proof {
        reveal_with_fuel(le_bytes, 6);
        assert(r3 / 256 == 0);
        assert(le_bytes(r3 as nat, 1) =~= seq![b3]);
        assert(le_bytes(r2 as nat, 2) =~= seq![b2, b3]);
        assert(le_bytes(r1 as nat, 3) =~= seq![b1, b2, b3]);
        assert(u32_le(v) =~= seq![b0, b1, b2, b3]);
        assert(final(out)@ =~= old(out)@ + u32_le(v));
    }
}

/// Appends the 8 little-endian bytes of `v`.
pub fn push_u64_le(out: &mut Vec<u8>, v: u64)
    ensures
        final(out)@ == old(out)@ + u64_le(v),
{
    let b0: u8 = (v % 256) as u8;
    let r1: u64 = v / 256;
    let b1: u8 = (r1 % 256) as u8;
    let r2: u64 = r1 / 256;
    let b2: u8 = (r2 % 256) as u8;
    let r3: u64 = r2 / 256;
    let b3: u8 = (r3 % 256) as u8;
    let r4: u64 = r3 / 256;
    let b4: u8 = (r4 % 256) as u8;
    let r5: u64 = r4 / 256;
    let b5: u8 = (r5 % 256) as u8;
    let r6: u64 = r5 / 256;
    let b6: u8 = (r6 % 256) as u8;
    let r7: u64 = r6 / 256;
    let b7: u8 = (r7 % 256) as u8;
    out.push(b0);
    out.push(b1);
    out.push(b2);
    out.push(b3);
    out.push(b4);
    out.push(b5);
    out.push(b6);
    out.push(b7);
    proof {
        reveal_with_fuel(le_bytes, 10);
        assert(r7 / 256 == 0);
        assert(le_bytes(r7 as nat, 1) =~= seq![b7]);
        assert(le_bytes(r6 as nat, 2) =~= seq![b6, b7]);
        assert(le_bytes(r5 as nat, 3) =~= seq![b5, b6, b7]);
        assert(le_bytes(r4 as nat, 4) =~= seq![b4, b5, b6, b7]);
        assert(le_bytes(r3 as nat, 5) =~= seq![b3, b4, b5, b6, b7]);
        assert(le_bytes(r2 as nat, 6) =~= seq![b2, b3, b4, b5, b6, b7]);
        assert(le_bytes(r1 as nat, 7) =~= seq![b1, b2, b3, b4, b5, b6, b7]);
        assert(u64_le(v) =~= seq![b0, b1, b2, b3, b4, b5, b6, b7]);
        assert(final(out)@ =~= old(out)@ + u64_le(v));
    }
}

/// Reads the `u32` denoted by 4 little-endian bytes at `pos`.
pub fn read_u32_le(bytes: &[u8], pos: usize) -> (r: u32)
    requires
        pos + 4 <= bytes@.len(),
    ensures
        r as nat == le_value(bytes@.subrange(pos as int, pos + 4)),
{
    let s = bytes;
    let b0: u32 = s[pos] as u32;
    let b1: u32 = s[pos + 1] as u32;
    let b2: u32 = s[pos + 2] as u32;
    let b3: u32 = s[pos + 3] as u32;
    let r: u32 = b0 + b1 * 256 + b2 * 65536 + b3 * 16777216;
    proof {
        let w = bytes@.subrange(pos as int, pos + 4);
        let w1 = w.drop_first();
        let w2 = w1.drop_first();
        let w3 = w2.drop_first();
        reveal_with_fuel(le_value, 6);
        assert(w3.drop_first() =~= Seq::<u8>::empty());
        assert(le_value(w) == w[0] + 256 * (w1[0] + 256 * (w2[0] + 256 * (w3[0] as nat))));
    }
    r
}

/// Reads the `u64` denoted by 8 little-endian bytes at `pos`.
pub fn read_u64_le(bytes: &[u8], pos: usize) -> (r: u64)
    requires
        pos + 8 <= bytes@.len(),
    ensures
        r as nat == le_value(bytes@.subrange(pos as int, pos + 8)),
{
    let s = bytes;
    let b0: u64 = s[pos] as u64;
    let b1: u64 = s[pos + 1] as u64;
    let b2: u64 = s[pos + 2] as u64;
    let b3: u64 = s[pos + 3] as u64;
    let b4: u64 = s[pos + 4] as u64;
    let b5: u64 = s[pos + 5] as u64;
    let b6: u64 = s[pos + 6] as u64;
    let b7: u64 = s[pos + 7] as u64;
    let r: u64 = b0 + b1 * 0x100 + b2 * 0x1_0000 + b3 * 0x100_0000 + b4 * 0x1_0000_0000 + b5
        * 0x100_0000_0000 + b6 * 0x1_0000_0000_0000 + b7 * 0x100_0000_0000_0000;
    proof {
        let w = bytes@.subrange(pos as int, pos + 8);
        let w1 = w.drop_first();
        let w2 = w1.drop_first();
        let w3 = w2.drop_first();
        let w4 = w3.drop_first();
        let w5 = w4.drop_first();
        let w6 = w5.drop_first();
        let w7 = w6.drop_first();
        reveal_with_fuel(le_value, 10);
        assert(w7.drop_first() =~= Seq::<u8>::empty());
        assert(le_value(w) == w[0] + 256 * (w1[0] + 256 * (w2[0] + 256 * (w3[0] + 256 * (w4[0]
            + 256 * (w5[0] + 256 * (w6[0] + 256 * (w7[0] as nat))))))));
    }
    r
}

} // verus!
