//! The value codec: one scalar to and from a fixed number of bytes.
//!
//! A value is persisted in `w` bytes (`1 <= w <= 8`), least-significant byte
//! first, keeping only the low `w` bytes of its eight-byte representation.

use vstd::prelude::*;
use vstd::arithmetic::div_mod::{lemma_div_denominator, lemma_mod_breakdown};

verus! {

/// 256 raised to the power `n`: the number of values that `n` bytes can hold.
pub open spec fn pow256(n: nat) -> nat
    decreases n,
{
    if n == 0 {
        1
    } else {
        256 * pow256((n - 1) as nat)
    }
}

/// Byte `i` (counting from the least significant) of the value `v`.
pub open spec fn byte_of(v: nat, i: nat) -> u8 {
    ((v / pow256(i)) % 256) as u8
}

/// The `w` low bytes of `v`, least-significant byte first: the stored form of `v`.
pub open spec fn le_bytes(v: nat, w: nat) -> Seq<u8> {
    Seq::new(w, |i: int| byte_of(v, i as nat))
}

/// The value that a stored byte sequence denotes (first byte least significant).
pub open spec fn le_value(s: Seq<u8>) -> nat
    decreases s.len(),
{
    if s.len() == 0 {
        0
    } else {
        (s[0] + 256 * le_value(s.drop_first())) as nat
    }
}

pub proof fn lemma_pow256_pos(n: nat)
    ensures
        pow256(n) >= 1,
    decreases n,
{
    if n > 0 {
        lemma_pow256_pos((n - 1) as nat);
    }
}

pub proof fn lemma_pow256_8()
    ensures
        pow256(8) == 0x1_0000_0000_0000_0000,
{
    reveal_with_fuel(pow256, 9);
}

pub proof fn lemma_pow256_mono(a: nat, b: nat)
    requires
        a <= b,
    ensures
        pow256(a) <= pow256(b),
    decreases b,
{
    if a < b {
        lemma_pow256_mono(a, (b - 1) as nat);
        lemma_pow256_pos((b - 1) as nat);
    }
}

/// `w` bytes can hold no value of `pow256(w)` or more.
pub proof fn lemma_le_value_bound(s: Seq<u8>)
    ensures
        le_value(s) < pow256(s.len()),
    decreases s.len(),
{
    if s.len() > 0 {
        lemma_le_value_bound(s.drop_first());
    }
}

/// Decoding the stored form of `v` yields `v` reduced to the low `w` bytes.
pub proof fn lemma_le_round_trip(v: nat, w: nat)
    ensures
        le_value(le_bytes(v, w)) == v % pow256(w),
    decreases w,
{
    if w == 0 {
        assert(pow256(0) == 1);
    } else {
        let w1 = (w - 1) as nat;
        lemma_le_round_trip(v / 256, w1);
        assert(le_bytes(v, w).drop_first() =~= le_bytes(v / 256, w1)) by {
            assert forall|i: int| 0 <= i < w1 implies le_bytes(v, w).drop_first()[i] == le_bytes(
                v / 256,
                w1,
            )[i] by {
                lemma_pow256_pos(i as nat);
                lemma_div_denominator(v as int, 256, pow256(i as nat) as int);
                assert(pow256((i + 1) as nat) == 256 * pow256(i as nat));
            }
        }
        lemma_pow256_pos(w1);
        lemma_mod_breakdown(v as int, 256, pow256(w1) as int);
        assert(pow256(w) == 256 * pow256(w1));
        assert(byte_of(v, 0) == v % 256) by {
            assert(pow256(0) == 1);
        }
    }
}

/// Appends the `w`-byte stored form of `v` to `out`.
pub fn le_encode_push(out: &mut Vec<u8>, v: u64, w: usize)
    requires
        w <= 8,
    ensures
        final(out)@ == old(out)@ + le_bytes(v as nat, w as nat),
{
    let mut cur: u64 = v;
    let mut k: usize = 0;
    proof {
        assert(pow256(0) == 1);
    }
    while k < w
        invariant
            k <= w,
            w <= 8,
            out@ == old(out)@ + le_bytes(v as nat, w as nat).take(k as int),
            cur as nat == (v as nat) / pow256(k as nat),
        decreases w - k,
    {
        proof {
            lemma_pow256_pos(k as nat);
            lemma_div_denominator(v as int, pow256(k as nat) as int, 256);
            assert(pow256((k + 1) as nat) == 256 * pow256(k as nat));
            assert(le_bytes(v as nat, w as nat).take(k + 1) =~= le_bytes(v as nat, w as nat).take(
                k as int,
            ).push(byte_of(v as nat, k as nat)));
        }
        out.push((cur % 256) as u8);
        cur = cur / 256;
        k = k + 1;
    }
    proof {
        assert(le_bytes(v as nat, w as nat).take(w as int) =~= le_bytes(v as nat, w as nat));
    }
}

/// Reads the value stored in the `w` bytes of `bytes` that start at `start`.
pub fn le_decode(bytes: &Vec<u8>, start: usize, w: usize) -> (v: u64)
    requires
        w <= 8,
        start + w <= bytes@.len(),
    ensures
        v as nat == le_value(bytes@.subrange(start as int, start as int + w as int)),
{
    let len = bytes.len();
    let mut v: u64 = 0;
    let mut k: usize = w;
    while k > 0
        invariant
            k <= w,
            w <= 8,
            start + w <= len,
            len == bytes@.len(),
            v as nat == le_value(bytes@.subrange(start + k, start as int + w as int)),
        decreases k,
    {
        k = k - 1;
        proof {
            let suffix = bytes@.subrange(start + k + 1, start as int + w as int);
            lemma_le_value_bound(suffix);
            lemma_pow256_mono(suffix.len() as nat, 7);
            lemma_pow256_8();
            assert(bytes@.subrange(start + k, start as int + w as int).drop_first() =~= suffix);
        }
        v = bytes[start + k] as u64 + 256 * v;
    }
    v
}

} // verus!
