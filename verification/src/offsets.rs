//! Variable-width big-endian offset codec.
//!
//! CFF INDEX structures store their offset arrays with a per-table byte width
//! (`off_size`, 1 to 4 bytes per offset). This module reads and writes single
//! offsets at a given width and computes the minimal sufficient width for a
//! maximal offset.

use vstd::prelude::*;
use vstd::slice::slice_index_get;
use vstd::arithmetic::div_mod::{lemma_fundamental_div_mod, lemma_multiply_divide_lt};

use crate::error::CffError;

verus! {

/// 256 raised to the power `w`: the number of values representable in `w`
/// bytes.
pub open spec fn pow256(w: nat) -> int
    decreases w,
{
    if w == 0 {
        1
    } else {
        256 * pow256((w - 1) as nat)
    }
}

/// The `w` low-order base-256 digits of `v`, most significant first.
pub open spec fn be_bytes(v: int, w: nat) -> Seq<u8>
    decreases w,
{
    if w == 0 {
        Seq::empty()
    } else {
        be_bytes(v / 256, (w - 1) as nat).push((v % 256) as u8)
    }
}

/// The unsigned value of a big-endian byte sequence.
pub open spec fn be_value(s: Seq<u8>) -> int
    decreases s.len(),
{
    if s.len() == 0 {
        0
    } else {
        be_value(s.drop_last()) * 256 + s.last()
    }
}

pub proof fn lemma_pow256_pos(w: nat)
    ensures
        pow256(w) >= 1,
    decreases w,
{
    if w > 0 {
        lemma_pow256_pos((w - 1) as nat);
    }
}

pub proof fn lemma_pow256_increases(w1: nat, w2: nat)
    requires
        w1 <= w2,
    ensures
        pow256(w1) <= pow256(w2),
    decreases w2,
{
    if w1 < w2 {
        lemma_pow256_increases(w1, (w2 - 1) as nat);
        lemma_pow256_pos((w2 - 1) as nat);
    }
}

pub proof fn lemma_be_bytes_len(v: int, w: nat)
    ensures
        be_bytes(v, w).len() == w,
    decreases w,
{
    if w > 0 {
        lemma_be_bytes_len(v / 256, (w - 1) as nat);
    }
}

pub proof fn lemma_be_value_bounds(s: Seq<u8>)
    ensures
        0 <= be_value(s) < pow256(s.len()),
    decreases s.len(),
{
    if s.len() > 0 {
        lemma_be_value_bounds(s.drop_last());
        let p = pow256((s.len() - 1) as nat);
        assert(be_value(s.drop_last()) * 256 + 255 < 256 * p) by (nonlinear_arith)
            requires
                0 <= be_value(s.drop_last()) < p,
        ;
    }
}

/// Writing `w` bytes and reading them back recovers any value that fits in
/// `w` bytes.
pub proof fn lemma_be_roundtrip(v: int, w: nat)
    requires
        0 <= v < pow256(w),
    ensures
        be_value(be_bytes(v, w)) == v,
    decreases w,
{
    if w > 0 {
        let rest = be_bytes(v / 256, (w - 1) as nat);
        lemma_be_bytes_len(v / 256, (w - 1) as nat);
        assert(rest.push((v % 256) as u8).drop_last() =~= rest);
        lemma_multiply_divide_lt(v, 256, pow256((w - 1) as nat));
        lemma_be_roundtrip(v / 256, (w - 1) as nat);
        lemma_fundamental_div_mod(v, 256);
    }
}

/// Unfolds `be_value` over a prefix one byte at a time.
pub proof fn lemma_be_value_step(s: Seq<u8>, k: int)
    requires
        1 <= k <= s.len(),
    ensures
        be_value(s.take(k)) == be_value(s.take(k - 1)) * 256 + s[k - 1],
{
    assert(s.take(k).drop_last() =~= s.take(k - 1));
    assert(s.take(k).last() == s[k - 1]);
}

/// The concrete values of `pow256` at the four valid offset widths.
pub proof fn lemma_pow256_values()
    ensures
        pow256(0) == 1,
        pow256(1) == 256,
        pow256(2) == 65536,
        pow256(3) == 16777216,
        pow256(4) == 4294967296,
{
    assert(pow256(0) == 1);
    assert(pow256(1) == 256);
    assert(pow256(2) == 65536);
    assert(pow256(3) == 16777216);
    assert(pow256(4) == 4294967296);
}

/// The explicit byte sequences that `be_bytes` produces at widths 1..=4.
pub proof fn lemma_be_bytes_explicit(v: int)
    ensures
        be_bytes(v, 1) =~= seq![(v % 256) as u8],
        be_bytes(v, 2) =~= seq![(v / 256 % 256) as u8, (v % 256) as u8],
        be_bytes(v, 3) =~= seq![
            (v / 256 / 256 % 256) as u8,
            (v / 256 % 256) as u8,
            (v % 256) as u8,
        ],
        be_bytes(v, 4) =~= seq![
            (v / 256 / 256 / 256 % 256) as u8,
            (v / 256 / 256 % 256) as u8,
            (v / 256 % 256) as u8,
            (v % 256) as u8,
        ],
{
    let q1 = v / 256;
    let q2 = q1 / 256;
    let q3 = q2 / 256;
    assert(be_bytes(q3, 1) =~= be_bytes(q3 / 256, 0).push((q3 % 256) as u8));
    assert(be_bytes(q3 / 256, 0) =~= Seq::<u8>::empty());
    assert(be_bytes(q2, 2) =~= be_bytes(q3, 1).push((q2 % 256) as u8));
    assert(be_bytes(q2, 1) =~= be_bytes(q2 / 256, 0).push((q2 % 256) as u8));
    assert(be_bytes(q2 / 256, 0) =~= Seq::<u8>::empty());
    assert(be_bytes(q1, 3) =~= be_bytes(q2, 2).push((q1 % 256) as u8));
    assert(be_bytes(q1, 2) =~= be_bytes(q2, 1).push((q1 % 256) as u8));
    assert(be_bytes(q1, 1) =~= be_bytes(q1 / 256, 0).push((q1 % 256) as u8));
    assert(be_bytes(q1 / 256, 0) =~= Seq::<u8>::empty());
    assert(be_bytes(v, 4) =~= be_bytes(q1, 3).push((v % 256) as u8));
    assert(be_bytes(v, 3) =~= be_bytes(q1, 2).push((v % 256) as u8));
    assert(be_bytes(v, 2) =~= be_bytes(q1, 1).push((v % 256) as u8));
    assert(be_bytes(v, 1) =~= be_bytes(q1, 0).push((v % 256) as u8));
    assert(be_bytes(q1, 0) =~= Seq::<u8>::empty());
}

/// The smallest width in 1..=4 whose range covers `max_offset`.
pub open spec fn spec_min_off_size(max_offset: u32) -> u8 {
    if max_offset < 256 {
        1u8
    } else if max_offset < 65536 {
        2u8
    } else if max_offset < 16777216 {
        3u8
    } else {
        4u8
    }
}

/// Chooses the minimal offset width able to represent `max_offset`: any
/// strictly smaller width in 1..=4 cannot represent it.
pub fn min_off_size(max_offset: u32) -> (w: u8)
    ensures
        w == spec_min_off_size(max_offset),
        1 <= w <= 4,
        (max_offset as int) < pow256(w as nat),
        forall|w2: u8| 1 <= w2 < w ==> (max_offset as int) >= pow256(w2 as nat),
{
    proof {
        lemma_pow256_values();
    }
    if max_offset < 256 {
        1
    } else if max_offset < 65536 {
        2
    } else if max_offset < 16777216 {
        3
    } else {
        4
    }
}

/// Reads one big-endian offset of width `off_size` from the front of `bytes`.
/// Widths outside 1..=4 are rejected with `InvalidOffsetSize`.
pub fn read_offset(bytes: &[u8], off_size: u8) -> (r: Result<u32, CffError>)
    requires
        1 <= off_size <= 4 ==> off_size as int <= bytes@.len(),
    ensures
        1 <= off_size <= 4 ==> r == Ok::<u32, CffError>(be_value(bytes@.take(off_size as int)) as u32),
        !(1 <= off_size <= 4) ==> r == Err::<u32, CffError>(CffError::InvalidOffsetSize),
{
    proof {
        if 1 <= off_size <= 4 {
            lemma_be_value_bounds(bytes@.take(off_size as int));
            lemma_pow256_increases(off_size as nat, 4);
            assert(bytes@.take(0) =~= Seq::<u8>::empty());
            let k = off_size as int;
            if k >= 1 {
                lemma_be_value_step(bytes@, 1);
            }
            if k >= 2 {
                lemma_be_value_step(bytes@, 2);
            }
            if k >= 3 {
                lemma_be_value_step(bytes@, 3);
            }
            if k >= 4 {
                lemma_be_value_step(bytes@, 4);
            }
        }
    }
    if off_size == 1 {
        Ok(*slice_index_get(bytes, 0) as u32)
    } else if off_size == 2 {
        let b0 = *slice_index_get(bytes, 0) as u32;
        let b1 = *slice_index_get(bytes, 1) as u32;
        Ok(b0 * 256 + b1)
    } else if off_size == 3 {
        let b0 = *slice_index_get(bytes, 0) as u32;
        let b1 = *slice_index_get(bytes, 1) as u32;
        let b2 = *slice_index_get(bytes, 2) as u32;
        Ok((b0 * 256 + b1) * 256 + b2)
    } else if off_size == 4 {
        let b0 = *slice_index_get(bytes, 0) as u32;
        let b1 = *slice_index_get(bytes, 1) as u32;
        let b2 = *slice_index_get(bytes, 2) as u32;
        let b3 = *slice_index_get(bytes, 3) as u32;
        Ok(((b0 * 256 + b1) * 256 + b2) * 256 + b3)
    } else {
        Err(CffError::InvalidOffsetSize)
    }
}

/// Writes `value` as `off_size` big-endian bytes. A value too large for the
/// width is silently truncated to its low-order bytes, exactly as `be_bytes`
/// specifies; callers choose the width with `min_off_size` to avoid that.
pub fn write_offset(value: u32, off_size: u8) -> (r: Result<Vec<u8>, CffError>)
    ensures
        1 <= off_size <= 4 ==> (r matches Ok(v) && v@ == be_bytes(value as int, off_size as nat)),
        !(1 <= off_size <= 4) ==> r == Err::<Vec<u8>, CffError>(CffError::InvalidOffsetSize),
{
    proof {
        lemma_be_bytes_explicit(value as int);
    }
    let q1 = value / 256;
    let q2 = q1 / 256;
    let q3 = q2 / 256;
    if off_size == 1 {
        let out: Vec<u8> = vec![(value % 256) as u8];
        proof {
            assert(out@ =~= be_bytes(value as int, 1));
        }
        Ok(out)
    } else if off_size == 2 {
        let out: Vec<u8> = vec![(q1 % 256) as u8, (value % 256) as u8];
        proof {
            assert(out@ =~= be_bytes(value as int, 2));
        }
        Ok(out)
    } else if off_size == 3 {
        let out: Vec<u8> = vec![(q2 % 256) as u8, (q1 % 256) as u8, (value % 256) as u8];
        proof {
            assert(out@ =~= be_bytes(value as int, 3));
        }
        Ok(out)
    } else if off_size == 4 {
        let out: Vec<u8> = vec![
            (q3 % 256) as u8,
            (q2 % 256) as u8,
            (q1 % 256) as u8,
            (value % 256) as u8,
        ];
        proof {
            assert(out@ =~= be_bytes(value as int, 4));
        }
        Ok(out)
    } else {
        Err(CffError::InvalidOffsetSize)
    }
}

/// Re-encoding the value of a byte sequence at its own width reproduces the
/// bytes exactly.
pub proof fn lemma_be_bytes_of_value(s: Seq<u8>)
    ensures
        be_bytes(be_value(s), s.len()) =~= s,
    decreases s.len(),
{
    if s.len() > 0 {
        lemma_be_bytes_of_value(s.drop_last());
        lemma_be_value_bounds(s.drop_last());
        let v = be_value(s);
        assert(v == be_value(s.drop_last()) * 256 + s.last());
        assert(v / 256 == be_value(s.drop_last()) && v % 256 == s.last()) by (nonlinear_arith)
            requires
                v == be_value(s.drop_last()) * 256 + s.last(),
                0 <= s.last() < 256,
                0 <= be_value(s.drop_last()),
        ;
        assert(be_bytes(v, s.len()) == be_bytes(v / 256, (s.len() - 1) as nat).push(
            (v % 256) as u8,
        ));
        assert(be_bytes(v / 256, (s.len() - 1) as nat) == be_bytes(
            be_value(s.drop_last()),
            s.drop_last().len(),
        ));
        assert(s.drop_last().push(s.last()) =~= s);
    }
}

} // verus!
