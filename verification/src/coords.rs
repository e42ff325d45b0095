//! Integer coordinate mappings used when resampling between grids: proportional nearest
//! sampling, and edge handling (clamping or mirroring) for coordinates outside a grid.

use vstd::prelude::*;

verus! {

/// The coordinate of a grid of `src_len` cells nearest, proportionally, to cell `i` of a grid of
/// `out_len` cells: `min(i * src_len / out_len, src_len - 1)` (an `out_len` of 0 counts as 1).
pub fn proportional_index(i: u32, out_len: u32, src_len: u32) -> (j: u32)
    requires
        src_len >= 1,
    ensures
        j == ({
            let d = if out_len == 0 { 1int } else { out_len as int };
            let q = (i as int * src_len as int) / d;
            if q < src_len - 1 { q } else { src_len - 1 }
        }),
        j < src_len,
{
    let d: u64 = if out_len == 0 { 1 } else { out_len as u64 };
    proof {
        assert(i as u64 * src_len as u64 <= 0xffff_ffffu64 * 0xffff_ffffu64) by (nonlinear_arith)
            requires i <= 0xffff_ffffu64, src_len <= 0xffff_ffffu64;
    }
    let q = (i as u64 * src_len as u64) / d;
    if q < (src_len - 1) as u64 {
        q as u32
    } else {
        src_len - 1
    }
}

/// `i` clamped into `0..n`.
pub fn clamp_index(i: i64, n: u32) -> (j: u32)
    requires
        n >= 1,
    ensures
        j == if i < 0 { 0int } else if i >= n { n - 1 } else { i as int },
{
    if i < 0 {
        0
    } else if i >= n as i64 {
        n - 1
    } else {
        i as u32
    }
}

/// `i` reflected into `0..n` with the edge pixel repeated (`-1 → 0`, `n → n - 1`): the grid
/// continues as its mirror image on both sides, with period `2 n`.
pub open spec fn mirror_of(i: int, n: int) -> int {
    let m = i % (2 * n);
    if m < n { m } else { 2 * n - 1 - m }
}

/// `i` mirrored into `0..n` (see [`mirror_of`]).
pub fn mirror_index(i: i64, n: u32) -> (j: u32)
    requires
        n >= 1,
    ensures
        j == mirror_of(i as int, n as int),
        j < n,
{
    let p: u64 = 2 * (n as u64);
    let m: u64 = if i >= 0 {
        (i as u64) % p
    } else {
        let a: u64 = (-(i + 1)) as u64;
        proof {
            vstd::arithmetic::div_mod::lemma_fundamental_div_mod(a as int, p as int);
            let q = -(a as int / p as int) - 1;
            let r = p - 1 - (a as int % p as int);
            assert(i as int == q * p + r) by (nonlinear_arith)
                requires
                    a as int == p * (a as int / p as int) + (a as int % p as int),
                    a as int == -(i as int) - 1,
                    q == -(a as int / p as int) - 1,
                    r == p - 1 - (a as int % p as int);
            vstd::arithmetic::div_mod::lemma_fundamental_div_mod_converse(i as int, p as int, q, r);
        }
        p - 1 - (a % p)
    };
    assert(m == (i as int) % (p as int));
    if m < n as u64 {
        m as u32
    } else {
        (p - 1 - m) as u32
    }
}

} // verus!
