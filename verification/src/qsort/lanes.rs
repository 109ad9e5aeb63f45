//! Lane-level formulation of a blocked hybrid sort.
//!
//! Short windows are sorted by a fixed bitonic network over blocks of 16
//! lanes — ten compare-exchange passes for one block, the same ten passes on
//! each of two blocks followed by a five-pass merge for two — with unused
//! high lanes padded by `i32::MAX`. Longer windows go through a two-ended
//! blockwise partition around a median-of-three pivot and recurse. Every
//! pass is written as a fixed sequence of compare-exchange steps whose lane
//! pairs mirror the permutation and merge-mask pairs of the network.

use crate::qsort::lemma_adjacent_implies_sorted;
use crate::qsort::lemma_submultiset_frame;
use crate::qsort::lemma_swap_in_window;
use crate::qsort::lemma_window_member;
use crate::qsort::lemma_swap_preserves_multiset;
use crate::qsort::sorted;
use crate::qsort::sorted_range;
use crate::qsort::swap;
use vstd::multiset::Multiset;
use vstd::prelude::*;

verus! {

/// The smaller of `a` and `b`.
pub open spec fn min2(a: i32, b: i32) -> i32 {
    if a <= b {
        a
    } else {
        b
    }
}

/// The larger of `a` and `b`.
pub open spec fn max2(a: i32, b: i32) -> i32 {
    if a <= b {
        b
    } else {
        a
    }
}

/// Each of the eight neighbouring pairs of lanes is ordered.
pub open spec fn pairs_sorted(s: Seq<i32>) -> bool {
    s[0] <= s[1] && s[2] <= s[3] && s[4] <= s[5] && s[6] <= s[7] && s[8] <= s[9] && s[10] <= s[11]
        && s[12] <= s[13] && s[14] <= s[15]
}

/// Each of the four aligned blocks of four lanes is in ascending order.
pub open spec fn quads_sorted(s: Seq<i32>) -> bool {
    s[0] <= s[1] <= s[2] <= s[3] && s[4] <= s[5] <= s[6] <= s[7] && s[8] <= s[9] <= s[10] <= s[11]
        && s[12] <= s[13] <= s[14] <= s[15]
}

/// Each of the two aligned blocks of eight lanes is in ascending order.
pub open spec fn eights_sorted(s: Seq<i32>) -> bool {
    s[0] <= s[1] <= s[2] <= s[3] <= s[4] <= s[5] <= s[6] <= s[7] && s[8] <= s[9] <= s[10] <= s[11]
        <= s[12] <= s[13] <= s[14] <= s[15]
}

/// Exchanging a position of `s1` with a position of `s2` leaves the combined
/// multiset of the two sequences unchanged.
proof fn lemma_cross_swap_multiset(s1: Seq<i32>, s2: Seq<i32>, a: int, b: int)
    requires
        0 <= a < s1.len(),
        0 <= b < s2.len(),
    ensures
        (s1.update(a, s2[b]) + s2.update(b, s1[a])).to_multiset() == (s1 + s2).to_multiset(),
{
    let c = s1 + s2;
    let l = s1.len() as int;
    lemma_swap_preserves_multiset(c, a, l + b);
    assert(c.update(a, c[l + b]).update(l + b, c[a]) =~= s1.update(a, s2[b]) + s2.update(
        b,
        s1[a],
    ));
}

/// One comparator of the network: orders the pair of lanes `a < b` so that
/// lane `a` holds the smaller value and lane `b` the larger.
fn cex(v: &mut [i32; 16], a: usize, b: usize)
    requires
        a < b < 16,
    ensures
        final(v)@.len() == 16,
        final(v)@[a as int] == min2(old(v)@[a as int], old(v)@[b as int]),
        final(v)@[b as int] == max2(old(v)@[a as int], old(v)@[b as int]),
        forall|t: int| 0 <= t < 16 && t != a && t != b ==> final(v)@[t] == old(v)@[t],
        final(v)@.to_multiset() == old(v)@.to_multiset(),
{
    let x = v[a];
    let y = v[b];
    proof {
        if y < x {
            lemma_swap_preserves_multiset(v@, a as int, b as int);
        } else {
            assert(v@.update(a as int, x).update(b as int, y) =~= v@);
        }
    }
    if y < x {
        v[a] = y;
        v[b] = x;
    }
}

/// One cross-block comparator: orders lane `a` of `v1` against lane `b` of
/// `v2`, the smaller value staying in `v1`.
fn cex2(v1: &mut [i32; 16], v2: &mut [i32; 16], a: usize, b: usize)
    requires
        a < 16,
        b < 16,
    ensures
        final(v1)@.len() == 16,
        final(v2)@.len() == 16,
        final(v1)@[a as int] == min2(old(v1)@[a as int], old(v2)@[b as int]),
        final(v2)@[b as int] == max2(old(v1)@[a as int], old(v2)@[b as int]),
        forall|t: int| 0 <= t < 16 && t != a ==> final(v1)@[t] == old(v1)@[t],
        forall|t: int| 0 <= t < 16 && t != b ==> final(v2)@[t] == old(v2)@[t],
        (final(v1)@ + final(v2)@).to_multiset() == (old(v1)@ + old(v2)@).to_multiset(),
{
    let x = v1[a];
    let y = v2[b];
    proof {
        if y < x {
            lemma_cross_swap_multiset(v1@, v2@, a as int, b as int);
        } else {
            assert(v1@.update(a as int, x) =~= v1@);
            assert(v2@.update(b as int, y) =~= v2@);
        }
    }
    if y < x {
        v1[a] = y;
        v2[b] = x;
    }
}

/// The first pass of the network: orders each pair of neighbouring lanes.
fn sort2_blocks(v: &mut [i32; 16])
    ensures
        final(v)@.len() == 16,
        pairs_sorted(final(v)@),
        final(v)@.to_multiset() == old(v)@.to_multiset(),
{
    cex(v, 0, 1);
    cex(v, 2, 3);
    cex(v, 4, 5);
    cex(v, 6, 7);
    cex(v, 8, 9);
    cex(v, 10, 11);
    cex(v, 12, 13);
    cex(v, 14, 15);
}

/// Passes two and three of the network: a reversal comparator inside each
/// block of four lanes, then a neighbour pass, merging sorted pairs into
/// sorted blocks of four.
fn merge4_blocks(v: &mut [i32; 16])
    requires
        old(v)@.len() == 16,
        pairs_sorted(old(v)@),
    ensures
        final(v)@.len() == 16,
        quads_sorted(final(v)@),
        final(v)@.to_multiset() == old(v)@.to_multiset(),
{
    cex(v, 0, 3);
    cex(v, 1, 2);
    cex(v, 4, 7);
    cex(v, 5, 6);
    cex(v, 8, 11);
    cex(v, 9, 10);
    cex(v, 12, 15);
    cex(v, 13, 14);
    cex(v, 0, 1);
    cex(v, 2, 3);
    cex(v, 4, 5);
    cex(v, 6, 7);
    cex(v, 8, 9);
    cex(v, 10, 11);
    cex(v, 12, 13);
    cex(v, 14, 15);
}

/// Passes four to six of the network: a reversal comparator inside each
/// block of eight lanes, then cleaners at distances two and one, merging
/// sorted blocks of four into sorted blocks of eight.
#[verifier::rlimit(100)]
fn merge8_blocks(v: &mut [i32; 16])
    requires
        old(v)@.len() == 16,
        quads_sorted(old(v)@),
    ensures
        final(v)@.len() == 16,
        eights_sorted(final(v)@),
        final(v)@.to_multiset() == old(v)@.to_multiset(),
{
    cex(v, 0, 7);
    cex(v, 1, 6);
    cex(v, 2, 5);
    cex(v, 3, 4);
    cex(v, 8, 15);
    cex(v, 9, 14);
    cex(v, 10, 13);
    cex(v, 11, 12);
    cex(v, 0, 2);
    cex(v, 1, 3);
    cex(v, 4, 6);
    cex(v, 5, 7);
    cex(v, 8, 10);
    cex(v, 9, 11);
    cex(v, 12, 14);
    cex(v, 13, 15);
    cex(v, 0, 1);
    cex(v, 2, 3);
    cex(v, 4, 5);
    cex(v, 6, 7);
    cex(v, 8, 9);
    cex(v, 10, 11);
    cex(v, 12, 13);
    cex(v, 14, 15);
}

/// Passes seven to ten of the network: a reversal comparator across the two
/// halves of the block, then cleaners at distances four, two and one,
/// merging two sorted halves into a fully sorted block.
#[verifier::rlimit(100)]
fn merge16_block(v: &mut [i32; 16])
    requires
        old(v)@.len() == 16,
        eights_sorted(old(v)@),
    ensures
        final(v)@.len() == 16,
        sorted(final(v)@),
        final(v)@.to_multiset() == old(v)@.to_multiset(),
{
    cex(v, 0, 15);
    cex(v, 1, 14);
    cex(v, 2, 13);
    cex(v, 3, 12);
    cex(v, 4, 11);
    cex(v, 5, 10);
    cex(v, 6, 9);
    cex(v, 7, 8);
    cex(v, 0, 4);
    cex(v, 1, 5);
    cex(v, 2, 6);
    cex(v, 3, 7);
    cex(v, 8, 12);
    cex(v, 9, 13);
    cex(v, 10, 14);
    cex(v, 11, 15);
    cex(v, 0, 2);
    cex(v, 1, 3);
    cex(v, 4, 6);
    cex(v, 5, 7);
    cex(v, 8, 10);
    cex(v, 9, 11);
    cex(v, 12, 14);
    cex(v, 13, 15);
    cex(v, 0, 1);
    cex(v, 2, 3);
    cex(v, 4, 5);
    cex(v, 6, 7);
    cex(v, 8, 9);
    cex(v, 10, 11);
    cex(v, 12, 13);
    cex(v, 14, 15);
    proof {
        assert(v@[0] <= v@[1] <= v@[2] <= v@[3] <= v@[4] <= v@[5] <= v@[6] <= v@[7] <= v@[8]
            <= v@[9] <= v@[10] <= v@[11] <= v@[12] <= v@[13] <= v@[14] <= v@[15]);
        lemma_adjacent_implies_sorted(v@);
    }
}

/// The ten-pass bitonic network over one block of 16 lanes: sorts the block
/// into ascending order, keeping its multiset of values.
fn bitonic16(v: &mut [i32; 16])
    ensures
        final(v)@.len() == 16,
        sorted(final(v)@),
        final(v)@.to_multiset() == old(v)@.to_multiset(),
{
    sort2_blocks(v);
    merge4_blocks(v);
    merge8_blocks(v);
    merge16_block(v);
}

/// Reverses the sixteen lanes of the block.
fn reverse16(v: &mut [i32; 16])
    ensures
        final(v)@.len() == 16,
        forall|t: int| 0 <= t < 16 ==> final(v)@[t] == old(v)@[15 - t],
        final(v)@.to_multiset() == old(v)@.to_multiset(),
{
    let mut t: usize = 0;
    while t < 8
        invariant
            t <= 8,
            v@.len() == 16,
            forall|u: int| 0 <= u < t || 16 - t <= u < 16 ==> v@[u] == old(v)@[15 - u],
            forall|u: int| t <= u < 16 - t ==> v@[u] == old(v)@[u],
            v@.to_multiset() == old(v)@.to_multiset(),
        decreases 8 - t,
    {
        proof {
            lemma_swap_preserves_multiset(v@, t as int, 15 - t);
        }
        let x = v[t];
        let y = v[15 - t];
        v[t] = y;
        v[15 - t] = x;
        t += 1;
    }
}



/// The lanewise effect of one cleaner pass at distance `d` inside aligned
/// blocks of `2d` lanes: the lower lane of each comparator keeps the smaller
/// value, the upper lane the larger.
pub open spec fn clean_pass(s: Seq<i32>, d: int) -> Seq<i32> {
    Seq::new(s.len(), |t: int| if t % (2 * d) < d {
            min2(s[t], s[t + d])
        } else {
            max2(s[t - d], s[t])
        })
}

/// The four cleaner passes of the merge, at distances eight, four, two and
/// one.
#[verifier::opaque]
pub open spec fn cleaned(s: Seq<i32>) -> Seq<i32> {
    clean_pass(clean_pass(clean_pass(clean_pass(s, 8), 4), 2), 1)
}

/// The block the cross-comparator stage of the merge leaves in the first
/// position: lane for lane the smaller of the reversed first input and the
/// second input.
pub open spec fn wedge_of(x: Seq<i32>, y: Seq<i32>) -> Seq<i32> {
    Seq::new(16, |t: int| min2(x[15 - t], y[t]))
}

/// The block the cross-comparator stage leaves in the second position: lane
/// for lane the larger of the reversed first input and the second input.
pub open spec fn valley_of(x: Seq<i32>, y: Seq<i32>) -> Seq<i32> {
    Seq::new(16, |t: int| max2(x[15 - t], y[t]))
}

/// One cleaner pass at distance eight.
fn cleaner_pass8(v: &mut [i32; 16])
    ensures
        final(v)@ == clean_pass(old(v)@, 8),
        final(v)@.to_multiset() == old(v)@.to_multiset(),
{
    cex(v, 0, 8);
    cex(v, 1, 9);
    cex(v, 2, 10);
    cex(v, 3, 11);
    cex(v, 4, 12);
    cex(v, 5, 13);
    cex(v, 6, 14);
    cex(v, 7, 15);
    proof {
        assert(v@ =~= clean_pass(old(v)@, 8));
    }
}

/// One cleaner pass at distance four.
fn cleaner_pass4(v: &mut [i32; 16])
    ensures
        final(v)@ == clean_pass(old(v)@, 4),
        final(v)@.to_multiset() == old(v)@.to_multiset(),
{
    cex(v, 0, 4);
    cex(v, 1, 5);
    cex(v, 2, 6);
    cex(v, 3, 7);
    cex(v, 8, 12);
    cex(v, 9, 13);
    cex(v, 10, 14);
    cex(v, 11, 15);
    proof {
        assert(v@ =~= clean_pass(old(v)@, 4));
    }
}

/// One cleaner pass at distance two.
fn cleaner_pass2(v: &mut [i32; 16])
    ensures
        final(v)@ == clean_pass(old(v)@, 2),
        final(v)@.to_multiset() == old(v)@.to_multiset(),
{
    cex(v, 0, 2);
    cex(v, 1, 3);
    cex(v, 4, 6);
    cex(v, 5, 7);
    cex(v, 8, 10);
    cex(v, 9, 11);
    cex(v, 12, 14);
    cex(v, 13, 15);
    proof {
        assert(v@ =~= clean_pass(old(v)@, 2));
    }
}

/// One cleaner pass at distance one.
fn cleaner_pass1(v: &mut [i32; 16])
    ensures
        final(v)@ == clean_pass(old(v)@, 1),
        final(v)@.to_multiset() == old(v)@.to_multiset(),
{
    cex(v, 0, 1);
    cex(v, 2, 3);
    cex(v, 4, 5);
    cex(v, 6, 7);
    cex(v, 8, 9);
    cex(v, 10, 11);
    cex(v, 12, 13);
    cex(v, 14, 15);
    proof {
        assert(v@ =~= clean_pass(old(v)@, 1));
    }
}

/// After the distance-four pass, the lower four lanes of each block of
/// eight are at most its upper four, and the block halves of the whole
/// remain ordered.
#[verifier::rlimit(100)]
proof fn lemma_lo_cross4(x: Seq<i32>, y: Seq<i32>)
    requires
        x.len() == 16,
        y.len() == 16,
        sorted(x),
        sorted(y),
    ensures
        ({
            let s2 = clean_pass(clean_pass(wedge_of(x, y), 8), 4);
            &&& forall|i: int, j: int| 0 <= i < 8 <= j < 16 ==> s2[i] <= s2[j]
            &&& forall|i: int, j: int| 0 <= i < 4 <= j < 8 ==> s2[i] <= s2[j]
            &&& forall|i: int, j: int| 8 <= i < 12 <= j < 16 ==> s2[i] <= s2[j]
        }),
{
    let s0 = wedge_of(x, y);
    let s1 = clean_pass(s0, 8);
    let s2 = clean_pass(s1, 4);
    assert forall|i: int, j: int| 0 <= i < 8 <= j < 16 implies s1[i] <= s1[j] by {
        assert(s1[i] == min2(s0[i], s0[i + 8]));
        assert(s1[j] == max2(s0[j - 8], s0[j]));
    }
    assert forall|i: int, j: int| 0 <= i < 8 <= j < 16 implies s2[i] <= s2[j] by {}
    assert forall|i: int, j: int| 0 <= i < 4 <= j < 8 implies s2[i] <= s2[j] by {
        assert(s2[i] == min2(s1[i], s1[i + 4]));
        assert(s2[j] == max2(s1[j - 4], s1[j]));
    }
    assert forall|i: int, j: int| 8 <= i < 12 <= j < 16 implies s2[i] <= s2[j] by {
        assert(s2[i] == min2(s1[i], s1[i + 4]));
        assert(s2[j] == max2(s1[j - 4], s1[j]));
    }
}

/// The distance-two ordering inside the block of lanes 0..4 of the
/// wedge block after the first three cleaner passes.
#[verifier::rlimit(100)]
proof fn lemma_lo_cross2_b0(x: Seq<i32>, y: Seq<i32>)
    requires
        x.len() == 16,
        y.len() == 16,
        sorted(x),
        sorted(y),
    ensures
        ({
            let s3 = clean_pass(clean_pass(clean_pass(wedge_of(x, y), 8), 4), 2);
            s3[0] <= s3[2] && s3[0] <= s3[3] && s3[1] <= s3[2] && s3[1] <= s3[3]
        }),
{
    let s0 = wedge_of(x, y);
    let s1 = clean_pass(s0, 8);
    let s2 = clean_pass(s1, 4);
    let s3 = clean_pass(s2, 2);
    assert(x[0] <= x[1] <= x[2] <= x[3] <= x[4] <= x[5] <= x[6] <= x[7] <= x[8] <= x[9] <= x[10] <= x[11] <= x[12] <= x[13] <= x[14] <= x[15]);
    assert(y[0] <= y[1] <= y[2] <= y[3] <= y[4] <= y[5] <= y[6] <= y[7] <= y[8] <= y[9] <= y[10] <= y[11] <= y[12] <= y[13] <= y[14] <= y[15]);
    assert(s0[0] == min2(x[15], y[0]));
    assert(s0[1] == min2(x[14], y[1]));
    assert(s0[2] == min2(x[13], y[2]));
    assert(s0[3] == min2(x[12], y[3]));
    assert(s0[4] == min2(x[11], y[4]));
    assert(s0[5] == min2(x[10], y[5]));
    assert(s0[6] == min2(x[9], y[6]));
    assert(s0[7] == min2(x[8], y[7]));
    assert(s0[8] == min2(x[7], y[8]));
    assert(s0[9] == min2(x[6], y[9]));
    assert(s0[10] == min2(x[5], y[10]));
    assert(s0[11] == min2(x[4], y[11]));
    assert(s0[12] == min2(x[3], y[12]));
    assert(s0[13] == min2(x[2], y[13]));
    assert(s0[14] == min2(x[1], y[14]));
    assert(s0[15] == min2(x[0], y[15]));
    assert(s1[0] == min2(s0[0], s0[8]));
    assert(s1[1] == min2(s0[1], s0[9]));
    assert(s1[2] == min2(s0[2], s0[10]));
    assert(s1[3] == min2(s0[3], s0[11]));
    assert(s1[4] == min2(s0[4], s0[12]));
    assert(s1[5] == min2(s0[5], s0[13]));
    assert(s1[6] == min2(s0[6], s0[14]));
    assert(s1[7] == min2(s0[7], s0[15]));
    assert(s2[0] == min2(s1[0], s1[4]));
    assert(s2[1] == min2(s1[1], s1[5]));
    assert(s2[2] == min2(s1[2], s1[6]));
    assert(s2[3] == min2(s1[3], s1[7]));
    assert(s3[0] == min2(s2[0], s2[2]));
    assert(s3[1] == min2(s2[1], s2[3]));
    assert(s3[2] == max2(s2[0], s2[2]));
    assert(s3[3] == max2(s2[1], s2[3]));
    assert(s3[0] <= s3[3]);
    assert(s3[1] <= s3[2]);
}

/// The distance-two ordering inside the block of lanes 4..8 of the
/// wedge block after the first three cleaner passes.
#[verifier::rlimit(100)]
proof fn lemma_lo_cross2_b1(x: Seq<i32>, y: Seq<i32>)
    requires
        x.len() == 16,
        y.len() == 16,
        sorted(x),
        sorted(y),
    ensures
        ({
            let s3 = clean_pass(clean_pass(clean_pass(wedge_of(x, y), 8), 4), 2);
            s3[4] <= s3[6] && s3[4] <= s3[7] && s3[5] <= s3[6] && s3[5] <= s3[7]
        }),
{
    let s0 = wedge_of(x, y);
    let s1 = clean_pass(s0, 8);
    let s2 = clean_pass(s1, 4);
    let s3 = clean_pass(s2, 2);
    assert(x[0] <= x[1] <= x[2] <= x[3] <= x[4] <= x[5] <= x[6] <= x[7] <= x[8] <= x[9] <= x[10] <= x[11] <= x[12] <= x[13] <= x[14] <= x[15]);
    assert(y[0] <= y[1] <= y[2] <= y[3] <= y[4] <= y[5] <= y[6] <= y[7] <= y[8] <= y[9] <= y[10] <= y[11] <= y[12] <= y[13] <= y[14] <= y[15]);
    assert(s0[0] == min2(x[15], y[0]));
    assert(s0[1] == min2(x[14], y[1]));
    assert(s0[2] == min2(x[13], y[2]));
    assert(s0[3] == min2(x[12], y[3]));
    assert(s0[4] == min2(x[11], y[4]));
    assert(s0[5] == min2(x[10], y[5]));
    assert(s0[6] == min2(x[9], y[6]));
    assert(s0[7] == min2(x[8], y[7]));
    assert(s0[8] == min2(x[7], y[8]));
    assert(s0[9] == min2(x[6], y[9]));
    assert(s0[10] == min2(x[5], y[10]));
    assert(s0[11] == min2(x[4], y[11]));
    assert(s0[12] == min2(x[3], y[12]));
    assert(s0[13] == min2(x[2], y[13]));
    assert(s0[14] == min2(x[1], y[14]));
    assert(s0[15] == min2(x[0], y[15]));
    assert(s1[0] == min2(s0[0], s0[8]));
    assert(s1[1] == min2(s0[1], s0[9]));
    assert(s1[2] == min2(s0[2], s0[10]));
    assert(s1[3] == min2(s0[3], s0[11]));
    assert(s1[4] == min2(s0[4], s0[12]));
    assert(s1[5] == min2(s0[5], s0[13]));
    assert(s1[6] == min2(s0[6], s0[14]));
    assert(s1[7] == min2(s0[7], s0[15]));
    assert(s2[4] == max2(s1[0], s1[4]));
    assert(s2[5] == max2(s1[1], s1[5]));
    assert(s2[6] == max2(s1[2], s1[6]));
    assert(s2[7] == max2(s1[3], s1[7]));
    assert(s3[4] == min2(s2[4], s2[6]));
    assert(s3[5] == min2(s2[5], s2[7]));
    assert(s3[6] == max2(s2[4], s2[6]));
    assert(s3[7] == max2(s2[5], s2[7]));
    assert(s3[4] <= s3[7]);
    assert(s3[5] <= s3[6]);
}

/// The distance-two ordering inside the block of lanes 8..12 of the
/// wedge block after the first three cleaner passes.
#[verifier::rlimit(100)]
proof fn lemma_lo_cross2_b2(x: Seq<i32>, y: Seq<i32>)
    requires
        x.len() == 16,
        y.len() == 16,
        sorted(x),
        sorted(y),
    ensures
        ({
            let s3 = clean_pass(clean_pass(clean_pass(wedge_of(x, y), 8), 4), 2);
            s3[8] <= s3[10] && s3[8] <= s3[11] && s3[9] <= s3[10] && s3[9] <= s3[11]
        }),
{
    let s0 = wedge_of(x, y);
    let s1 = clean_pass(s0, 8);
    let s2 = clean_pass(s1, 4);
    let s3 = clean_pass(s2, 2);
    assert(x[0] <= x[1] <= x[2] <= x[3] <= x[4] <= x[5] <= x[6] <= x[7] <= x[8] <= x[9] <= x[10] <= x[11] <= x[12] <= x[13] <= x[14] <= x[15]);
    assert(y[0] <= y[1] <= y[2] <= y[3] <= y[4] <= y[5] <= y[6] <= y[7] <= y[8] <= y[9] <= y[10] <= y[11] <= y[12] <= y[13] <= y[14] <= y[15]);
    assert(s0[0] == min2(x[15], y[0]));
    assert(s0[1] == min2(x[14], y[1]));
    assert(s0[2] == min2(x[13], y[2]));
    assert(s0[3] == min2(x[12], y[3]));
    assert(s0[4] == min2(x[11], y[4]));
    assert(s0[5] == min2(x[10], y[5]));
    assert(s0[6] == min2(x[9], y[6]));
    assert(s0[7] == min2(x[8], y[7]));
    assert(s0[8] == min2(x[7], y[8]));
    assert(s0[9] == min2(x[6], y[9]));
    assert(s0[10] == min2(x[5], y[10]));
    assert(s0[11] == min2(x[4], y[11]));
    assert(s0[12] == min2(x[3], y[12]));
    assert(s0[13] == min2(x[2], y[13]));
    assert(s0[14] == min2(x[1], y[14]));
    assert(s0[15] == min2(x[0], y[15]));
    assert(s1[8] == max2(s0[0], s0[8]));
    assert(s1[9] == max2(s0[1], s0[9]));
    assert(s1[10] == max2(s0[2], s0[10]));
    assert(s1[11] == max2(s0[3], s0[11]));
    assert(s1[12] == max2(s0[4], s0[12]));
    assert(s1[13] == max2(s0[5], s0[13]));
    assert(s1[14] == max2(s0[6], s0[14]));
    assert(s1[15] == max2(s0[7], s0[15]));
    assert(s2[8] == min2(s1[8], s1[12]));
    assert(s2[9] == min2(s1[9], s1[13]));
    assert(s2[10] == min2(s1[10], s1[14]));
    assert(s2[11] == min2(s1[11], s1[15]));
    assert(s3[8] == min2(s2[8], s2[10]));
    assert(s3[9] == min2(s2[9], s2[11]));
    assert(s3[10] == max2(s2[8], s2[10]));
    assert(s3[11] == max2(s2[9], s2[11]));
    assert(s3[8] <= s3[11]);
    assert(s3[9] <= s3[10]);
}

/// The distance-two ordering inside the block of lanes 12..16 of the
/// wedge block after the first three cleaner passes.
#[verifier::rlimit(100)]
proof fn lemma_lo_cross2_b3(x: Seq<i32>, y: Seq<i32>)
    requires
        x.len() == 16,
        y.len() == 16,
        sorted(x),
        sorted(y),
    ensures
        ({
            let s3 = clean_pass(clean_pass(clean_pass(wedge_of(x, y), 8), 4), 2);
            s3[12] <= s3[14] && s3[12] <= s3[15] && s3[13] <= s3[14] && s3[13] <= s3[15]
        }),
{
    let s0 = wedge_of(x, y);
    let s1 = clean_pass(s0, 8);
    let s2 = clean_pass(s1, 4);
    let s3 = clean_pass(s2, 2);
    assert(x[0] <= x[1] <= x[2] <= x[3] <= x[4] <= x[5] <= x[6] <= x[7] <= x[8] <= x[9] <= x[10] <= x[11] <= x[12] <= x[13] <= x[14] <= x[15]);
    assert(y[0] <= y[1] <= y[2] <= y[3] <= y[4] <= y[5] <= y[6] <= y[7] <= y[8] <= y[9] <= y[10] <= y[11] <= y[12] <= y[13] <= y[14] <= y[15]);
    assert(s0[0] == min2(x[15], y[0]));
    assert(s0[1] == min2(x[14], y[1]));
    assert(s0[2] == min2(x[13], y[2]));
    assert(s0[3] == min2(x[12], y[3]));
    assert(s0[4] == min2(x[11], y[4]));
    assert(s0[5] == min2(x[10], y[5]));
    assert(s0[6] == min2(x[9], y[6]));
    assert(s0[7] == min2(x[8], y[7]));
    assert(s0[8] == min2(x[7], y[8]));
    assert(s0[9] == min2(x[6], y[9]));
    assert(s0[10] == min2(x[5], y[10]));
    assert(s0[11] == min2(x[4], y[11]));
    assert(s0[12] == min2(x[3], y[12]));
    assert(s0[13] == min2(x[2], y[13]));
    assert(s0[14] == min2(x[1], y[14]));
    assert(s0[15] == min2(x[0], y[15]));
    assert(s1[8] == max2(s0[0], s0[8]));
    assert(s1[9] == max2(s0[1], s0[9]));
    assert(s1[10] == max2(s0[2], s0[10]));
    assert(s1[11] == max2(s0[3], s0[11]));
    assert(s1[12] == max2(s0[4], s0[12]));
    assert(s1[13] == max2(s0[5], s0[13]));
    assert(s1[14] == max2(s0[6], s0[14]));
    assert(s1[15] == max2(s0[7], s0[15]));
    assert(s2[12] == max2(s1[8], s1[12]));
    assert(s2[13] == max2(s1[9], s1[13]));
    assert(s2[14] == max2(s1[10], s1[14]));
    assert(s2[15] == max2(s1[11], s1[15]));
    assert(s3[12] == min2(s2[12], s2[14]));
    assert(s3[13] == min2(s2[13], s2[15]));
    assert(s3[14] == max2(s2[12], s2[14]));
    assert(s3[15] == max2(s2[13], s2[15]));
    assert(s3[12] <= s3[15]);
    assert(s3[13] <= s3[14]);
}

/// The distance-two ordering inside the block of lanes 0..4 of the
/// valley block after the first three cleaner passes.
#[verifier::rlimit(100)]
proof fn lemma_hi_cross2_b0(x: Seq<i32>, y: Seq<i32>)
    requires
        x.len() == 16,
        y.len() == 16,
        sorted(x),
        sorted(y),
    ensures
        ({
            let s3 = clean_pass(clean_pass(clean_pass(valley_of(x, y), 8), 4), 2);
            s3[0] <= s3[2] && s3[0] <= s3[3] && s3[1] <= s3[2] && s3[1] <= s3[3]
        }),
{
    let s0 = valley_of(x, y);
    let s1 = clean_pass(s0, 8);
    let s2 = clean_pass(s1, 4);
    let s3 = clean_pass(s2, 2);
    assert(x[0] <= x[1] <= x[2] <= x[3] <= x[4] <= x[5] <= x[6] <= x[7] <= x[8] <= x[9] <= x[10] <= x[11] <= x[12] <= x[13] <= x[14] <= x[15]);
    assert(y[0] <= y[1] <= y[2] <= y[3] <= y[4] <= y[5] <= y[6] <= y[7] <= y[8] <= y[9] <= y[10] <= y[11] <= y[12] <= y[13] <= y[14] <= y[15]);
    assert(s0[0] == max2(x[15], y[0]));
    assert(s0[1] == max2(x[14], y[1]));
    assert(s0[2] == max2(x[13], y[2]));
    assert(s0[3] == max2(x[12], y[3]));
    assert(s0[4] == max2(x[11], y[4]));
    assert(s0[5] == max2(x[10], y[5]));
    assert(s0[6] == max2(x[9], y[6]));
    assert(s0[7] == max2(x[8], y[7]));
    assert(s0[8] == max2(x[7], y[8]));
    assert(s0[9] == max2(x[6], y[9]));
    assert(s0[10] == max2(x[5], y[10]));
    assert(s0[11] == max2(x[4], y[11]));
    assert(s0[12] == max2(x[3], y[12]));
    assert(s0[13] == max2(x[2], y[13]));
    assert(s0[14] == max2(x[1], y[14]));
    assert(s0[15] == max2(x[0], y[15]));
    assert(s1[0] == min2(s0[0], s0[8]));
    assert(s1[1] == min2(s0[1], s0[9]));
    assert(s1[2] == min2(s0[2], s0[10]));
    assert(s1[3] == min2(s0[3], s0[11]));
    assert(s1[4] == min2(s0[4], s0[12]));
    assert(s1[5] == min2(s0[5], s0[13]));
    assert(s1[6] == min2(s0[6], s0[14]));
    assert(s1[7] == min2(s0[7], s0[15]));
    assert(s2[0] == min2(s1[0], s1[4]));
    assert(s2[1] == min2(s1[1], s1[5]));
    assert(s2[2] == min2(s1[2], s1[6]));
    assert(s2[3] == min2(s1[3], s1[7]));
    assert(s3[0] == min2(s2[0], s2[2]));
    assert(s3[1] == min2(s2[1], s2[3]));
    assert(s3[2] == max2(s2[0], s2[2]));
    assert(s3[3] == max2(s2[1], s2[3]));
    assert(s3[0] <= s3[3]);
    assert(s3[1] <= s3[2]);
}

/// The distance-two ordering inside the block of lanes 4..8 of the
/// valley block after the first three cleaner passes.
#[verifier::rlimit(100)]
proof fn lemma_hi_cross2_b1(x: Seq<i32>, y: Seq<i32>)
    requires
        x.len() == 16,
        y.len() == 16,
        sorted(x),
        sorted(y),
    ensures
        ({
            let s3 = clean_pass(clean_pass(clean_pass(valley_of(x, y), 8), 4), 2);
            s3[4] <= s3[6] && s3[4] <= s3[7] && s3[5] <= s3[6] && s3[5] <= s3[7]
        }),
{
    let s0 = valley_of(x, y);
    let s1 = clean_pass(s0, 8);
    let s2 = clean_pass(s1, 4);
    let s3 = clean_pass(s2, 2);
    assert(x[0] <= x[1] <= x[2] <= x[3] <= x[4] <= x[5] <= x[6] <= x[7] <= x[8] <= x[9] <= x[10] <= x[11] <= x[12] <= x[13] <= x[14] <= x[15]);
    assert(y[0] <= y[1] <= y[2] <= y[3] <= y[4] <= y[5] <= y[6] <= y[7] <= y[8] <= y[9] <= y[10] <= y[11] <= y[12] <= y[13] <= y[14] <= y[15]);
    assert(s0[0] == max2(x[15], y[0]));
    assert(s0[1] == max2(x[14], y[1]));
    assert(s0[2] == max2(x[13], y[2]));
    assert(s0[3] == max2(x[12], y[3]));
    assert(s0[4] == max2(x[11], y[4]));
    assert(s0[5] == max2(x[10], y[5]));
    assert(s0[6] == max2(x[9], y[6]));
    assert(s0[7] == max2(x[8], y[7]));
    assert(s0[8] == max2(x[7], y[8]));
    assert(s0[9] == max2(x[6], y[9]));
    assert(s0[10] == max2(x[5], y[10]));
    assert(s0[11] == max2(x[4], y[11]));
    assert(s0[12] == max2(x[3], y[12]));
    assert(s0[13] == max2(x[2], y[13]));
    assert(s0[14] == max2(x[1], y[14]));
    assert(s0[15] == max2(x[0], y[15]));
    assert(s1[0] == min2(s0[0], s0[8]));
    assert(s1[1] == min2(s0[1], s0[9]));
    assert(s1[2] == min2(s0[2], s0[10]));
    assert(s1[3] == min2(s0[3], s0[11]));
    assert(s1[4] == min2(s0[4], s0[12]));
    assert(s1[5] == min2(s0[5], s0[13]));
    assert(s1[6] == min2(s0[6], s0[14]));
    assert(s1[7] == min2(s0[7], s0[15]));
    assert(s2[4] == max2(s1[0], s1[4]));
    assert(s2[5] == max2(s1[1], s1[5]));
    assert(s2[6] == max2(s1[2], s1[6]));
    assert(s2[7] == max2(s1[3], s1[7]));
    assert(s3[4] == min2(s2[4], s2[6]));
    assert(s3[5] == min2(s2[5], s2[7]));
    assert(s3[6] == max2(s2[4], s2[6]));
    assert(s3[7] == max2(s2[5], s2[7]));
    assert(s3[4] <= s3[7]);
    assert(s3[5] <= s3[6]);
}

/// The distance-two ordering inside the block of lanes 8..12 of the
/// valley block after the first three cleaner passes.
#[verifier::rlimit(100)]
proof fn lemma_hi_cross2_b2(x: Seq<i32>, y: Seq<i32>)
    requires
        x.len() == 16,
        y.len() == 16,
        sorted(x),
        sorted(y),
    ensures
        ({
            let s3 = clean_pass(clean_pass(clean_pass(valley_of(x, y), 8), 4), 2);
            s3[8] <= s3[10] && s3[8] <= s3[11] && s3[9] <= s3[10] && s3[9] <= s3[11]
        }),
{
    let s0 = valley_of(x, y);
    let s1 = clean_pass(s0, 8);
    let s2 = clean_pass(s1, 4);
    let s3 = clean_pass(s2, 2);
    assert(x[0] <= x[1] <= x[2] <= x[3] <= x[4] <= x[5] <= x[6] <= x[7] <= x[8] <= x[9] <= x[10] <= x[11] <= x[12] <= x[13] <= x[14] <= x[15]);
    assert(y[0] <= y[1] <= y[2] <= y[3] <= y[4] <= y[5] <= y[6] <= y[7] <= y[8] <= y[9] <= y[10] <= y[11] <= y[12] <= y[13] <= y[14] <= y[15]);
    assert(s0[0] == max2(x[15], y[0]));
    assert(s0[1] == max2(x[14], y[1]));
    assert(s0[2] == max2(x[13], y[2]));
    assert(s0[3] == max2(x[12], y[3]));
    assert(s0[4] == max2(x[11], y[4]));
    assert(s0[5] == max2(x[10], y[5]));
    assert(s0[6] == max2(x[9], y[6]));
    assert(s0[7] == max2(x[8], y[7]));
    assert(s0[8] == max2(x[7], y[8]));
    assert(s0[9] == max2(x[6], y[9]));
    assert(s0[10] == max2(x[5], y[10]));
    assert(s0[11] == max2(x[4], y[11]));
    assert(s0[12] == max2(x[3], y[12]));
    assert(s0[13] == max2(x[2], y[13]));
    assert(s0[14] == max2(x[1], y[14]));
    assert(s0[15] == max2(x[0], y[15]));
    assert(s1[8] == max2(s0[0], s0[8]));
    assert(s1[9] == max2(s0[1], s0[9]));
    assert(s1[10] == max2(s0[2], s0[10]));
    assert(s1[11] == max2(s0[3], s0[11]));
    assert(s1[12] == max2(s0[4], s0[12]));
    assert(s1[13] == max2(s0[5], s0[13]));
    assert(s1[14] == max2(s0[6], s0[14]));
    assert(s1[15] == max2(s0[7], s0[15]));
    assert(s2[8] == min2(s1[8], s1[12]));
    assert(s2[9] == min2(s1[9], s1[13]));
    assert(s2[10] == min2(s1[10], s1[14]));
    assert(s2[11] == min2(s1[11], s1[15]));
    assert(s3[8] == min2(s2[8], s2[10]));
    assert(s3[9] == min2(s2[9], s2[11]));
    assert(s3[10] == max2(s2[8], s2[10]));
    assert(s3[11] == max2(s2[9], s2[11]));
    assert(s3[8] <= s3[11]);
    assert(s3[9] <= s3[10]);
}

/// The distance-two ordering inside the block of lanes 12..16 of the
/// valley block after the first three cleaner passes.
#[verifier::rlimit(100)]
proof fn lemma_hi_cross2_b3(x: Seq<i32>, y: Seq<i32>)
    requires
        x.len() == 16,
        y.len() == 16,
        sorted(x),
        sorted(y),
    ensures
        ({
            let s3 = clean_pass(clean_pass(clean_pass(valley_of(x, y), 8), 4), 2);
            s3[12] <= s3[14] && s3[12] <= s3[15] && s3[13] <= s3[14] && s3[13] <= s3[15]
        }),
{
    let s0 = valley_of(x, y);
    let s1 = clean_pass(s0, 8);
    let s2 = clean_pass(s1, 4);
    let s3 = clean_pass(s2, 2);
    assert(x[0] <= x[1] <= x[2] <= x[3] <= x[4] <= x[5] <= x[6] <= x[7] <= x[8] <= x[9] <= x[10] <= x[11] <= x[12] <= x[13] <= x[14] <= x[15]);
    assert(y[0] <= y[1] <= y[2] <= y[3] <= y[4] <= y[5] <= y[6] <= y[7] <= y[8] <= y[9] <= y[10] <= y[11] <= y[12] <= y[13] <= y[14] <= y[15]);
    assert(s0[0] == max2(x[15], y[0]));
    assert(s0[1] == max2(x[14], y[1]));
    assert(s0[2] == max2(x[13], y[2]));
    assert(s0[3] == max2(x[12], y[3]));
    assert(s0[4] == max2(x[11], y[4]));
    assert(s0[5] == max2(x[10], y[5]));
    assert(s0[6] == max2(x[9], y[6]));
    assert(s0[7] == max2(x[8], y[7]));
    assert(s0[8] == max2(x[7], y[8]));
    assert(s0[9] == max2(x[6], y[9]));
    assert(s0[10] == max2(x[5], y[10]));
    assert(s0[11] == max2(x[4], y[11]));
    assert(s0[12] == max2(x[3], y[12]));
    assert(s0[13] == max2(x[2], y[13]));
    assert(s0[14] == max2(x[1], y[14]));
    assert(s0[15] == max2(x[0], y[15]));
    assert(s1[8] == max2(s0[0], s0[8]));
    assert(s1[9] == max2(s0[1], s0[9]));
    assert(s1[10] == max2(s0[2], s0[10]));
    assert(s1[11] == max2(s0[3], s0[11]));
    assert(s1[12] == max2(s0[4], s0[12]));
    assert(s1[13] == max2(s0[5], s0[13]));
    assert(s1[14] == max2(s0[6], s0[14]));
    assert(s1[15] == max2(s0[7], s0[15]));
    assert(s2[12] == max2(s1[8], s1[12]));
    assert(s2[13] == max2(s1[9], s1[13]));
    assert(s2[14] == max2(s1[10], s1[14]));
    assert(s2[15] == max2(s1[11], s1[15]));
    assert(s3[12] == min2(s2[12], s2[14]));
    assert(s3[13] == min2(s2[13], s2[15]));
    assert(s3[14] == max2(s2[12], s2[14]));
    assert(s3[15] == max2(s2[13], s2[15]));
    assert(s3[12] <= s3[15]);
    assert(s3[13] <= s3[14]);
}


/// Ordering across the block boundaries of the wedge block after the
/// first three cleaner passes.
#[verifier::rlimit(100)]
proof fn lemma_lo_boundaries(x: Seq<i32>, y: Seq<i32>)
    requires
        x.len() == 16,
        y.len() == 16,
        sorted(x),
        sorted(y),
    ensures
        ({
            let s3 = clean_pass(clean_pass(clean_pass(wedge_of(x, y), 8), 4), 2);
            s3[2] <= s3[4] && s3[2] <= s3[5] && s3[3] <= s3[4] && s3[3] <= s3[5] && s3[10] <= s3[12] && s3[10] <= s3[13] && s3[11] <= s3[12] && s3[11] <= s3[13] && s3[6] <= s3[8] && s3[6] <= s3[9] && s3[7] <= s3[8] && s3[7] <= s3[9]
        }),
{
    let s0 = wedge_of(x, y);
    let s1 = clean_pass(s0, 8);
    let s2 = clean_pass(s1, 4);
    let s3 = clean_pass(s2, 2);
    lemma_lo_cross4(x, y);
    assert(s3[0] == min2(s2[0], s2[2]));
    assert(s3[1] == min2(s2[1], s2[3]));
    assert(s3[2] == max2(s2[0], s2[2]));
    assert(s3[3] == max2(s2[1], s2[3]));
    assert(s3[4] == min2(s2[4], s2[6]));
    assert(s3[5] == min2(s2[5], s2[7]));
    assert(s3[6] == max2(s2[4], s2[6]));
    assert(s3[7] == max2(s2[5], s2[7]));
    assert(s3[8] == min2(s2[8], s2[10]));
    assert(s3[9] == min2(s2[9], s2[11]));
    assert(s3[10] == max2(s2[8], s2[10]));
    assert(s3[11] == max2(s2[9], s2[11]));
    assert(s3[12] == min2(s2[12], s2[14]));
    assert(s3[13] == min2(s2[13], s2[15]));
    assert(s3[14] == max2(s2[12], s2[14]));
    assert(s3[15] == max2(s2[13], s2[15]));
    assert(s3[2] <= s3[4]);
    assert(s3[2] <= s3[5]);
    assert(s3[3] <= s3[4]);
    assert(s3[3] <= s3[5]);
    assert(s3[10] <= s3[12]);
    assert(s3[10] <= s3[13]);
    assert(s3[11] <= s3[12]);
    assert(s3[11] <= s3[13]);
    assert(s3[6] <= s3[8]);
    assert(s3[6] <= s3[9]);
    assert(s3[7] <= s3[8]);
    assert(s3[7] <= s3[9]);
}

/// Neighbouring lanes 0..8 of the cleaned wedge block are ordered.
#[verifier::rlimit(100)]
proof fn lemma_lo_adj_a(x: Seq<i32>, y: Seq<i32>)
    requires
        x.len() == 16,
        y.len() == 16,
        sorted(x),
        sorted(y),
    ensures
        ({
            let s4 = cleaned(wedge_of(x, y));
            s4[0] <= s4[1] && s4[1] <= s4[2] && s4[2] <= s4[3] && s4[3] <= s4[4] && s4[4] <= s4[5] && s4[5] <= s4[6] && s4[6] <= s4[7] && s4[7] <= s4[8]
        }),
{
    let s0 = wedge_of(x, y);
    let s3 = clean_pass(clean_pass(clean_pass(s0, 8), 4), 2);
    let s4 = clean_pass(s3, 1);
    reveal(crate::qsort::lanes::cleaned);
    assert(cleaned(s0) == s4);
    lemma_lo_cross2_b0(x, y);
    lemma_lo_cross2_b1(x, y);
    lemma_lo_boundaries(x, y);
    assert(s4[0] == min2(s3[0], s3[1]));
    assert(s4[1] == max2(s3[0], s3[1]));
    assert(s4[2] == min2(s3[2], s3[3]));
    assert(s4[3] == max2(s3[2], s3[3]));
    assert(s4[4] == min2(s3[4], s3[5]));
    assert(s4[5] == max2(s3[4], s3[5]));
    assert(s4[6] == min2(s3[6], s3[7]));
    assert(s4[7] == max2(s3[6], s3[7]));
    assert(s4[8] == min2(s3[8], s3[9]));
    assert(s4[9] == max2(s3[8], s3[9]));
    assert(s4[10] == min2(s3[10], s3[11]));
    assert(s4[0] <= s4[1]);
    assert(s4[1] <= s4[2]);
    assert(s4[2] <= s4[3]);
    assert(s4[3] <= s4[4]);
    assert(s4[4] <= s4[5]);
    assert(s4[5] <= s4[6]);
    assert(s4[6] <= s4[7]);
    assert(s4[7] <= s4[8]);
}

/// Neighbouring lanes 7..16 of the cleaned wedge block are ordered.
#[verifier::rlimit(100)]
proof fn lemma_lo_adj_b(x: Seq<i32>, y: Seq<i32>)
    requires
        x.len() == 16,
        y.len() == 16,
        sorted(x),
        sorted(y),
    ensures
        ({
            let s4 = cleaned(wedge_of(x, y));
            s4[7] <= s4[8] && s4[8] <= s4[9] && s4[9] <= s4[10] && s4[10] <= s4[11] && s4[11] <= s4[12] && s4[12] <= s4[13] && s4[13] <= s4[14] && s4[14] <= s4[15]
        }),
{
    let s0 = wedge_of(x, y);
    let s3 = clean_pass(clean_pass(clean_pass(s0, 8), 4), 2);
    let s4 = clean_pass(s3, 1);
    reveal(crate::qsort::lanes::cleaned);
    assert(cleaned(s0) == s4);
    lemma_lo_cross2_b2(x, y);
    lemma_lo_cross2_b3(x, y);
    lemma_lo_boundaries(x, y);
    assert(s4[5] == max2(s3[4], s3[5]));
    assert(s4[6] == min2(s3[6], s3[7]));
    assert(s4[7] == max2(s3[6], s3[7]));
    assert(s4[8] == min2(s3[8], s3[9]));
    assert(s4[9] == max2(s3[8], s3[9]));
    assert(s4[10] == min2(s3[10], s3[11]));
    assert(s4[11] == max2(s3[10], s3[11]));
    assert(s4[12] == min2(s3[12], s3[13]));
    assert(s4[13] == max2(s3[12], s3[13]));
    assert(s4[14] == min2(s3[14], s3[15]));
    assert(s4[15] == max2(s3[14], s3[15]));
    assert(s4[7] <= s4[8]);
    assert(s4[8] <= s4[9]);
    assert(s4[9] <= s4[10]);
    assert(s4[10] <= s4[11]);
    assert(s4[11] <= s4[12]);
    assert(s4[12] <= s4[13]);
    assert(s4[13] <= s4[14]);
    assert(s4[14] <= s4[15]);
}

/// The two final cleaner passes sort what the first two passes made of the
/// wedge block.
#[verifier::rlimit(100)]
proof fn lemma_lo_sorted(x: Seq<i32>, y: Seq<i32>)
    requires
        x.len() == 16,
        y.len() == 16,
        sorted(x),
        sorted(y),
    ensures
        sorted(cleaned(wedge_of(x, y))),
{
    let s4 = cleaned(wedge_of(x, y));
    assert(s4.len() == 16) by {
        reveal(crate::qsort::lanes::cleaned);
    }
    lemma_lo_adj_a(x, y);
    lemma_lo_adj_b(x, y);
    assert(s4[0] <= s4[1] && s4[1] <= s4[2] && s4[2] <= s4[3] && s4[3] <= s4[4] && s4[4] <= s4[5] && s4[5] <= s4[6] && s4[6] <= s4[7] && s4[7] <= s4[8] && s4[8] <= s4[9] && s4[9] <= s4[10] && s4[10] <= s4[11] && s4[11] <= s4[12] && s4[12] <= s4[13] && s4[13] <= s4[14] && s4[14] <= s4[15]);
    assert(s4.len() == 16);
    assert forall|t: int| #![trigger s4[t]] 0 <= t < 15 implies s4[t] <= s4[t + 1] by {}
    lemma_adjacent_implies_sorted(s4);
}

/// `lemma_lo_cross4` for the valley block.
#[verifier::rlimit(100)]
proof fn lemma_hi_cross4(x: Seq<i32>, y: Seq<i32>)
    requires
        x.len() == 16,
        y.len() == 16,
        sorted(x),
        sorted(y),
    ensures
        ({
            let s2 = clean_pass(clean_pass(valley_of(x, y), 8), 4);
            &&& forall|i: int, j: int| 0 <= i < 8 <= j < 16 ==> s2[i] <= s2[j]
            &&& forall|i: int, j: int| 0 <= i < 4 <= j < 8 ==> s2[i] <= s2[j]
            &&& forall|i: int, j: int| 8 <= i < 12 <= j < 16 ==> s2[i] <= s2[j]
        }),
{
    let s0 = valley_of(x, y);
    let s1 = clean_pass(s0, 8);
    let s2 = clean_pass(s1, 4);
    assert forall|i: int, j: int| 0 <= i < 8 <= j < 16 implies s1[i] <= s1[j] by {
        assert(s1[i] == min2(s0[i], s0[i + 8]));
        assert(s1[j] == max2(s0[j - 8], s0[j]));
    }
    assert forall|i: int, j: int| 0 <= i < 8 <= j < 16 implies s2[i] <= s2[j] by {}
    assert forall|i: int, j: int| 0 <= i < 4 <= j < 8 implies s2[i] <= s2[j] by {
        assert(s2[i] == min2(s1[i], s1[i + 4]));
        assert(s2[j] == max2(s1[j - 4], s1[j]));
    }
    assert forall|i: int, j: int| 8 <= i < 12 <= j < 16 implies s2[i] <= s2[j] by {
        assert(s2[i] == min2(s1[i], s1[i + 4]));
        assert(s2[j] == max2(s1[j - 4], s1[j]));
    }
}


/// Ordering across the block boundaries of the valley block after the
/// first three cleaner passes.
#[verifier::rlimit(100)]
proof fn lemma_hi_boundaries(x: Seq<i32>, y: Seq<i32>)
    requires
        x.len() == 16,
        y.len() == 16,
        sorted(x),
        sorted(y),
    ensures
        ({
            let s3 = clean_pass(clean_pass(clean_pass(valley_of(x, y), 8), 4), 2);
            s3[2] <= s3[4] && s3[2] <= s3[5] && s3[3] <= s3[4] && s3[3] <= s3[5] && s3[10] <= s3[12] && s3[10] <= s3[13] && s3[11] <= s3[12] && s3[11] <= s3[13] && s3[6] <= s3[8] && s3[6] <= s3[9] && s3[7] <= s3[8] && s3[7] <= s3[9]
        }),
{
    let s0 = valley_of(x, y);
    let s1 = clean_pass(s0, 8);
    let s2 = clean_pass(s1, 4);
    let s3 = clean_pass(s2, 2);
    lemma_hi_cross4(x, y);
    assert(s3[0] == min2(s2[0], s2[2]));
    assert(s3[1] == min2(s2[1], s2[3]));
    assert(s3[2] == max2(s2[0], s2[2]));
    assert(s3[3] == max2(s2[1], s2[3]));
    assert(s3[4] == min2(s2[4], s2[6]));
    assert(s3[5] == min2(s2[5], s2[7]));
    assert(s3[6] == max2(s2[4], s2[6]));
    assert(s3[7] == max2(s2[5], s2[7]));
    assert(s3[8] == min2(s2[8], s2[10]));
    assert(s3[9] == min2(s2[9], s2[11]));
    assert(s3[10] == max2(s2[8], s2[10]));
    assert(s3[11] == max2(s2[9], s2[11]));
    assert(s3[12] == min2(s2[12], s2[14]));
    assert(s3[13] == min2(s2[13], s2[15]));
    assert(s3[14] == max2(s2[12], s2[14]));
    assert(s3[15] == max2(s2[13], s2[15]));
    assert(s3[2] <= s3[4]);
    assert(s3[2] <= s3[5]);
    assert(s3[3] <= s3[4]);
    assert(s3[3] <= s3[5]);
    assert(s3[10] <= s3[12]);
    assert(s3[10] <= s3[13]);
    assert(s3[11] <= s3[12]);
    assert(s3[11] <= s3[13]);
    assert(s3[6] <= s3[8]);
    assert(s3[6] <= s3[9]);
    assert(s3[7] <= s3[8]);
    assert(s3[7] <= s3[9]);
}

/// Neighbouring lanes 0..8 of the cleaned valley block are ordered.
#[verifier::rlimit(100)]
proof fn lemma_hi_adj_a(x: Seq<i32>, y: Seq<i32>)
    requires
        x.len() == 16,
        y.len() == 16,
        sorted(x),
        sorted(y),
    ensures
        ({
            let s4 = cleaned(valley_of(x, y));
            s4[0] <= s4[1] && s4[1] <= s4[2] && s4[2] <= s4[3] && s4[3] <= s4[4] && s4[4] <= s4[5] && s4[5] <= s4[6] && s4[6] <= s4[7] && s4[7] <= s4[8]
        }),
{
    let s0 = valley_of(x, y);
    let s3 = clean_pass(clean_pass(clean_pass(s0, 8), 4), 2);
    let s4 = clean_pass(s3, 1);
    reveal(crate::qsort::lanes::cleaned);
    assert(cleaned(s0) == s4);
    lemma_hi_cross2_b0(x, y);
    lemma_hi_cross2_b1(x, y);
    lemma_hi_boundaries(x, y);
    assert(s4[0] == min2(s3[0], s3[1]));
    assert(s4[1] == max2(s3[0], s3[1]));
    assert(s4[2] == min2(s3[2], s3[3]));
    assert(s4[3] == max2(s3[2], s3[3]));
    assert(s4[4] == min2(s3[4], s3[5]));
    assert(s4[5] == max2(s3[4], s3[5]));
    assert(s4[6] == min2(s3[6], s3[7]));
    assert(s4[7] == max2(s3[6], s3[7]));
    assert(s4[8] == min2(s3[8], s3[9]));
    assert(s4[9] == max2(s3[8], s3[9]));
    assert(s4[10] == min2(s3[10], s3[11]));
    assert(s4[0] <= s4[1]);
    assert(s4[1] <= s4[2]);
    assert(s4[2] <= s4[3]);
    assert(s4[3] <= s4[4]);
    assert(s4[4] <= s4[5]);
    assert(s4[5] <= s4[6]);
    assert(s4[6] <= s4[7]);
    assert(s4[7] <= s4[8]);
}

/// Neighbouring lanes 7..16 of the cleaned valley block are ordered.
#[verifier::rlimit(100)]
proof fn lemma_hi_adj_b(x: Seq<i32>, y: Seq<i32>)
    requires
        x.len() == 16,
        y.len() == 16,
        sorted(x),
        sorted(y),
    ensures
        ({
            let s4 = cleaned(valley_of(x, y));
            s4[7] <= s4[8] && s4[8] <= s4[9] && s4[9] <= s4[10] && s4[10] <= s4[11] && s4[11] <= s4[12] && s4[12] <= s4[13] && s4[13] <= s4[14] && s4[14] <= s4[15]
        }),
{
    let s0 = valley_of(x, y);
    let s3 = clean_pass(clean_pass(clean_pass(s0, 8), 4), 2);
    let s4 = clean_pass(s3, 1);
    reveal(crate::qsort::lanes::cleaned);
    assert(cleaned(s0) == s4);
    lemma_hi_cross2_b2(x, y);
    lemma_hi_cross2_b3(x, y);
    lemma_hi_boundaries(x, y);
    assert(s4[5] == max2(s3[4], s3[5]));
    assert(s4[6] == min2(s3[6], s3[7]));
    assert(s4[7] == max2(s3[6], s3[7]));
    assert(s4[8] == min2(s3[8], s3[9]));
    assert(s4[9] == max2(s3[8], s3[9]));
    assert(s4[10] == min2(s3[10], s3[11]));
    assert(s4[11] == max2(s3[10], s3[11]));
    assert(s4[12] == min2(s3[12], s3[13]));
    assert(s4[13] == max2(s3[12], s3[13]));
    assert(s4[14] == min2(s3[14], s3[15]));
    assert(s4[15] == max2(s3[14], s3[15]));
    assert(s4[7] <= s4[8]);
    assert(s4[8] <= s4[9]);
    assert(s4[9] <= s4[10]);
    assert(s4[10] <= s4[11]);
    assert(s4[11] <= s4[12]);
    assert(s4[12] <= s4[13]);
    assert(s4[13] <= s4[14]);
    assert(s4[14] <= s4[15]);
}

/// `lemma_lo_sorted` for the valley block.
#[verifier::rlimit(100)]
proof fn lemma_hi_sorted(x: Seq<i32>, y: Seq<i32>)
    requires
        x.len() == 16,
        y.len() == 16,
        sorted(x),
        sorted(y),
    ensures
        sorted(cleaned(valley_of(x, y))),
{
    let s4 = cleaned(valley_of(x, y));
    assert(s4.len() == 16) by {
        reveal(crate::qsort::lanes::cleaned);
    }
    lemma_hi_adj_a(x, y);
    lemma_hi_adj_b(x, y);
    assert(s4[0] <= s4[1] && s4[1] <= s4[2] && s4[2] <= s4[3] && s4[3] <= s4[4] && s4[4] <= s4[5] && s4[5] <= s4[6] && s4[6] <= s4[7] && s4[7] <= s4[8] && s4[8] <= s4[9] && s4[9] <= s4[10] && s4[10] <= s4[11] && s4[11] <= s4[12] && s4[12] <= s4[13] && s4[13] <= s4[14] && s4[14] <= s4[15]);
    assert(s4.len() == 16);
    assert forall|t: int| #![trigger s4[t]] 0 <= t < 15 implies s4[t] <= s4[t + 1] by {}
    lemma_adjacent_implies_sorted(s4);
}

/// The five-pass merge of two sorted blocks: lane-for-lane reversal of the
/// first block against the second, then the four cleaner passes on each
/// block, yielding one sorted run of 32 values across the two blocks.
fn merge32(v1: &mut [i32; 16], v2: &mut [i32; 16])
    requires
        old(v1)@.len() == 16,
        old(v2)@.len() == 16,
        sorted(old(v1)@),
        sorted(old(v2)@),
    ensures
        final(v1)@.len() == 16,
        final(v2)@.len() == 16,
        sorted(final(v1)@ + final(v2)@),
        (final(v1)@ + final(v2)@).to_multiset() == (old(v1)@ + old(v2)@).to_multiset(),
{
    let ghost x = v1@;
    let ghost y = v2@;
    reverse16(v1);
    let ghost xr = v1@;
    cex2(v1, v2, 0, 0);
    cex2(v1, v2, 1, 1);
    cex2(v1, v2, 2, 2);
    cex2(v1, v2, 3, 3);
    cex2(v1, v2, 4, 4);
    cex2(v1, v2, 5, 5);
    cex2(v1, v2, 6, 6);
    cex2(v1, v2, 7, 7);
    cex2(v1, v2, 8, 8);
    cex2(v1, v2, 9, 9);
    cex2(v1, v2, 10, 10);
    cex2(v1, v2, 11, 11);
    cex2(v1, v2, 12, 12);
    cex2(v1, v2, 13, 13);
    cex2(v1, v2, 14, 14);
    cex2(v1, v2, 15, 15);
    let ghost m1 = v1@;
    let ghost m2 = v2@;
    proof {
        assert(m1 =~= wedge_of(x, y));
        assert(m2 =~= valley_of(x, y));
        assert forall|a: int, b: int| 0 <= a < 16 && 0 <= b < 16 implies m1[a] <= m2[b] by {
            if a <= b {
                assert(y[a] <= y[b]);
            } else {
                assert(x[15 - a] <= x[15 - b]);
            }
        }
        assert((m1 + m2).to_multiset() == (x + y).to_multiset()) by {
            vstd::seq_lib::lemma_multiset_commutative(m1, m2);
            vstd::seq_lib::lemma_multiset_commutative(xr, y);
            vstd::seq_lib::lemma_multiset_commutative(x, y);
        }
    }
    cleaner_pass8(v1);
    cleaner_pass4(v1);
    cleaner_pass2(v1);
    cleaner_pass1(v1);
    proof {
        lemma_lo_sorted(x, y);
        assert(v1@ == cleaned(wedge_of(x, y))) by {
            reveal(crate::qsort::lanes::cleaned);
        }
    }
    cleaner_pass8(v2);
    cleaner_pass4(v2);
    cleaner_pass2(v2);
    cleaner_pass1(v2);
    proof {
        lemma_hi_sorted(x, y);
        assert(v2@ == cleaned(valley_of(x, y))) by {
            reveal(crate::qsort::lanes::cleaned);
        }
        lemma_concat_cross_sorted(m1, m2, v1@, v2@);
    }
}

/// Two sorted blocks whose values came, block for block, from blocks in
/// which every first-block value was at most every second-block value make
/// one sorted run when read in sequence.
proof fn lemma_concat_cross_sorted(m1: Seq<i32>, m2: Seq<i32>, f1: Seq<i32>, f2: Seq<i32>)
    requires
        m1.len() == 16,
        m2.len() == 16,
        f1.len() == 16,
        f2.len() == 16,
        forall|a: int, b: int| 0 <= a < 16 && 0 <= b < 16 ==> m1[a] <= m2[b],
        f1.to_multiset() == m1.to_multiset(),
        f2.to_multiset() == m2.to_multiset(),
        sorted(f1),
        sorted(f2),
    ensures
        sorted(f1 + f2),
        (f1 + f2).to_multiset() == (m1 + m2).to_multiset(),
{
    broadcast use vstd::seq_lib::group_to_multiset_ensures;

    assert(m1.subrange(0, 16) =~= m1);
    assert(m2.subrange(0, 16) =~= m2);
    assert(f1.subrange(0, 16) =~= f1);
    assert(f2.subrange(0, 16) =~= f2);
    assert forall|a: int, b: int| 0 <= a < 16 && 0 <= b < 16 implies f1[a] <= f2[b] by {
        crate::qsort::lemma_window_member(m1, f1, 0, 16, a);
        crate::qsort::lemma_window_member(m2, f2, 0, 16, b);
        let u1 = choose|u: int| 0 <= u < 16 && m1[u] == f1[a];
        let u2 = choose|u: int| 0 <= u < 16 && m2[u] == f2[b];
        assert(m1[u1] <= m2[u2]);
    }
    let c = f1 + f2;
    assert forall|i: int, j: int| 0 <= i < j < 32 implies c[i] <= c[j] by {
        if j < 16 {
            assert(f1[i] <= f1[j]);
        } else if i >= 16 {
            assert(f2[i - 16] <= f2[j - 16]);
        } else {
            assert(f1[i] <= f2[j - 16]);
        }
    }
    vstd::seq_lib::lemma_multiset_commutative(f1, f2);
    vstd::seq_lib::lemma_multiset_commutative(m1, m2);
}

/// A sequence all of whose values are `x` counts `x` once per position.
proof fn lemma_const_count(s: Seq<i32>, x: i32)
    requires
        forall|t: int| 0 <= t < s.len() ==> s[t] == x,
    ensures
        s.to_multiset().count(x) == s.len(),
    decreases s.len(),
{
    broadcast use vstd::seq_lib::group_to_multiset_ensures;

    if s.len() > 0 {
        lemma_const_count(s.drop_last(), x);
        assert(s =~= s.drop_last().push(x));
    }
}

/// A value absent from the first `a` positions occurs at most `len - a`
/// times.
proof fn lemma_count_at_most(s: Seq<i32>, x: i32, a: int)
    requires
        0 <= a <= s.len(),
        forall|u: int| 0 <= u < a ==> s[u] != x,
    ensures
        s.to_multiset().count(x) <= s.len() - a,
{
    broadcast use vstd::seq_lib::group_to_multiset_ensures;
    broadcast use vstd::multiset::group_multiset_axioms;

    let hd = s.subrange(0, a);
    let tl = s.subrange(a, s.len() as int);
    assert(s =~= hd + tl);
    vstd::seq_lib::lemma_multiset_commutative(hd, tl);
    assert(!hd.contains(x));
    assert(hd.to_multiset().count(x) == 0);
    assert(tl.to_multiset().count(x) <= tl.to_multiset().len());
}

/// In a sorted block with the same multiset of values as a block `p` whose
/// lanes from `n` on all hold `i32::MAX`, the lanes from `n` on hold
/// `i32::MAX` too, and the first `n` lanes hold the multiset of `p`'s first
/// `n`.
proof fn lemma_sorted_pad(s: Seq<i32>, p: Seq<i32>, n: int)
    requires
        sorted(s),
        0 <= n <= p.len(),
        s.len() == p.len(),
        s.to_multiset() == p.to_multiset(),
        forall|t: int| n <= t < p.len() ==> p[t] == i32::MAX,
    ensures
        s.subrange(0, n).to_multiset() == p.subrange(0, n).to_multiset(),
{
    broadcast use vstd::seq_lib::group_to_multiset_ensures;
    broadcast use vstd::multiset::group_multiset_axioms;

    let len = p.len() as int;
    let ptl = p.subrange(n, len);
    assert(p =~= p.subrange(0, n) + ptl);
    vstd::seq_lib::lemma_multiset_commutative(p.subrange(0, n), ptl);
    lemma_const_count(ptl, i32::MAX);
    assert(s.to_multiset().count(i32::MAX) >= len - n);
    assert forall|t: int| n <= t < len implies s[t] == i32::MAX by {
        if s[t] != i32::MAX {
            assert(forall|u: int| #![trigger s[u]] 0 <= u <= t ==> s[u] <= s[t]);
            assert(forall|u: int| #![trigger s[u]] 0 <= u <= t ==> s[u] != i32::MAX);
            lemma_count_at_most(s, i32::MAX, t + 1);
        }
    }
    let stl = s.subrange(n, len);
    assert(s =~= s.subrange(0, n) + stl);
    vstd::seq_lib::lemma_multiset_commutative(s.subrange(0, n), stl);
    assert(stl =~= ptl);
    assert forall|x: i32|
        s.subrange(0, n).to_multiset().count(x) == p.subrange(0, n).to_multiset().count(x) by {
        assert(s.to_multiset().count(x) == s.subrange(0, n).to_multiset().count(x)
            + stl.to_multiset().count(x));
        assert(p.to_multiset().count(x) == p.subrange(0, n).to_multiset().count(x)
            + ptl.to_multiset().count(x));
    }
    assert(s.subrange(0, n).to_multiset() =~= p.subrange(0, n).to_multiset());
}

/// Copies the `n` values beginning at `base` into the low lanes of one
/// block and fills the remaining lanes with `i32::MAX`.
fn load_block_padded(arr: &[i32], base: usize, n: usize) -> (v: [i32; 16])
    requires
        n <= 16,
        base + n <= arr@.len(),
    ensures
        v@.len() == 16,
        forall|t: int| 0 <= t < n ==> v@[t] == arr@[base + t],
        forall|t: int| n <= t < 16 ==> v@[t] == i32::MAX,
{
    let total: usize = arr.len();
    let mut v: [i32; 16] = [i32::MAX;16];
    let mut t: usize = 0;
    while t < n
        invariant
            t <= n <= 16,
            base + n <= arr@.len(),
            arr@.len() == total,
            v@.len() == 16,
            forall|u: int| 0 <= u < t ==> v@[u] == arr@[base + u],
            forall|u: int| t <= u < 16 ==> v@[u] == i32::MAX,
        decreases n - t,
    {
        v[t] = arr[base + t];
        t += 1;
    }
    v
}

/// Writes the low `n` lanes of the block back to `arr` beginning at `base`.
fn store_block(arr: &mut [i32], base: usize, v: &[i32; 16], n: usize)
    requires
        n <= 16,
        base + n <= old(arr)@.len(),
    ensures
        final(arr)@.len() == old(arr)@.len(),
        forall|t: int| 0 <= t < n ==> final(arr)@[base + t] == v@[t],
        forall|t: int|
            (0 <= t < base || base + n <= t < old(arr)@.len()) ==> final(arr)@[t] == old(arr)@[t],
{
    let total: usize = arr.len();
    let mut t: usize = 0;
    while t < n
        invariant
            t <= n <= 16,
            base + n <= arr@.len(),
            arr@.len() == total,
            arr@.len() == old(arr)@.len(),
            forall|u: int| 0 <= u < t ==> arr@[base + u] == v@[u],
            forall|u: int|
                (0 <= u < base || base + t <= u < arr@.len()) ==> arr@[u] == old(arr)@[u],
        decreases n - t,
    {
        arr[base + t] = v[t];
        t += 1;
    }
}

/// Sorts the window `lo..lo+n` of at most 16 values with one run of the
/// 16-lane network, the unused high lanes padded by `i32::MAX`.
fn sort_block16(arr: &mut [i32], lo: usize, n: usize)
    requires
        n <= 16,
        lo + n <= old(arr)@.len(),
    ensures
        final(arr)@.len() == old(arr)@.len(),
        forall|t: int|
            (0 <= t < lo || lo + n <= t < old(arr)@.len()) ==> final(arr)@[t] == old(arr)@[t],
        final(arr)@.subrange(lo as int, lo + n).to_multiset() == old(arr)@.subrange(
            lo as int,
            lo + n,
        ).to_multiset(),
        sorted_range(final(arr)@, lo as int, lo + n),
{
    let mut v: [i32; 16] = load_block_padded(arr, lo, n);
    let ghost p0 = v@;
    let ghost w0 = arr@.subrange(lo as int, lo + n);
    bitonic16(&mut v);
    proof {
        lemma_sorted_pad(v@, p0, n as int);
        assert(p0.subrange(0, n as int) =~= w0);
    }
    store_block(arr, lo, &v, n);
    proof {
        assert(arr@.subrange(lo as int, lo + n) =~= v@.subrange(0, n as int));
        assert(arr@.subrange(lo as int, lo + n).to_multiset() == w0.to_multiset());
        assert forall|i: int, j: int| lo <= i < j < lo + n implies arr@[i] <= arr@[j] by {
            assert(arr@[i] == v@[i - lo]);
            assert(arr@[j] == v@[j - lo]);
        }
    }
}

/// Sorts the window `lo..lo+n` of 17 to 32 values with two runs of the
/// 16-lane network and the five-pass merge, the unused high lanes of the
/// second block padded by `i32::MAX`.
fn sort_block32(arr: &mut [i32], lo: usize, n: usize)
    requires
        16 <= n <= 32,
        lo + n <= old(arr)@.len(),
    ensures
        final(arr)@.len() == old(arr)@.len(),
        forall|t: int|
            (0 <= t < lo || lo + n <= t < old(arr)@.len()) ==> final(arr)@[t] == old(arr)@[t],
        final(arr)@.subrange(lo as int, lo + n).to_multiset() == old(arr)@.subrange(
            lo as int,
            lo + n,
        ).to_multiset(),
        sorted_range(final(arr)@, lo as int, lo + n),
{
    let total: usize = arr.len();
    let mut v1: [i32; 16] = load_block_padded(arr, lo, 16);
    let mut v2: [i32; 16] = load_block_padded(arr, lo + 16, n - 16);
    let ghost p1 = v1@;
    let ghost p2 = v2@;
    let ghost p0 = p1 + p2;
    let ghost w0 = arr@.subrange(lo as int, lo + n);
    bitonic16(&mut v1);
    bitonic16(&mut v2);
    let ghost b1 = v1@;
    let ghost b2 = v2@;
    proof {
        vstd::seq_lib::lemma_multiset_commutative(b1, b2);
        vstd::seq_lib::lemma_multiset_commutative(p1, p2);
        assert((b1 + b2).to_multiset() == p0.to_multiset());
    }
    merge32(&mut v1, &mut v2);
    let ghost c = v1@ + v2@;
    proof {
        assert(c.to_multiset() == p0.to_multiset());
        lemma_sorted_pad(c, p0, n as int);
        assert(p0.subrange(0, n as int) =~= w0);
        assert(c.subrange(0, n as int).to_multiset() == w0.to_multiset());
    }
    store_block(arr, lo, &v1, 16);
    store_block(arr, lo + 16, &v2, n - 16);
    proof {
        assert(arr@.subrange(lo as int, lo + n) =~= c.subrange(0, n as int));
        assert(arr@.subrange(lo as int, lo + n).to_multiset() == w0.to_multiset());
        assert forall|i: int, j: int| lo <= i < j < lo + n implies arr@[i] <= arr@[j] by {
            assert(arr@[i] == c[i - lo]);
            assert(arr@[j] == c[j - lo]);
        }
    }
}

/// The values among the first `k` lanes of `s` on the chosen side of the
/// pivot `p` — at most `p` when `le`, above `p` otherwise — in lane order.
pub open spec fn keep_lanes(s: Seq<i32>, k: int, p: i32, le: bool) -> Seq<i32>
    decreases k,
{
    if k <= 0 {
        Seq::empty()
    } else if (s[k - 1] <= p) == le {
        keep_lanes(s, k - 1, p, le).push(s[k - 1])
    } else {
        keep_lanes(s, k - 1, p, le)
    }
}

/// The two sides of a block partition a prefix of its lanes: their lengths
/// add up to `k`, their multisets add up to the prefix's, and each side's
/// values sit on its side of the pivot.
proof fn lemma_keep_lanes(s: Seq<i32>, k: int, p: i32)
    requires
        0 <= k <= s.len(),
    ensures
        keep_lanes(s, k, p, true).len() + keep_lanes(s, k, p, false).len() == k,
        keep_lanes(s, k, p, true).to_multiset().add(keep_lanes(s, k, p, false).to_multiset())
            == s.take(k).to_multiset(),
        forall|i: int|
            0 <= i < keep_lanes(s, k, p, true).len() ==> keep_lanes(s, k, p, true)[i] <= p,
        forall|i: int|
            0 <= i < keep_lanes(s, k, p, false).len() ==> keep_lanes(s, k, p, false)[i] > p,
    decreases k,
{
    broadcast use vstd::seq_lib::group_to_multiset_ensures;
    broadcast use vstd::multiset::group_multiset_axioms;

    if k > 0 {
        lemma_keep_lanes(s, k - 1, p);
        assert(s.take(k) =~= s.take(k - 1).push(s[k - 1]));
        assert(s.take(k).to_multiset() == s.take(k - 1).to_multiset().insert(s[k - 1]));
        let a = keep_lanes(s, k - 1, p, true);
        let b = keep_lanes(s, k - 1, p, false);
        if s[k - 1] <= p {
            assert(a.push(s[k - 1]).to_multiset() == a.to_multiset().insert(s[k - 1]));
            assert(a.to_multiset().insert(s[k - 1]).add(b.to_multiset()) =~= a.to_multiset().add(
                b.to_multiset(),
            ).insert(s[k - 1]));
        } else {
            assert(b.push(s[k - 1]).to_multiset() == b.to_multiset().insert(s[k - 1]));
            assert(a.to_multiset().add(b.to_multiset().insert(s[k - 1])) =~= a.to_multiset().add(
                b.to_multiset(),
            ).insert(s[k - 1]));
        }
    }
}

/// A longer prefix of lanes never yields a shorter selection.
proof fn lemma_keep_lanes_mono(s: Seq<i32>, a: int, b: int, p: i32, le: bool)
    requires
        0 <= a <= b <= s.len(),
    ensures
        keep_lanes(s, a, p, le).len() <= keep_lanes(s, b, p, le).len(),
    decreases b - a,
{
    if a < b {
        lemma_keep_lanes_mono(s, a, b - 1, p, le);
    }
}

/// Writes the lanes of `vals` among the first `k` that lie on the chosen
/// side of the pivot, packed in lane order starting at `at`, and returns how
/// many there were. Lanes on the other side and everything outside the
/// written run are left in place.
fn compress_store(
    arr: &mut [i32],
    at: usize,
    vals: &[i32; 16],
    k: usize,
    pivot: i32,
    le: bool,
) -> (cnt: usize)
    requires
        k <= 16,
        at + keep_lanes(vals@, k as int, pivot, le).len() <= old(arr)@.len(),
    ensures
        cnt == keep_lanes(vals@, k as int, pivot, le).len(),
        cnt <= k,
        final(arr)@.len() == old(arr)@.len(),
        final(arr)@.subrange(at as int, at + cnt) == keep_lanes(vals@, k as int, pivot, le),
        forall|t: int|
            (0 <= t < at || at + cnt <= t < old(arr)@.len()) ==> final(arr)@[t] == old(arr)@[t],
{
    let total: usize = arr.len();
    let mut c: usize = 0;
    let mut t: usize = 0;
    while t < k
        invariant
            c <= t <= k <= 16,
            at + keep_lanes(vals@, k as int, pivot, le).len() <= arr@.len(),
            arr@.len() == total,
            arr@.len() == old(arr)@.len(),
            c == keep_lanes(vals@, t as int, pivot, le).len(),
            arr@.subrange(at as int, at + c) == keep_lanes(vals@, t as int, pivot, le),
            forall|u: int| (0 <= u < at || at + c <= u < arr@.len()) ==> arr@[u] == old(arr)@[u],
        decreases k - t,
    {
        let x = vals[t];
        if (x <= pivot) == le {
            proof {
                assert(keep_lanes(vals@, t + 1, pivot, le) == keep_lanes(
                    vals@,
                    t as int,
                    pivot,
                    le,
                ).push(vals@[t as int]));
                lemma_keep_lanes_mono(vals@, t + 1, k as int, pivot, le);
            }
            arr[at + c] = x;
            proof {
                assert(arr@.subrange(at as int, at + c + 1) =~= keep_lanes(
                    vals@,
                    t as int,
                    pivot,
                    le,
                ).push(vals@[t as int]));
            }
            c += 1;
        } else {
            proof {
                assert(keep_lanes(vals@, t + 1, pivot, le) == keep_lanes(
                    vals@,
                    t as int,
                    pivot,
                    le,
                ));
            }
        }
        t += 1;
    }
    proof {
        let sel = keep_lanes(vals@, k as int, pivot, le);
        lemma_keep_lanes(vals@, k as int, pivot);
    }
    c
}

/// Sends one block of `k` read values to both ends of the free region:
/// values at most the pivot are packed upward from `left_w`, the rest are
/// packed downward from `right_w`.
fn distribute_block(
    arr: &mut [i32],
    left_w: usize,
    right_w: usize,
    vals: &[i32; 16],
    k: usize,
    pivot: i32,
) -> (r: (usize, usize))
    requires
        k <= 16,
        left_w + k <= right_w,
        right_w <= old(arr)@.len(),
    ensures
        ({
            let le = keep_lanes(vals@, k as int, pivot, true);
            let gt = keep_lanes(vals@, k as int, pivot, false);
            &&& r.0 == left_w + le.len()
            &&& r.1 == right_w - gt.len()
            &&& le.len() + gt.len() == k
            &&& r.0 <= r.1
            &&& final(arr)@.len() == old(arr)@.len()
            &&& final(arr)@.subrange(left_w as int, r.0 as int) == le
            &&& final(arr)@.subrange(r.1 as int, right_w as int) == gt
            &&& le.to_multiset().add(gt.to_multiset()) == vals@.take(k as int).to_multiset()
            &&& forall|i: int| 0 <= i < le.len() ==> le[i] <= pivot
            &&& forall|i: int| 0 <= i < gt.len() ==> gt[i] > pivot
            &&& forall|t: int|
                (0 <= t < left_w || r.0 <= t < r.1 || right_w <= t < old(arr)@.len())
                    ==> final(arr)@[t] == old(arr)@[t]
        }),
{
    proof {
        lemma_keep_lanes(vals@, k as int, pivot);
    }
    let cl = compress_store(arr, left_w, vals, k, pivot, true);
    let ch = k - cl;
    let ghost between = arr@;
    let cg = compress_store(arr, right_w - ch, vals, k, pivot, false);
    proof {
        assert(cg == ch);
        assert(arr@.subrange(left_w as int, left_w + cl) =~= between.subrange(
            left_w as int,
            left_w + cl,
        ));
    }
    (left_w + cl, right_w - ch)
}

/// Two-ended blockwise partition of the window `lo..hi-1` around `pivot`:
/// one block from each end is held aside, then whole blocks are read from
/// whichever end has more free room and their values sent to the proper end,
/// the remainder and the two held blocks last. Values at most the pivot end
/// up in `lo..part`, larger values in `part..hi-1`; the pivot value itself
/// waits at `hi - 1`.
#[verifier::rlimit(100)]
fn vector_partition(arr: &mut [i32], lo: usize, hi: usize, pivot: i32) -> (part: usize)
    requires
        lo + 33 <= hi,
        hi <= old(arr)@.len(),
        old(arr)@[hi - 1] == pivot,
    ensures
        lo <= part < hi,
        final(arr)@.len() == old(arr)@.len(),
        forall|t: int|
            (0 <= t < lo || hi <= t < old(arr)@.len()) ==> final(arr)@[t] == old(arr)@[t],
        final(arr)@.subrange(lo as int, hi as int).to_multiset() == old(arr)@.subrange(
            lo as int,
            hi as int,
        ).to_multiset(),
        forall|t: int| lo <= t < part ==> final(arr)@[t] <= pivot,
        forall|t: int| part <= t < hi - 1 ==> final(arr)@[t] > pivot,
        final(arr)@[hi - 1] == pivot,
{
    broadcast use vstd::multiset::group_multiset_axioms;
    broadcast use vstd::seq_lib::group_to_multiset_ensures;

    let last: usize = hi - 1;
    let ghost w0 = old(arr)@.subrange(lo as int, last as int);
    let lval: [i32; 16] = load_block_padded(arr, lo, 16);
    let mut left: usize = lo + 16;
    let mut left_w: usize = lo;
    let mut right: usize = last - 16;
    let mut right_w: usize = last;
    let rval: [i32; 16] = load_block_padded(arr, right, 16);
    proof {
        assert(lval@ =~= arr@.subrange(lo as int, lo + 16));
        assert(rval@ =~= arr@.subrange(right as int, right_w as int));
        assert(w0 =~= arr@.subrange(lo as int, lo + 16) + arr@.subrange(
            left as int,
            right as int,
        ) + arr@.subrange(right as int, right_w as int));
        vstd::seq_lib::lemma_multiset_commutative(
            arr@.subrange(lo as int, lo + 16) + arr@.subrange(left as int, right as int),
            arr@.subrange(right as int, right_w as int),
        );
        vstd::seq_lib::lemma_multiset_commutative(
            arr@.subrange(lo as int, lo + 16),
            arr@.subrange(left as int, right as int),
        );
        assert(arr@.subrange(lo as int, left_w as int) =~= Seq::<i32>::empty());
        assert(arr@.subrange(right_w as int, last as int) =~= Seq::<i32>::empty());
        assert(Seq::<i32>::empty().to_multiset() =~= Multiset::<i32>::empty());
    }
    while right - left >= 16
        invariant
            lo <= left_w <= left,
            left <= right <= right_w <= last,
            last == hi - 1,
            lo + 33 <= hi <= arr@.len(),
            arr@.len() == old(arr)@.len(),
            (left - left_w) + (right_w - right) == 32,
            arr@[last as int] == pivot,
            forall|t: int| (0 <= t < lo || hi <= t < arr@.len()) ==> arr@[t] == old(arr)@[t],
            forall|t: int| lo <= t < left_w ==> arr@[t] <= pivot,
            forall|t: int| right_w <= t < last ==> arr@[t] > pivot,
            arr@.subrange(lo as int, left_w as int).to_multiset().add(
                arr@.subrange(left as int, right as int).to_multiset(),
            ).add(arr@.subrange(right_w as int, last as int).to_multiset()).add(
                lval@.to_multiset(),
            ).add(rval@.to_multiset()) == w0.to_multiset(),
        decreases right - left,
    {
        let ghost pre = arr@;
        let val: [i32; 16];
        if left - left_w <= right_w - right {
            val = load_block_padded(arr, left, 16);
            proof {
                assert(val@ =~= pre.subrange(left as int, left + 16));
                assert(pre.subrange(left as int, right as int) =~= pre.subrange(
                    left as int,
                    left + 16,
                ) + pre.subrange(left + 16, right as int));
                vstd::seq_lib::lemma_multiset_commutative(
                    pre.subrange(left as int, left + 16),
                    pre.subrange(left + 16, right as int),
                );
            }
            left += 16;
        } else {
            right -= 16;
            val = load_block_padded(arr, right, 16);
            proof {
                assert(val@ =~= pre.subrange(right as int, right + 16));
                assert(pre.subrange(left as int, right + 16) =~= pre.subrange(
                    left as int,
                    right as int,
                ) + pre.subrange(right as int, right + 16));
                vstd::seq_lib::lemma_multiset_commutative(
                    pre.subrange(left as int, right as int),
                    pre.subrange(right as int, right + 16),
                );
            }
        }
        let ghost mid = arr@;
        let r = distribute_block(arr, left_w, right_w, &val, 16, pivot);
        proof {
            let le = keep_lanes(val@, 16, pivot, true);
            let gt = keep_lanes(val@, 16, pivot, false);
            assert(val@.take(16) =~= val@);
            assert(arr@.subrange(lo as int, r.0 as int) =~= mid.subrange(lo as int, left_w as int)
                + le);
            assert(arr@.subrange(r.1 as int, last as int) =~= gt + mid.subrange(
                right_w as int,
                last as int,
            ));
            assert(arr@.subrange(left as int, right as int) =~= mid.subrange(
                left as int,
                right as int,
            ));
            vstd::seq_lib::lemma_multiset_commutative(
                mid.subrange(lo as int, left_w as int),
                le,
            );
            vstd::seq_lib::lemma_multiset_commutative(
                gt,
                mid.subrange(right_w as int, last as int),
            );
            assert forall|t: int| lo <= t < r.0 implies arr@[t] <= pivot by {
                if left_w <= t {
                    assert(arr@.subrange(left_w as int, r.0 as int)[t - left_w] == arr@[t]);
                }
            }
            assert forall|t: int| r.1 <= t < last implies arr@[t] > pivot by {
                if t < right_w {
                    assert(arr@.subrange(r.1 as int, right_w as int)[t - r.1] == arr@[t]);
                }
            }
        }
        left_w = r.0;
        right_w = r.1;
    }
    let rem: usize = right - left;
    let ghost pre1 = arr@;
    let val: [i32; 16] = load_block_padded(arr, left, rem);
    proof {
        assert(val@.take(rem as int) =~= pre1.subrange(left as int, right as int));
    }
    let r1 = distribute_block(arr, left_w, right_w, &val, rem, pivot);
    proof {
        let le = keep_lanes(val@, rem as int, pivot, true);
        let gt = keep_lanes(val@, rem as int, pivot, false);
        assert(arr@.subrange(lo as int, r1.0 as int) =~= pre1.subrange(lo as int, left_w as int)
            + le);
        assert(arr@.subrange(r1.1 as int, last as int) =~= gt + pre1.subrange(
            right_w as int,
            last as int,
        ));
        vstd::seq_lib::lemma_multiset_commutative(pre1.subrange(lo as int, left_w as int), le);
        vstd::seq_lib::lemma_multiset_commutative(gt, pre1.subrange(right_w as int, last as int));
        assert forall|t: int| lo <= t < r1.0 implies arr@[t] <= pivot by {
            if left_w <= t {
                assert(arr@.subrange(left_w as int, r1.0 as int)[t - left_w] == arr@[t]);
            }
        }
        assert forall|t: int| r1.1 <= t < last implies arr@[t] > pivot by {
            if t < right_w {
                assert(arr@.subrange(r1.1 as int, right_w as int)[t - r1.1] == arr@[t]);
            }
        }
    }
    let ghost pre2 = arr@;
    let r2 = distribute_block(arr, r1.0, r1.1, &lval, 16, pivot);
    proof {
        let le = keep_lanes(lval@, 16, pivot, true);
        let gt = keep_lanes(lval@, 16, pivot, false);
        assert(lval@.take(16) =~= lval@);
        assert(arr@.subrange(lo as int, r2.0 as int) =~= pre2.subrange(lo as int, r1.0 as int)
            + le);
        assert(arr@.subrange(r2.1 as int, last as int) =~= gt + pre2.subrange(
            r1.1 as int,
            last as int,
        ));
        vstd::seq_lib::lemma_multiset_commutative(pre2.subrange(lo as int, r1.0 as int), le);
        vstd::seq_lib::lemma_multiset_commutative(gt, pre2.subrange(r1.1 as int, last as int));
        assert forall|t: int| lo <= t < r2.0 implies arr@[t] <= pivot by {
            if r1.0 <= t {
                assert(arr@.subrange(r1.0 as int, r2.0 as int)[t - r1.0] == arr@[t]);
            }
        }
        assert forall|t: int| r2.1 <= t < last implies arr@[t] > pivot by {
            if t < r1.1 {
                assert(arr@.subrange(r2.1 as int, r1.1 as int)[t - r2.1] == arr@[t]);
            }
        }
    }
    let ghost pre3 = arr@;
    let r3 = distribute_block(arr, r2.0, r2.1, &rval, 16, pivot);
    proof {
        let le = keep_lanes(rval@, 16, pivot, true);
        let gt = keep_lanes(rval@, 16, pivot, false);
        assert(rval@.take(16) =~= rval@);
        assert(arr@.subrange(lo as int, r3.0 as int) =~= pre3.subrange(lo as int, r2.0 as int)
            + le);
        assert(arr@.subrange(r3.1 as int, last as int) =~= gt + pre3.subrange(
            r2.1 as int,
            last as int,
        ));
        vstd::seq_lib::lemma_multiset_commutative(pre3.subrange(lo as int, r2.0 as int), le);
        vstd::seq_lib::lemma_multiset_commutative(gt, pre3.subrange(r2.1 as int, last as int));
        assert forall|t: int| lo <= t < r3.0 implies arr@[t] <= pivot by {
            if r2.0 <= t {
                assert(arr@.subrange(r2.0 as int, r3.0 as int)[t - r2.0] == arr@[t]);
            }
        }
        assert forall|t: int| r3.1 <= t < last implies arr@[t] > pivot by {
            if t < r2.1 {
                assert(arr@.subrange(r3.1 as int, r2.1 as int)[t - r3.1] == arr@[t]);
            }
        }
        assert(r3.0 == r3.1);
        assert(arr@.subrange(lo as int, last as int) =~= arr@.subrange(lo as int, r3.0 as int)
            + arr@.subrange(r3.0 as int, last as int));
        vstd::seq_lib::lemma_multiset_commutative(
            arr@.subrange(lo as int, r3.0 as int),
            arr@.subrange(r3.0 as int, last as int),
        );
        assert(arr@.subrange(lo as int, last as int).to_multiset() == w0.to_multiset());
        assert(arr@.subrange(lo as int, hi as int) =~= arr@.subrange(lo as int, last as int)
            + arr@.subrange(last as int, hi as int));
        assert(old(arr)@.subrange(lo as int, hi as int) =~= w0 + old(arr)@.subrange(
            last as int,
            hi as int,
        ));
        assert(arr@.subrange(last as int, hi as int) =~= old(arr)@.subrange(
            last as int,
            hi as int,
        ));
        vstd::seq_lib::lemma_multiset_commutative(
            arr@.subrange(lo as int, last as int),
            arr@.subrange(last as int, hi as int),
        );
        vstd::seq_lib::lemma_multiset_commutative(w0, old(arr)@.subrange(last as int, hi as int));
    }
    r3.0
}

/// Picks a pivot for the window `lo..hi` by a positional median-of-three
/// rule over the first, middle and last values; returns its index and value.
fn get_pivot(arr: &[i32], lo: usize, hi: usize) -> (r: (usize, i32))
    requires
        lo < hi <= arr@.len(),
    ensures
        lo <= r.0 < hi,
        arr@[r.0 as int] == r.1,
        r.0 == lo || r.0 == lo + (hi - lo) / 2 || r.0 == hi - 1,
{
    let mid: usize = lo + (hi - lo) / 2;
    let right: usize = hi - 1;
    let a = arr[lo];
    let b = arr[mid];
    let c = arr[right];
    if a <= b && b < c {
        (mid, b)
    } else if b <= a && a < c {
        (lo, a)
    } else {
        (right, c)
    }
}

/// Scalar one-sided partition of the window `lo..hi-1` around `pivot`, used
/// for windows too short to pay for the blockwise pass: moves every value at
/// most `pivot` to the front of the window and returns the count of such
/// values. The pivot value itself waits at `hi - 1`.
fn normal_partition(arr: &mut [i32], lo: usize, hi: usize, pivot: i32) -> (part: usize)
    requires
        lo < hi <= old(arr)@.len(),
        old(arr)@[hi - 1] == pivot,
    ensures
        lo <= part < hi,
        final(arr)@.len() == old(arr)@.len(),
        forall|t: int|
            (0 <= t < lo || hi <= t < old(arr)@.len()) ==> final(arr)@[t] == old(arr)@[t],
        final(arr)@.subrange(lo as int, hi as int).to_multiset() == old(arr)@.subrange(
            lo as int,
            hi as int,
        ).to_multiset(),
        forall|t: int| lo <= t < part ==> final(arr)@[t] <= pivot,
        forall|t: int| part <= t < hi - 1 ==> final(arr)@[t] > pivot,
        final(arr)@[hi - 1] == pivot,
{
    let mut i: usize = lo;
    let mut j: usize = lo;
    while j < hi - 1
        invariant
            lo <= i <= j <= hi - 1,
            hi <= arr@.len(),
            arr@.len() == old(arr)@.len(),
            forall|t: int| (0 <= t < lo || hi <= t < arr@.len()) ==> arr@[t] == old(arr)@[t],
            arr@.subrange(lo as int, hi as int).to_multiset() == old(arr)@.subrange(
                lo as int,
                hi as int,
            ).to_multiset(),
            forall|t: int| lo <= t < i ==> arr@[t] <= pivot,
            forall|t: int| i <= t < j ==> arr@[t] > pivot,
            arr@[hi - 1] == pivot,
        decreases hi - 1 - j,
    {
        if arr[j] <= pivot {
            proof {
                lemma_swap_in_window(arr@, lo as int, hi as int, i as int, j as int);
            }
            swap(arr, i, j);
            i += 1;
        }
        j += 1;
    }
    i
}

/// Partitions the window `lo..hi` around a median-of-three pivot: afterwards
/// the returned index holds the pivot, everything before it in the window is
/// at most the pivot and everything after it is larger.
fn partition(arr: &mut [i32], lo: usize, hi: usize) -> (part: usize)
    requires
        lo + 2 <= hi <= old(arr)@.len(),
    ensures
        lo <= part < hi,
        final(arr)@.len() == old(arr)@.len(),
        forall|t: int|
            (0 <= t < lo || hi <= t < old(arr)@.len()) ==> final(arr)@[t] == old(arr)@[t],
        final(arr)@.subrange(lo as int, hi as int).to_multiset() == old(arr)@.subrange(
            lo as int,
            hi as int,
        ).to_multiset(),
        forall|t: int| lo <= t < part ==> final(arr)@[t] <= final(arr)@[part as int],
        forall|t: int| part < t < hi ==> final(arr)@[t] > final(arr)@[part as int],
{
    let (idx, pivot) = get_pivot(arr, lo, hi);
    proof {
        lemma_swap_in_window(arr@, lo as int, hi as int, idx as int, hi - 1);
    }
    swap(arr, idx, hi - 1);
    let part = if hi - lo <= 32 {
        normal_partition(arr, lo, hi, pivot)
    } else {
        vector_partition(arr, lo, hi, pivot)
    };
    proof {
        lemma_swap_in_window(arr@, lo as int, hi as int, part as int, hi - 1);
    }
    swap(arr, part, hi - 1);
    proof {
        assert(arr@[part as int] == pivot);
        assert(arr@.subrange(lo as int, hi as int).to_multiset() == old(arr)@.subrange(
            lo as int,
            hi as int,
        ).to_multiset());
    }
    part
}

/// Sorts the window `lo..hi` in place: short windows go through the bitonic
/// networks, longer ones are partitioned and both sides recursed into.
fn sort_window(arr: &mut [i32], lo: usize, hi: usize)
    requires
        lo <= hi <= old(arr)@.len(),
    ensures
        final(arr)@.len() == old(arr)@.len(),
        forall|t: int|
            (0 <= t < lo || hi <= t < old(arr)@.len()) ==> final(arr)@[t] == old(arr)@[t],
        final(arr)@.subrange(lo as int, hi as int).to_multiset() == old(arr)@.subrange(
            lo as int,
            hi as int,
        ).to_multiset(),
        sorted_range(final(arr)@, lo as int, hi as int),
    decreases hi - lo,
{
    let n: usize = hi - lo;
    if n <= 1 {
        return ;
    }
    if n <= 16 {
        sort_block16(arr, lo, n);
        return ;
    }
    if n <= 32 {
        sort_block32(arr, lo, n);
        return ;
    }
    let ghost pre = arr@;
    let part = partition(arr, lo, hi);
    let ghost mid = arr@;
    let ghost p = mid[part as int];
    sort_window(arr, lo, part);
    let ghost mid2 = arr@;
    proof {
        lemma_submultiset_frame(mid, mid2, lo as int, hi as int, lo as int, part as int);
        assert forall|t: int| lo <= t < part implies mid2[t] <= p by {
            lemma_window_member(mid, mid2, lo as int, part as int, t);
        }
    }
    sort_window(arr, part + 1, hi);
    proof {
        lemma_submultiset_frame(mid2, arr@, lo as int, hi as int, part + 1, hi as int);
        assert forall|t: int| part < t < hi implies arr@[t] > p by {
            lemma_window_member(mid2, arr@, part + 1, hi as int, t);
        }
        assert forall|t: int| lo <= t < part implies arr@[t] <= p by {}
        assert(arr@[part as int] == p);
        assert forall|i: int, j: int| lo <= i < j < hi implies arr@[i] <= arr@[j] by {
            if j <= part {
            } else if i >= part + 1 {
            } else if i < part && j == part {
            } else if i == part {
                assert(arr@[j] > p);
            } else {
                assert(arr@[i] <= p);
                assert(arr@[j] > p);
            }
        }
    }
}

/// Sorts `arr` in place into ascending order; the slice afterwards holds
/// the same multiset of values it held before.
pub fn qsort(arr: &mut [i32])
    ensures
        final(arr)@.len() == old(arr)@.len(),
        final(arr)@.to_multiset() == old(arr)@.to_multiset(),
        sorted(final(arr)@),
{
    let len: usize = arr.len();
    if len <= 1 {
        return ;
    }
    sort_window(arr, 0, len);
    proof {
        assert(arr@.subrange(0, len as int) =~= arr@);
        assert(old(arr)@.subrange(0, len as int) =~= old(arr)@);
    }
}

} // verus!
