//! In-place ascending sorts of `i32` slices.
//!
//! `normal` is a three-way (Dutch-flag) quicksort; `lanes` is a lane-level
//! formulation of a blocked hybrid sort: bitonic networks over 16-lane blocks
//! for short slices and a two-ended blockwise partition driving a recursive
//! quicksort for longer ones. Both reorder their input into ascending order
//! while preserving its multiset of values.

pub mod lanes;
pub mod normal;

use vstd::prelude::*;

verus! {

/// The values of `s` are in ascending order.
pub open spec fn sorted(s: Seq<i32>) -> bool {
    forall|i: int, j: int| 0 <= i < j < s.len() ==> s[i] <= s[j]
}

/// The values of `s` restricted to index range `lo..hi` are in ascending order.
pub open spec fn sorted_range(s: Seq<i32>, lo: int, hi: int) -> bool {
    forall|i: int, j: int| lo <= i < j < hi ==> s[i] <= s[j]
}

/// Exchanges the values at indices `i` and `j`.
pub fn swap(v: &mut [i32], i: usize, j: usize)
    requires
        i < old(v)@.len(),
        j < old(v)@.len(),
    ensures
        final(v)@ == old(v)@.update(i as int, old(v)@[j as int]).update(
            j as int,
            old(v)@[i as int],
        ),
        final(v)@.to_multiset() == old(v)@.to_multiset(),
{
    proof {
        lemma_swap_preserves_multiset(v@, i as int, j as int);
    }
    let a = v[i];
    let b = v[j];
    v[i] = b;
    v[j] = a;
}

/// A swap of two positions inside the window `lo..hi` acts as the same swap
/// on the window's subrange, so the subrange keeps its multiset of values.
pub proof fn lemma_swap_in_window(s: Seq<i32>, lo: int, hi: int, i: int, j: int)
    requires
        0 <= lo <= i < hi <= s.len(),
        lo <= j < hi,
    ensures
        s.update(i, s[j]).update(j, s[i]).subrange(lo, hi) == s.subrange(lo, hi).update(
            i - lo,
            s[j],
        ).update(j - lo, s[i]),
        s.update(i, s[j]).update(j, s[i]).subrange(lo, hi).to_multiset() == s.subrange(
            lo,
            hi,
        ).to_multiset(),
{
    let w = s.subrange(lo, hi);
    assert(s.update(i, s[j]).update(j, s[i]).subrange(lo, hi) =~= w.update(i - lo, s[j]).update(
        j - lo,
        s[i],
    ));
    assert(w[i - lo] == s[i] && w[j - lo] == s[j]);
    lemma_swap_preserves_multiset(w, i - lo, j - lo);
}

/// When two sequences agree pointwise on `lo..hi` except inside an inner
/// window `lo2..hi2` whose multiset of values they share, they share the
/// multiset of the whole range `lo..hi` too.
pub proof fn lemma_submultiset_frame(
    s1: Seq<i32>,
    s2: Seq<i32>,
    lo: int,
    hi: int,
    lo2: int,
    hi2: int,
)
    requires
        0 <= lo <= lo2 <= hi2 <= hi <= s1.len(),
        s1.len() == s2.len(),
        forall|t: int| lo <= t < lo2 ==> s1[t] == s2[t],
        forall|t: int| hi2 <= t < hi ==> s1[t] == s2[t],
        s1.subrange(lo2, hi2).to_multiset() == s2.subrange(lo2, hi2).to_multiset(),
    ensures
        s1.subrange(lo, hi).to_multiset() == s2.subrange(lo, hi).to_multiset(),
{
    assert(s1.subrange(lo, hi) =~= s1.subrange(lo, lo2) + s1.subrange(lo2, hi2) + s1.subrange(
        hi2,
        hi,
    ));
    assert(s2.subrange(lo, hi) =~= s2.subrange(lo, lo2) + s2.subrange(lo2, hi2) + s2.subrange(
        hi2,
        hi,
    ));
    assert(s1.subrange(lo, lo2) =~= s2.subrange(lo, lo2));
    assert(s1.subrange(hi2, hi) =~= s2.subrange(hi2, hi));
    vstd::seq_lib::lemma_multiset_commutative(
        s1.subrange(lo, lo2) + s1.subrange(lo2, hi2),
        s1.subrange(hi2, hi),
    );
    vstd::seq_lib::lemma_multiset_commutative(s1.subrange(lo, lo2), s1.subrange(lo2, hi2));
    vstd::seq_lib::lemma_multiset_commutative(
        s2.subrange(lo, lo2) + s2.subrange(lo2, hi2),
        s2.subrange(hi2, hi),
    );
    vstd::seq_lib::lemma_multiset_commutative(s2.subrange(lo, lo2), s2.subrange(lo2, hi2));
}

/// When two sequences agree on the multiset of a common window, every value
/// the second holds in the window also occurs somewhere in the first's window.
pub proof fn lemma_window_member(s1: Seq<i32>, s2: Seq<i32>, lo: int, hi: int, t: int)
    requires
        0 <= lo <= t < hi <= s1.len(),
        s1.len() == s2.len(),
        s1.subrange(lo, hi).to_multiset() == s2.subrange(lo, hi).to_multiset(),
    ensures
        exists|u: int| lo <= u < hi && s1[u] == s2[t],
{
    broadcast use vstd::seq_lib::group_to_multiset_ensures;

    let w1 = s1.subrange(lo, hi);
    let w2 = s2.subrange(lo, hi);
    assert(w2[t - lo] == s2[t]);
    assert(w2.contains(s2[t]));
    assert(w1.to_multiset().count(s2[t]) > 0);
    assert(w1.contains(s2[t]));
    let u0 = choose|u: int| 0 <= u < w1.len() && w1[u] == s2[t];
    assert(s1[lo + u0] == s2[t]);
}

/// Two ascending sequences with the same multiset of values are equal: a
/// multiset of 32-bit integers has exactly one ascending arrangement.
pub proof fn lemma_sorted_permutation_unique(x: Seq<i32>, y: Seq<i32>)
    requires
        sorted(x),
        sorted(y),
        x.to_multiset() == y.to_multiset(),
    ensures
        x == y,
{
    let leq = |a: i32, b: i32| a <= b;
    assert(vstd::relations::total_ordering(leq)) by {
        assert forall|a: i32, b: i32, c: i32| #[trigger]
            leq(a, b) && #[trigger] leq(b, c) implies #[trigger] leq(a, c) by {}
    }
    assert(vstd::relations::sorted_by(x, leq));
    assert(vstd::relations::sorted_by(y, leq));
    vstd::seq_lib::lemma_sorted_unique(x, y, leq);
    assert(x =~= y);
}

/// In an ascending chain of neighbours every earlier value is at most every
/// later one.
proof fn lemma_le_chain(s: Seq<i32>, i: int, j: int)
    requires
        forall|t: int| #![trigger s[t]] 0 <= t < s.len() - 1 ==> s[t] <= s[t + 1],
        0 <= i <= j < s.len(),
    ensures
        s[i] <= s[j],
    decreases j - i,
{
    if i < j {
        lemma_le_chain(s, i, j - 1);
        assert(s[j - 1] <= s[j]);
    }
}

/// A sequence whose neighbouring values are pairwise ordered is sorted.
pub proof fn lemma_adjacent_implies_sorted(s: Seq<i32>)
    requires
        forall|t: int| #![trigger s[t]] 0 <= t < s.len() - 1 ==> s[t] <= s[t + 1],
    ensures
        sorted(s),
{
    assert forall|i: int, j: int| 0 <= i < j < s.len() implies s[i] <= s[j] by {
        lemma_le_chain(s, i, j);
    }
}

/// Exchanging two positions of a sequence leaves its multiset of values
/// unchanged.
pub proof fn lemma_swap_preserves_multiset(s: Seq<i32>, i: int, j: int)
    requires
        0 <= i < s.len(),
        0 <= j < s.len(),
    ensures
        s.update(i, s[j]).update(j, s[i]).to_multiset() == s.to_multiset(),
{
    broadcast use vstd::seq_lib::group_to_multiset_ensures;

    let t = s.update(i, s[j]);
    if i == j {
        assert(t.update(j, s[i]) =~= s);
    } else {
        assert(t[i] == s[j]);
        assert(s.to_multiset().contains(s[i]));
        assert(t.to_multiset() =~= s.to_multiset().insert(s[j]).remove(s[i]));
        assert(t.update(j, s[i]).to_multiset() =~= t.to_multiset().insert(s[i]).remove(t[j]));
        assert(t[j] == s[j]);
        assert(s.to_multiset().insert(s[j]).remove(s[i]).insert(s[i]).remove(s[j])
            =~= s.to_multiset());
    }
}

} // verus!
