//! Three-way (Dutch-flag) quicksort.
//!
//! `partition3` splits a window into values below, equal to and above a
//! pivot; the driver recurses into the smaller part and iterates on the
//! larger one, which bounds the recursion depth logarithmically.

use crate::qsort::lemma_submultiset_frame;
use crate::qsort::lemma_swap_in_window;
use crate::qsort::lemma_window_member;
use crate::qsort::sorted;
use crate::qsort::sorted_range;
use crate::qsort::swap;
use vstd::prelude::*;

verus! {

/// Partitions the window `low..=high` around the pivot value `old(v)[high]`.
///
/// Returns `(lt, gt)` such that, writing `p` for the pivot, the window holds
/// values below `p` in `low..lt`, values equal to `p` in `lt..=gt`, and
/// values above `p` in `gt+1..=high`; the window keeps its multiset of
/// values and nothing outside it moves.
fn partition3(v: &mut [i32], low: usize, high: usize) -> (r: (usize, usize))
    requires
        low <= high < old(v)@.len(),
    ensures
        low <= r.0 <= r.1 <= high,
        final(v)@.len() == old(v)@.len(),
        forall|t: int| 0 <= t < low ==> final(v)@[t] == old(v)@[t],
        forall|t: int| high < t < old(v)@.len() ==> final(v)@[t] == old(v)@[t],
        final(v)@.to_multiset() == old(v)@.to_multiset(),
        final(v)@.subrange(low as int, high + 1).to_multiset() == old(v)@.subrange(
            low as int,
            high + 1,
        ).to_multiset(),
        forall|t: int| low <= t < r.0 ==> final(v)@[t] < old(v)@[high as int],
        forall|t: int| r.0 <= t <= r.1 ==> final(v)@[t] == old(v)@[high as int],
        forall|t: int| r.1 < t <= high ==> final(v)@[t] > old(v)@[high as int],
{
    let p: i32 = v[high];
    let mut i: usize = low;
    let mut j: usize = low;
    let mut k: usize = high;

    while j <= k
        invariant
            low <= i <= j,
            j <= k + 1,
            k <= high < v@.len(),
            v@.len() == old(v)@.len(),
            p == old(v)@[high as int],
            forall|t: int| 0 <= t < low ==> v@[t] == old(v)@[t],
            forall|t: int| high < t < v@.len() ==> v@[t] == old(v)@[t],
            v@.to_multiset() == old(v)@.to_multiset(),
            v@.subrange(low as int, high + 1).to_multiset() == old(v)@.subrange(
                low as int,
                high + 1,
            ).to_multiset(),
            forall|t: int| low <= t < i ==> v@[t] < p,
            forall|t: int| i <= t < j ==> v@[t] == p,
            forall|t: int| k < t <= high ==> v@[t] > p,
            i == j ==> exists|t: int| j <= t <= k && v@[t] == p,
        decreases k + 1 - j,
    {
        let e: i32 = v[j];
        if e < p {
            let ghost pre = v@;
            proof {
                lemma_swap_in_window(v@, low as int, high + 1, i as int, j as int);
            }
            swap(v, i, j);
            proof {
                if i == j {
                    assert(v@ =~= pre);
                    let t0 = choose|t: int| j <= t <= k && pre[t] == p;
                    assert(j + 1 <= t0 <= k && v@[t0] == p);
                }
            }
            i += 1;
            j += 1;
        } else if e > p {
            proof {
                if i == j {
                    let t0 = choose|t: int| j <= t <= k && v@[t] == p;
                    assert(t0 >= j + 1);
                }
                lemma_swap_in_window(v@, low as int, high + 1, k as int, j as int);
            }
            let ghost pre = v@;
            swap(v, k, j);
            proof {
                if i == j {
                    let t0 = choose|t: int| j <= t <= k && pre[t] == p;
                    if t0 == k {
                        assert(v@[j as int] == p);
                    } else {
                        assert(v@[t0] == p);
                    }
                }
            }
            k -= 1;
        } else {
            j += 1;
        }
    }
    proof {
        if i == j {
            let t0 = choose|t: int| j <= t <= k && v@[t] == p;
            assert(false);
        }
    }
    (i, k)
}

/// Sorts the window `low0..=high0` of `v` in place into ascending order,
/// keeping the window's multiset of values and leaving the rest of the slice
/// untouched.
fn sort_range(v: &mut [i32], low0: usize, high0: usize)
    requires
        low0 <= high0 < old(v)@.len(),
    ensures
        final(v)@.len() == old(v)@.len(),
        forall|t: int| 0 <= t < low0 ==> final(v)@[t] == old(v)@[t],
        forall|t: int| high0 < t < old(v)@.len() ==> final(v)@[t] == old(v)@[t],
        final(v)@.to_multiset() == old(v)@.to_multiset(),
        final(v)@.subrange(low0 as int, high0 + 1).to_multiset() == old(v)@.subrange(
            low0 as int,
            high0 + 1,
        ).to_multiset(),
        sorted_range(final(v)@, low0 as int, high0 + 1),
    decreases high0 - low0,
{
    let mut low: usize = low0;
    let mut high: usize = high0;
    while low < high
        invariant
            low0 <= low,
            high <= high0,
            low <= high + 1,
            high0 < v@.len(),
            v@.len() == old(v)@.len(),
            forall|t: int| 0 <= t < low0 ==> v@[t] == old(v)@[t],
            forall|t: int| high0 < t < v@.len() ==> v@[t] == old(v)@[t],
            v@.to_multiset() == old(v)@.to_multiset(),
            v@.subrange(low0 as int, high0 + 1).to_multiset() == old(v)@.subrange(
                low0 as int,
                high0 + 1,
            ).to_multiset(),
            forall|a: int, b: int|
                low0 <= a < b <= high0 && !(low <= a && b <= high) ==> v@[a] <= v@[b],
        decreases high - low,
    {
        let ghost pre = v@;
        let ghost p = pre[high as int];
        let (lt, gt) = partition3(v, low, high);
        let ghost mid = v@;
        proof {
            lemma_submultiset_frame(
                pre,
                mid,
                low0 as int,
                high0 + 1,
                low as int,
                high + 1,
            );
        }
        if lt - low < high - gt {
            sort_range(v, low, lt);
            proof {
                lemma_submultiset_frame(
                    mid,
                    v@,
                    low0 as int,
                    high0 + 1,
                    low as int,
                    lt + 1,
                );
                lemma_window_values(pre, mid, v@, low as int, lt as int, gt as int, high as int, p);
            }
            low = lt + 1;
        } else {
            proof {
                if gt == low {
                    assert(lt == low);
                    assert(false);
                }
            }
            sort_range(v, gt, high);
            proof {
                lemma_submultiset_frame(
                    mid,
                    v@,
                    low0 as int,
                    high0 + 1,
                    gt as int,
                    high + 1,
                );
                lemma_window_values_rev(
                    pre,
                    mid,
                    v@,
                    low as int,
                    lt as int,
                    gt as int,
                    high as int,
                    p,
                );
            }
            high = gt - 1;
        }
    }
}

/// After partitioning `pre` into `mid` over the window `low..=high` and
/// sorting `mid`'s left part `low..=lt` into `post`, every pair of positions
/// not both inside the remaining window `lt+1..=high` is ordered, provided
/// every such pair of `pre` outside the full window was.
proof fn lemma_window_values(
    pre: Seq<i32>,
    mid: Seq<i32>,
    post: Seq<i32>,
    low: int,
    lt: int,
    gt: int,
    high: int,
    p: i32,
)
    requires
        0 <= low <= lt <= gt <= high < pre.len(),
        mid.len() == pre.len(),
        post.len() == pre.len(),
        p == pre[high],
        forall|t: int| #![auto] 0 <= t < low ==> mid[t] == pre[t],
        forall|t: int| #![auto] high < t < pre.len() ==> mid[t] == pre[t],
        mid.subrange(low, high + 1).to_multiset() == pre.subrange(low, high + 1).to_multiset(),
        forall|t: int| low <= t < lt ==> mid[t] < p,
        forall|t: int| lt <= t <= gt ==> mid[t] == p,
        forall|t: int| gt < t <= high ==> mid[t] > p,
        forall|t: int| #![auto] 0 <= t < low ==> post[t] == mid[t],
        forall|t: int| #![auto] lt < t < pre.len() ==> post[t] == mid[t],
        post.subrange(low, lt + 1).to_multiset() == mid.subrange(low, lt + 1).to_multiset(),
        sorted_range(post, low, lt + 1),
    ensures
        forall|a: int, b: int|
            low <= a < b <= high && !(lt + 1 <= a && b <= high) ==> post[a] <= post[b],
        forall|t: int| #![trigger post[t]]
            low <= t <= high ==> exists|u: int| low <= u <= high && pre[u] == post[t],
        forall|t: int| low <= t <= lt ==> post[t] <= p,
        forall|t: int| lt < t <= high ==> post[t] >= p,
{
    assert forall|t: int| low <= t <= lt implies post[t] <= p && (exists|u: int|
        low <= u <= high && pre[u] == post[t]) by {
        lemma_window_member(mid, post, low, lt + 1, t);
        let u1 = choose|u: int| low <= u < lt + 1 && mid[u] == post[t];
        assert(post[t] <= p);
        lemma_window_member(pre, mid, low, high + 1, u1);
        let u2 = choose|u: int| low <= u < high + 1 && pre[u] == mid[u1];
        assert(low <= u2 <= high && pre[u2] == post[t]);
    }
    assert forall|t: int| lt < t <= high implies post[t] >= p && (exists|u: int|
        low <= u <= high && pre[u] == post[t]) by {
        assert(post[t] == mid[t]);
        lemma_window_member(pre, mid, low, high + 1, t);
        let u2 = choose|u: int| low <= u < high + 1 && pre[u] == mid[t];
        assert(low <= u2 <= high && pre[u2] == post[t]);
    }
}

/// The mirror image of `lemma_window_values`: the right part `gt..=high` of
/// the partitioned window has been sorted, and the remaining window is
/// `low..=gt-1`.
proof fn lemma_window_values_rev(
    pre: Seq<i32>,
    mid: Seq<i32>,
    post: Seq<i32>,
    low: int,
    lt: int,
    gt: int,
    high: int,
    p: i32,
)
    requires
        0 <= low <= lt <= gt <= high < pre.len(),
        mid.len() == pre.len(),
        post.len() == pre.len(),
        p == pre[high],
        forall|t: int| #![auto] 0 <= t < low ==> mid[t] == pre[t],
        forall|t: int| #![auto] high < t < pre.len() ==> mid[t] == pre[t],
        mid.subrange(low, high + 1).to_multiset() == pre.subrange(low, high + 1).to_multiset(),
        forall|t: int| low <= t < lt ==> mid[t] < p,
        forall|t: int| lt <= t <= gt ==> mid[t] == p,
        forall|t: int| gt < t <= high ==> mid[t] > p,
        forall|t: int| #![auto] 0 <= t < gt ==> post[t] == mid[t],
        forall|t: int| #![auto] high < t < pre.len() ==> post[t] == mid[t],
        post.subrange(gt, high + 1).to_multiset() == mid.subrange(gt, high + 1).to_multiset(),
        sorted_range(post, gt, high + 1),
    ensures
        forall|a: int, b: int|
            low <= a < b <= high && !(a >= low && b <= gt - 1) ==> post[a] <= post[b],
        forall|t: int| #![trigger post[t]]
            low <= t <= high ==> exists|u: int| low <= u <= high && pre[u] == post[t],
        forall|t: int| low <= t < gt ==> post[t] <= p,
        forall|t: int| gt <= t <= high ==> post[t] >= p,
{
    assert forall|t: int| gt <= t <= high implies post[t] >= p && (exists|u: int|
        low <= u <= high && pre[u] == post[t]) by {
        lemma_window_member(mid, post, gt, high + 1, t);
        let u1 = choose|u: int| gt <= u < high + 1 && mid[u] == post[t];
        assert(post[t] >= p);
        lemma_window_member(pre, mid, low, high + 1, u1);
        let u2 = choose|u: int| low <= u < high + 1 && pre[u] == mid[u1];
        assert(low <= u2 <= high && pre[u2] == post[t]);
    }
    assert forall|t: int| low <= t < gt implies post[t] <= p && (exists|u: int|
        low <= u <= high && pre[u] == post[t]) by {
        assert(post[t] == mid[t]);
        lemma_window_member(pre, mid, low, high + 1, t);
        let u2 = choose|u: int| low <= u < high + 1 && pre[u] == mid[t];
        assert(low <= u2 <= high && pre[u2] == post[t]);
    }
}

/// Sorts `v` in place into ascending order; the slice afterwards holds the
/// same multiset of values it held before.
pub fn qsort(v: &mut [i32])
    ensures
        final(v)@.len() == old(v)@.len(),
        final(v)@.to_multiset() == old(v)@.to_multiset(),
        sorted(final(v)@),
{
    let len: usize = v.len();
    if len <= 1 {
        return ;
    }
    sort_range(v, 0, len - 1);
}

} // verus!
