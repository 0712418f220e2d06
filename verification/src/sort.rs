//! The partition-exchange sort core: the Lomuto partition step and the
//! specifications shared by the sorting and session modules.

use vstd::prelude::*;
use vstd::seq_lib::group_to_multiset_ensures;
use vstd::seq_lib::lemma_multiset_commutative;
use vstd::multiset::group_multiset_axioms;
use crate::sink::FrameSink;

verus! {

/// A sequence is sorted in non-decreasing order.
pub open spec fn sorted(s: Seq<u64>) -> bool {
    forall|i: int, j: int| 0 <= i <= j < s.len() ==> s[i] <= s[j]
}

/// Exchange the elements at positions `i` and `j`.
fn swap_elems(arr: &mut Vec<u64>, i: usize, j: usize)
    requires
        i < old(arr).len(),
        j < old(arr).len(),
    ensures
        final(arr)@ == old(arr)@.update(i as int, old(arr)@[j as int]).update(
            j as int,
            old(arr)@[i as int],
        ),
{
    let vi = arr[i];
    let vj = arr[j];
    arr.set(i, vj);
    arr.set(j, vi);
}

/// Exchanging two elements inside `[lo, hi)` leaves the multiset of that
/// subrange unchanged.
proof fn lemma_swap_subrange_multiset(s: Seq<u64>, lo: int, hi: int, i: int, j: int)
    requires
        0 <= lo <= i < hi <= s.len(),
        lo <= j < hi,
    ensures
        s.update(i, s[j]).update(j, s[i]).subrange(lo, hi).to_multiset() == s.subrange(
            lo,
            hi,
        ).to_multiset(),
{
    broadcast use group_to_multiset_ensures;
    broadcast use group_multiset_axioms;

    let t = s.subrange(lo, hi);
    let u = s.update(i, s[j]).update(j, s[i]).subrange(lo, hi);
    let a = i - lo;
    let b = j - lo;
    assert(u =~= t.update(a, t[b]).update(b, t[a]));
    if i == j {
        assert(t.update(a, t[b]).update(b, t[a]) =~= t);
    } else if t[a] == t[b] {
        assert(t.update(a, t[b]).update(b, t[a]) =~= t);
    } else {
        let t1 = t.update(a, t[b]);
        let t2 = t1.update(b, t[a]);
        assert(t.contains(t[a]));
        assert(t.contains(t[b]));
        assert(t.to_multiset().count(t[a]) > 0);
        assert(t.to_multiset().count(t[b]) > 0);
        assert(t1.to_multiset() == t.to_multiset().insert(t[b]).remove(t[a]));
        assert(t1[b] == t[b]);
        assert(t2.to_multiset() == t1.to_multiset().insert(t[a]).remove(t[b]));
        assert(t2.to_multiset() =~= t.to_multiset());
    }
    assert(u.to_multiset() == t.to_multiset());
}

/// One Lomuto partition step over the inclusive bounds `[left, right]`: the
/// rightmost element is the pivot; afterwards every element left of the
/// returned index is at most the pivot and every element right of it is at
/// least the pivot, the subrange keeps its multiset of values, and nothing
/// outside the bounds moves. On an already-sorted subrange the pivot stays
/// put and the whole sequence is unchanged.
pub fn partition(arr: &mut Vec<u64>, left: usize, right: usize) -> (p: usize)
    requires
        left <= right < old(arr).len(),
    ensures
        left <= p <= right,
        final(arr)@.len() == old(arr)@.len(),
        forall|k: int| 0 <= k < left ==> final(arr)@[k] == old(arr)@[k],
        forall|k: int| right < k < final(arr)@.len() ==> final(arr)@[k] == old(arr)@[k],
        final(arr)@.subrange(left as int, right + 1).to_multiset() == old(arr)@.subrange(
            left as int,
            right + 1,
        ).to_multiset(),
        forall|k: int| left <= k < p ==> final(arr)@[k] <= final(arr)@[p as int],
        forall|k: int| p < k <= right ==> final(arr)@[k] >= final(arr)@[p as int],
        sorted(old(arr)@.subrange(left as int, right + 1)) ==> (p == right && final(arr)@ == old(
            arr,
        )@),
{
    let ghost orig: Seq<u64> = arr@;
    let mut i: usize = left;
    let mut j: usize = left;
    while j < right
        invariant
            left <= i <= j <= right < arr@.len(),
            arr@.len() == orig.len(),
            forall|k: int| 0 <= k < left ==> arr@[k] == orig[k],
            forall|k: int| right < k < arr@.len() ==> arr@[k] == orig[k],
            arr@[right as int] == orig[right as int],
            arr@.subrange(left as int, right + 1).to_multiset() == orig.subrange(
                left as int,
                right + 1,
            ).to_multiset(),
            forall|k: int| left <= k < i ==> arr@[k] <= arr@[right as int],
            forall|k: int| i <= k < j ==> arr@[k] > arr@[right as int],
            sorted(orig.subrange(left as int, right + 1)) ==> (i == j && arr@ == orig),
        decreases right - j,
    {
        if arr[j] <= arr[right] {
            proof {
                lemma_swap_subrange_multiset(arr@, left as int, right + 1, i as int, j as int);
                if sorted(orig.subrange(left as int, right + 1)) {
                    assert(arr@.update(i as int, arr@[j as int]).update(
                        j as int,
                        arr@[i as int],
                    ) =~= arr@);
                }
            }
            swap_elems(arr, i, j);
            i = i + 1;
        } else {
            proof {
                if sorted(orig.subrange(left as int, right + 1)) {
                    let sub = orig.subrange(left as int, right + 1);
                    assert(sub[j - left] == arr@[j as int]);
                    assert(sub[right - left] == arr@[right as int]);
                    assert(sub[j - left] <= sub[right - left]);
                    assert(false);
                }
            }
        }
        j = j + 1;
    }
    proof {
        lemma_swap_subrange_multiset(arr@, left as int, right + 1, i as int, right as int);
        if sorted(orig.subrange(left as int, right + 1)) {
            assert(arr@.update(i as int, arr@[right as int]).update(
                right as int,
                arr@[i as int],
            ) =~= arr@);
        }
    }
    swap_elems(arr, i, right);
    i
}

/// The most frames one sort pass over a range of `m` elements can emit:
/// every call renders once, an empty range still renders once, and the
/// call tree over `m` elements has at most `2 * m - 1` nodes.
pub open spec fn max_frames(m: nat) -> nat {
    if m == 0 {
        1
    } else {
        (2 * m - 1) as nat
    }
}

/// The fewest frames one sort pass over a range of `m` elements can emit.
pub open spec fn min_frames(m: nat) -> nat {
    if m == 0 {
        1
    } else {
        m
    }
}

/// The multiset of a subrange splits at any midpoint.
proof fn lemma_subrange_split_multiset(s: Seq<u64>, lo: int, mid: int, hi: int)
    requires
        0 <= lo <= mid <= hi <= s.len(),
    ensures
        s.subrange(lo, hi).to_multiset() == s.subrange(lo, mid).to_multiset().add(
            s.subrange(mid, hi).to_multiset(),
        ),
{
    assert(s.subrange(lo, hi) =~= s.subrange(lo, mid) + s.subrange(mid, hi));
    lemma_multiset_commutative(s.subrange(lo, mid), s.subrange(mid, hi));
}

/// A sequence with the same multiset as one bounded above by `v` is itself
/// bounded above by `v`.
proof fn lemma_multiset_le(s1: Seq<u64>, s2: Seq<u64>, v: u64)
    requires
        s1.to_multiset() == s2.to_multiset(),
        forall|k: int| 0 <= k < s1.len() ==> s1[k] <= v,
    ensures
        forall|k: int| 0 <= k < s2.len() ==> s2[k] <= v,
{
    broadcast use group_to_multiset_ensures;

    assert forall|k: int| 0 <= k < s2.len() implies s2[k] <= v by {
        assert(s2.contains(s2[k]));
        assert(s2.to_multiset().count(s2[k]) > 0);
        assert(s1.to_multiset().count(s2[k]) > 0);
        assert(s1.contains(s2[k]));
        let k1 = choose|k1: int| 0 <= k1 < s1.len() && s1[k1] == s2[k];
        assert(s1[k1] <= v);
    }
}

/// A sequence with the same multiset as one bounded below by `v` is itself
/// bounded below by `v`.
proof fn lemma_multiset_ge(s1: Seq<u64>, s2: Seq<u64>, v: u64)
    requires
        s1.to_multiset() == s2.to_multiset(),
        forall|k: int| 0 <= k < s1.len() ==> s1[k] >= v,
    ensures
        forall|k: int| 0 <= k < s2.len() ==> s2[k] >= v,
{
    broadcast use group_to_multiset_ensures;

    assert forall|k: int| 0 <= k < s2.len() implies s2[k] >= v by {
        assert(s2.contains(s2[k]));
        assert(s2.to_multiset().count(s2[k]) > 0);
        assert(s1.to_multiset().count(s2[k]) > 0);
        assert(s1.contains(s2[k]));
        let k1 = choose|k1: int| 0 <= k1 < s1.len() && s1[k1] == s2[k];
        assert(s1[k1] >= v);
    }
}

/// Sort the half-open range `[lo, hi)` in place, rendering one frame at the
/// head of every recursive call — before the range is even inspected — so
/// the animation shows the array evolving partition by partition.
#[verifier::rlimit(50)]
fn sort_range<S: FrameSink>(arr: &mut Vec<u64>, sink: &mut S, lo: usize, hi: usize)
    requires
        lo <= hi <= old(arr).len(),
    ensures
        final(arr)@.len() == old(arr)@.len(),
        forall|k: int| 0 <= k < lo ==> final(arr)@[k] == old(arr)@[k],
        forall|k: int| hi <= k < final(arr)@.len() ==> final(arr)@[k] == old(arr)@[k],
        final(arr)@.subrange(lo as int, hi as int).to_multiset() == old(arr)@.subrange(
            lo as int,
            hi as int,
        ).to_multiset(),
        sorted(final(arr)@.subrange(lo as int, hi as int)),
        final(sink).frames().len() >= old(sink).frames().len() + min_frames((hi - lo) as nat),
        final(sink).frames().len() <= old(sink).frames().len() + max_frames((hi - lo) as nat),
        forall|k: int|
            0 <= k < old(sink).frames().len() ==> final(sink).frames()[k] == old(
                sink,
            ).frames()[k],
        final(sink).frames()[old(sink).frames().len() as int] == old(arr)@,
        hi - lo <= 1 ==> (final(arr)@ == old(arr)@ && final(sink).frames() == old(
            sink,
        ).frames().push(old(arr)@)),
        sorted(old(arr)@.subrange(lo as int, hi as int)) ==> (final(arr)@ == old(arr)@ && final(sink).frames().len() == old(sink).frames().len() + max_frames((hi - lo) as nat)),
    decreases hi - lo,
{
    let ghost a0 = arr@;
    let ghost f0 = sink.frames();
    sink.render(arr);
    if hi - lo >= 2 {
        let ghost sorted_in = sorted(a0.subrange(lo as int, hi as int));
        proof {
            if sorted_in {
                let sub = a0.subrange(lo as int, hi as int);
                let sub1 = a0.subrange(lo as int, hi - 1);
                assert forall|x: int, y: int| #![trigger sub1[x], sub1[y]]
                    0 <= x <= y < sub1.len() implies sub1[x] <= sub1[y] by {
                    assert(sub[x] <= sub[y]);
                }
                assert(sorted(sub1));
            }
        }
        let p = partition(arr, lo, hi - 1);
        let ghost a1 = arr@;
        let ghost f1 = sink.frames();
        let ghost pv = a1[p as int];
        proof {
            if sorted_in {
                assert(a1.subrange(lo as int, p as int) =~= a0.subrange(lo as int, hi - 1));
            }
        }
        sort_range(arr, sink, lo, p);
        let ghost a2 = arr@;
        let ghost f2 = sink.frames();
        proof {
            // The left recursion did not move the pivot or the right side.
            assert(a2.subrange(p as int, hi as int) =~= a1.subrange(p as int, hi as int));
            assert(a2.subrange(p + 1, hi as int) =~= a1.subrange(p + 1, hi as int));
            lemma_subrange_split_multiset(a1, lo as int, p as int, hi as int);
            lemma_subrange_split_multiset(a2, lo as int, p as int, hi as int);
            assert(a2.subrange(lo as int, hi as int).to_multiset() == a1.subrange(
                lo as int,
                hi as int,
            ).to_multiset());
        }
        sort_range(arr, sink, p + 1, hi);
        let ghost a3 = arr@;
        let ghost f3 = sink.frames();
        proof {
            // The right recursion did not move the pivot or the left side.
            assert(a3.subrange(lo as int, p + 1) =~= a2.subrange(lo as int, p + 1));
            assert(a3.subrange(lo as int, p as int) =~= a2.subrange(lo as int, p as int));
            lemma_subrange_split_multiset(a2, lo as int, p + 1, hi as int);
            lemma_subrange_split_multiset(a3, lo as int, p + 1, hi as int);
            assert(a3.subrange(lo as int, hi as int).to_multiset() == a2.subrange(
                lo as int,
                hi as int,
            ).to_multiset());
            assert(a3[p as int] == pv);

            // Values left of the pivot stay at most the pivot, values right
            // of it stay at least the pivot, through the recursions.
            assert(forall|k: int| 0 <= k < a1.subrange(lo as int, p as int).len()
                ==> #[trigger] a1.subrange(lo as int, p as int)[k] <= pv);
            lemma_multiset_le(
                a1.subrange(lo as int, p as int),
                a3.subrange(lo as int, p as int),
                pv,
            );
            assert(forall|k: int| 0 <= k < a1.subrange(p + 1, hi as int).len()
                ==> #[trigger] a1.subrange(p + 1, hi as int)[k] >= pv);
            lemma_multiset_ge(
                a1.subrange(p + 1, hi as int),
                a3.subrange(p + 1, hi as int),
                pv,
            );

            let whole = a3.subrange(lo as int, hi as int);
            let lpart = a3.subrange(lo as int, p as int);
            let rpart = a3.subrange(p + 1, hi as int);
            assert(sorted(lpart)) by {
                assert(lpart =~= a2.subrange(lo as int, p as int));
            }
            assert(sorted(rpart));
            assert forall|x: int, y: int| 0 <= x <= y < whole.len() implies whole[x] <= whole[y] by {
                let gx = lo + x;
                let gy = lo + y;
                if gy < p {
                    assert(lpart[x] == whole[x] && lpart[y] == whole[y]);
                } else if gx < p && gy == p {
                    assert(lpart[x] == whole[x]);
                } else if gx < p && gy > p {
                    assert(lpart[x] == whole[x]);
                    assert(rpart[gy - (p + 1)] == whole[y]);
                } else if gx == p && gy == p {
                } else if gx == p && gy > p {
                    assert(rpart[gy - (p + 1)] == whole[y]);
                } else {
                    assert(rpart[gx - (p + 1)] == whole[x]);
                    assert(rpart[gy - (p + 1)] == whole[y]);
                }
            }

            // Frame accounting.
            assert(f1 == f0.push(a0));
            assert(f3.len() >= f0.len() + min_frames((hi - lo) as nat));
            assert(f3.len() <= f0.len() + max_frames((hi - lo) as nat));
            assert(f3[f0.len() as int] == a0);

            if sorted_in {
                assert(a1 == a0 && p == hi - 1);
                assert(a2 == a1);
                assert(a3 == a2);
                assert(f2.len() == f1.len() + max_frames((p - lo) as nat));
                assert(f3.len() == f2.len() + 1);
                assert(f3.len() == f0.len() + max_frames((hi - lo) as nat));
            }
        }
    } else {
        proof {
            assert(arr@ == a0);
            assert(sorted(arr@.subrange(lo as int, hi as int)));
            assert(arr@.subrange(lo as int, hi as int).to_multiset() == a0.subrange(
                lo as int,
                hi as int,
            ).to_multiset());
        }
    }
}

/// Two sorted sequences holding the same multiset of values are the same
/// sequence. With the sort's contract this pins the sorted result down as a
/// value: sorting a dataset twice, or sorting one that is already sorted,
/// can only reproduce it.
pub proof fn lemma_sorted_permutation_unique(x: Seq<u64>, y: Seq<u64>)
    requires
        sorted(x),
        sorted(y),
        x.to_multiset() == y.to_multiset(),
    ensures
        x == y,
{
    let leq = |a: u64, b: u64| a <= b;
    assert(vstd::relations::sorted_by(x, leq));
    assert(vstd::relations::sorted_by(y, leq));
    assert(vstd::relations::total_ordering(leq));
    vstd::seq_lib::lemma_sorted_unique(x, y, leq);
    assert(x =~= y);
}

/// Sort the whole dataset ascending in place, rendering one frame per
/// recursive partition call through the given sink. The result is a sorted
/// permutation of the input; a sorted input comes back unchanged after the
/// worst-case number of frames, and a one-element input draws exactly once.
pub fn quicksort<S: FrameSink>(arr: &mut Vec<u64>, sink: &mut S)
    requires
        old(arr).len() >= 1,
    ensures
        final(arr)@.len() == old(arr)@.len(),
        sorted(final(arr)@),
        final(arr)@.to_multiset() == old(arr)@.to_multiset(),
        final(sink).frames().len() >= old(sink).frames().len() + min_frames(old(arr)@.len()),
        final(sink).frames().len() <= old(sink).frames().len() + max_frames(old(arr)@.len()),
        forall|k: int|
            0 <= k < old(sink).frames().len() ==> final(sink).frames()[k] == old(
                sink,
            ).frames()[k],
        final(sink).frames()[old(sink).frames().len() as int] == old(arr)@,
        old(arr)@.len() == 1 ==> final(sink).frames() == old(sink).frames().push(old(arr)@),
        sorted(old(arr)@) ==> (final(arr)@ == old(arr)@ && final(sink).frames().len() == old(
            sink,
        ).frames().len() + max_frames(old(arr)@.len())),
{
    let ghost a0 = arr@;
    let n = arr.len();
    proof {
        assert(a0.subrange(0, n as int) =~= a0);
    }
    sort_range(arr, sink, 0, n);
    proof {
        assert(arr@.subrange(0, n as int) =~= arr@);
    }
}

} // verus!

