//! Membership of identifiers in a growing collection of inclusive ranges.
//! The input interleaves range lines and identifier lines; an identifier
//! counts when some range seen before it contains it. Ranges arrive with
//! inclusive upper bounds and are stored half-open.

use vstd::prelude::*;

verus! {

use vstd::seq_lib::*;
use vstd::multiset::Multiset;

use crate::interval_tree::IntervalTree;
use crate::seq_swap::lemma_swap_remove_multiset;
use crate::interval_tree::stab_count;
use crate::interval_tree::lemma_stab_count_insert;

/// One parsed input line: an inclusive range of identifiers, or a single
/// identifier to test.
pub enum RangeEvent {
    Range(u64, u64),
    Id(u64),
}

/// The half-open intervals stored after the first `k` events: each range
/// event `[lo, hi]` with `lo <= hi` contributes `[lo, hi + 1)`, in order;
/// an empty range is rejected and contributes nothing.
pub open spec fn intervals_before(evts: Seq<RangeEvent>, k: int) -> Seq<(u64, u64)>
    decreases k,
{
    if k <= 0 {
        Seq::empty()
    } else {
        let pre = intervals_before(evts, k - 1);
        match evts[k - 1] {
            RangeEvent::Range(lo, hi) => if lo <= hi {
                pre.push((lo, (hi + 1) as u64))
            } else {
                pre
            },
            RangeEvent::Id(_) => pre,
        }
    }
}

/// How many of the first `k` events are identifiers contained in at least
/// one range seen before them.
pub open spec fn id_hits(evts: Seq<RangeEvent>, k: int) -> int
    decreases k,
{
    if k <= 0 {
        0
    } else {
        id_hits(evts, k - 1) + (match evts[k - 1] {
            RangeEvent::Id(id) => if stab_count(intervals_before(evts, k - 1), id) > 0 {
                1int
            } else {
                0int
            },
            RangeEvent::Range(_, _) => 0int,
        })
    }
}

/// Counts the identifier events covered by some earlier range event.
pub fn part1(events: &Vec<RangeEvent>) -> (r: i64)
    requires
        events@.len() < usize::MAX,
        events@.len() <= i64::MAX,
        forall|t: int|
            0 <= t < events@.len() ==> ((#[trigger] events@[t]) matches RangeEvent::Range(_, hi)
                ==> hi < u64::MAX),
    ensures
        r == id_hits(events@, events@.len() as int),
{
    let ghost evts = events@;
    let mut itree = IntervalTree::new();
    let mut ans: i64 = 0;
    let n = events.len();
    let mut k: usize = 0;
    while k < n
        invariant
            evts == events@,
            n == evts.len(),
            n < usize::MAX,
            n <= i64::MAX,
            k <= n,
            forall|t: int|
                0 <= t < evts.len() ==> ((#[trigger] evts[t]) matches RangeEvent::Range(_, hi)
                    ==> hi < u64::MAX),
            itree.wf(),
            itree.view().len() <= k,
            forall|p: u64| #[trigger]
                stab_count(itree.view(), p) == stab_count(intervals_before(evts, k as int), p),
            0 <= ans <= k,
            ans == id_hits(evts, k as int),
        decreases n - k,
    {
        let ghost pre_tree = itree;
        match events[k] {
            RangeEvent::Range(lo, hi) => {
                let res = itree.insert(lo, hi + 1);
                proof {
                    let ivs_pre = intervals_before(evts, k as int);
                    let ivs_post = intervals_before(evts, k as int + 1);
                    if lo <= hi {
                        let iv = (lo, (hi + 1) as u64);
                        assert(ivs_post == ivs_pre.push(iv));
                        assert(ivs_pre.push(iv) == ivs_pre.insert(ivs_pre.len() as int, iv));
                        let j = choose|j: int|
                            0 <= j <= pre_tree.view().len() && itree.view()
                                == pre_tree.view().insert(j, iv);
                        assert forall|p: u64| #[trigger]
                            stab_count(itree.view(), p) == stab_count(ivs_post, p) by {
                            lemma_stab_count_insert(pre_tree.view(), j, iv, p);
                            lemma_stab_count_insert(ivs_pre, ivs_pre.len() as int, iv, p);
                        }
                    } else {
                        assert(ivs_post == ivs_pre);
                        assert(itree == pre_tree);
                    }
                }
            },
            RangeEvent::Id(id) => {
                if itree.query(id) > 0 {
                    ans = ans + 1;
                }
                proof {
                    assert(intervals_before(evts, k as int + 1) == intervals_before(
                        evts,
                        k as int,
                    ));
                }
            },
        }
        k = k + 1;
    }
    ans
}

/// The half-open forms of the inclusive `ranges`, in order.
pub open spec fn half_open(ranges: Seq<(u64, u64)>) -> Seq<(u64, u64)> {
    Seq::new(ranges.len(), |t: int| (ranges[t].0, (ranges[t].1 + 1) as u64))
}

/// The ranges come sorted by their starts.
pub open spec fn sorted_by_start(s: Seq<(u64, u64)>) -> bool {
    forall|a: int, b: int| 0 <= a < b < s.len() ==> (#[trigger] s[a]).0 <= (#[trigger] s[b]).0
}

/// The covered-point count and the highest end seen, after folding the first
/// `k` half-open ranges of a start-sorted sequence: a range extends the count
/// by the part of it that reaches past everything seen before.
pub open spec fn cov_fold(s: Seq<(u64, u64)>, k: int) -> (int, int)
    decreases k,
{
    if k <= 0 {
        (0, 0)
    } else {
        let acc = cov_fold(s, k - 1);
        let start = s[k - 1].0 as int;
        let end = s[k - 1].1 as int;
        if end > acc.1 {
            (acc.0 + end - (if start > acc.1 {
                start
            } else {
                acc.1
            }), end)
        } else {
            acc
        }
    }
}

/// The total number of identifiers covered by at least one of the inclusive
/// `ranges`: the ranges are brought into start order and folded, each one
/// adding the stretch by which it reaches past everything before it.
pub fn part2(ranges: &Vec<(u64, u64)>) -> (r: i64)
    requires
        forall|t: int|
            0 <= t < ranges@.len() ==> (#[trigger] ranges@[t]).0 <= ranges@[t].1 && (
            ranges@[t].1 as int) < i64::MAX,
        ranges@.len() <= usize::MAX,
    ensures
        exists|t: Seq<(u64, u64)>|
            #![auto]
            t.to_multiset() == half_open(ranges@).to_multiset() && sorted_by_start(t) && r
                == cov_fold(t, t.len() as int).0,
{
    broadcast use group_to_multiset_ensures;

    let ghost half = half_open(ranges@);
    proof {
        assert forall|t: int|
            0 <= t < half.len() implies (#[trigger] half[t]).0 < half[t].1 && half[t].1 as int
            <= i64::MAX by {
            assert(ranges@[t].0 <= ranges@[t].1);
        }
    }
    let n = ranges.len();
    let mut work: Vec<(u64, u64)> = Vec::new();
    let mut k: usize = 0;
    while k < n
        invariant
            n == ranges@.len(),
            k <= n,
            half == half_open(ranges@),
            forall|t: int|
                0 <= t < ranges@.len() ==> (#[trigger] ranges@[t]).0 <= ranges@[t].1
                    && ranges@[t].1 < u64::MAX,
            work@ == half.take(k as int),
        decreases n - k,
    {
        let (lo, hi) = ranges[k];
        work.push((lo, hi + 1));
        proof {
            assert(work@ =~= half.take(k + 1 as int));
        }
        k = k + 1;
    }
    proof {
        assert(work@ =~= half);
    }
    let mut sorted: Vec<(u64, u64)> = Vec::new();
    while work.len() > 0
        invariant
            sorted@.to_multiset().add(work@.to_multiset()) == half.to_multiset(),
            sorted_by_start(sorted@),
            forall|a: int, b: int|
                0 <= a < sorted@.len() && 0 <= b < work@.len() ==> (#[trigger] sorted@[a]).0 <= (
                #[trigger] work@[b]).0,
            forall|t: int|
                0 <= t < sorted@.len() ==> (#[trigger] sorted@[t]).0 < sorted@[t].1 && (
                sorted@[t].1 as int) <= i64::MAX,
            forall|t: int|
                0 <= t < work@.len() ==> (#[trigger] work@[t]).0 < work@[t].1 && (work@[t].1
                    as int) <= i64::MAX,
        decreases work.len(),
    {
        let mut m: usize = 0;
        let mut t: usize = 1;
        while t < work.len()
            invariant
                work@.len() > 0,
                m < work@.len(),
                t <= work@.len(),
                forall|u: int| 0 <= u < t ==> (#[trigger] work@[u]).0 >= work@[m as int].0,
            decreases work@.len() - t,
        {
            if work[t].0 < work[m].0 {
                m = t;
            }
            t = t + 1;
        }
        let ghost work_pre = work@;
        let ghost sorted_pre = sorted@;
        let x = work.swap_remove(m);
        sorted.push(x);
        proof {
            lemma_swap_remove_multiset(work_pre, m as int);
            assert(work@ == work_pre.update(m as int, work_pre.last()).drop_last());
            assert(work@.to_multiset() == work_pre.to_multiset().remove(x));
            assert(sorted@ == sorted_pre.push(x));
            sorted_pre.to_multiset_ensures();
            work_pre.to_multiset_ensures();
            assert(sorted_pre.push(x).to_multiset() =~= sorted_pre.to_multiset().insert(x));
            assert(sorted@.to_multiset().add(work@.to_multiset()) =~= half.to_multiset()) by {
                assert(work_pre.to_multiset().count(x) >= 1) by {
                    assert(work_pre[m as int] == x);
                    assert(work_pre.contains(x));
                }
                assert(sorted_pre.to_multiset().add(work_pre.to_multiset()) == half.to_multiset());
            }
            assert forall|a: int, b: int|
                0 <= a < sorted@.len() && 0 <= b < work@.len() implies (#[trigger] sorted@[a]).0
                <= (#[trigger] work@[b]).0 by {
                assert(work@[b] == work_pre.update(m as int, work_pre.last()).drop_last()[b]);
                if a < sorted@.len() - 1 {
                } else {
                    assert(sorted@[a] == x);
                }
            }
        }
    }
    proof {
        work@.to_multiset_ensures();
        assert(work@.to_multiset() =~= Multiset::<(u64, u64)>::empty()) by {
            assert(work@ =~= Seq::<(u64, u64)>::empty());
            assert(work@.to_multiset().len() == 0);
        }
        assert(sorted@.to_multiset() =~= half.to_multiset());
    }
    let ghost srt = sorted@;
    let mut acc: u64 = 0;
    let mut max_end: u64 = 0;
    let m = sorted.len();
    let mut k2: usize = 0;
    while k2 < m
        invariant
            srt == sorted@,
            m == srt.len(),
            k2 <= m,
            forall|t: int|
                0 <= t < srt.len() ==> (#[trigger] srt[t]).0 < srt[t].1 && (srt[t].1 as int)
                    <= i64::MAX,
            (acc as int, max_end as int) == cov_fold(srt, k2 as int),
            acc <= max_end,
            max_end as int <= i64::MAX,
        decreases m - k2,
    {
        let (start, end) = sorted[k2];
        if end > max_end {
            let from = if start > max_end {
                start
            } else {
                max_end
            };
            acc = acc + (end - from);
            max_end = end;
        }
        k2 = k2 + 1;
    }
    proof {
        assert(srt.to_multiset() == half_open(ranges@).to_multiset() && sorted_by_start(srt)
            && acc as int == cov_fold(srt, srt.len() as int).0);
    }
    acc as i64
}


} // verus!
