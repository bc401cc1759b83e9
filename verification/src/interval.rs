//! Closed ranges of addresses, and the merging of ranges that overlap or
//! touch.
//!
//! A range is a pair `(start, end)` of 128-bit addresses and stands for every
//! address from `start` to `end`, both included.

use vstd::prelude::*;
use vstd::relations::total_ordering;
use vstd::seq_lib::to_multiset_contains;

verus! {

/// Whether the address `a` lies in the range `range`.
pub open spec fn in_range(range: (u128, u128), a: u128) -> bool {
    range.0 <= a <= range.1
}

/// Whether the address `a` lies in one of `ranges`.
pub open spec fn covered(ranges: Seq<(u128, u128)>, a: u128) -> bool {
    exists|i: int| 0 <= i < ranges.len() && in_range(#[trigger] ranges[i], a)
}

/// The addresses that lie in one of `ranges`.
pub open spec fn points(ranges: Seq<(u128, u128)>) -> Set<u128> {
    Set::new(|a: u128| covered(ranges, a))
}

/// No range ends before it starts.
pub open spec fn all_valid(ranges: Seq<(u128, u128)>) -> bool {
    forall|i: int| 0 <= i < ranges.len() ==> (#[trigger] ranges[i]).0 <= ranges[i].1
}

/// The ranges stand in the order of their starts.
pub open spec fn sorted_by_start(ranges: Seq<(u128, u128)>) -> bool {
    forall|i: int, j: int|
        0 <= i <= j < ranges.len() ==> (#[trigger] ranges[i]).0 <= (#[trigger] ranges[j]).0
}

/// Each range ends at least two addresses before any later one starts, so
/// that an address outside of both lies between them.
pub open spec fn separated(ranges: Seq<(u128, u128)>) -> bool {
    forall|i: int, j: int|
        0 <= i < j < ranges.len() ==> (#[trigger] ranges[i]).1 + 1 < (#[trigger] ranges[j]).0
}

/// Whether `merged` holds the maximal runs of the addresses of `ranges`, in
/// rising order: it has the same addresses, and between any two of its ranges
/// lies an address that belongs to none.
pub open spec fn is_merged(merged: Seq<(u128, u128)>, ranges: Seq<(u128, u128)>) -> bool {
    &&& all_valid(merged)
    &&& separated(merged)
    &&& points(merged) == points(ranges)
}

/// The maximal runs of the addresses of `ranges`, in rising order.
pub open spec fn maximal_ranges(ranges: Seq<(u128, u128)>) -> Seq<(u128, u128)> {
    choose|merged: Seq<(u128, u128)>| is_merged(merged, ranges)
}

/// What the walk through ranges in the order of their starts leaves: each
/// range that starts within the last range so far, or right behind it, is
/// taken into that range, and each other range starts a new one.
pub open spec fn merge_walk(ranges: Seq<(u128, u128)>) -> Seq<(u128, u128)>
    decreases ranges.len(),
{
    if ranges.len() == 0 {
        Seq::empty()
    } else {
        let merged = merge_walk(ranges.drop_last());
        let next = ranges.last();
        if merged.len() > 0 && next.0 <= merged.last().1 + 1 {
            let end = if next.1 > merged.last().1 {
                next.1
            } else {
                merged.last().1
            };
            merged.drop_last().push((merged.last().0, end))
        } else {
            merged.push(next)
        }
    }
}

/// Merges ranges that overlap or touch. The ranges come in the order of their
/// starts; what comes out are the maximal runs of their addresses, in rising
/// order.
pub fn merge_intervals(ranges: &Vec<(u128, u128)>) -> (merged: Vec<(u128, u128)>)
    requires
        all_valid(ranges@),
        sorted_by_start(ranges@),
    ensures
        is_merged(merged@, ranges@),
        merged.len() <= ranges.len(),
{
    let mut merged: Vec<(u128, u128)> = Vec::new();
    let mut i: usize = 0;
    while i < ranges.len()
        invariant
            i <= ranges.len(),
            merged@ == merge_walk(ranges@.take(i as int)),
        decreases ranges.len() - i,
    {
        let (start, end) = ranges[i];
        let n = merged.len();
        proof {
            assert(ranges@.take(i + 1).drop_last() == ranges@.take(i as int));
        }
        if n > 0 && (start <= merged[n - 1].1 || start - 1 == merged[n - 1].1) {
            let (prev_start, prev_end) = merged[n - 1];
            let new_end = if end > prev_end {
                end
            } else {
                prev_end
            };
            let ghost before = merged@;
            merged.set(n - 1, (prev_start, new_end));
            assert(merged@ == before.drop_last().push((prev_start, new_end)));
        } else {
            merged.push((start, end));
        }
        i += 1;
    }
    proof {
        assert(ranges@.take(i as int) == ranges@);
        lemma_merge_walk(ranges@);
    }
    merged
}

/// Adding a range adds its addresses.
pub proof fn lemma_covered_push(ranges: Seq<(u128, u128)>, range: (u128, u128))
    ensures
        forall|a: u128| #[trigger]
            covered(ranges.push(range), a) <==> covered(ranges, a) || in_range(range, a),
{
    let more = ranges.push(range);
    assert forall|a: u128| #[trigger]
        covered(more, a) <==> covered(ranges, a) || in_range(range, a) by {
        if covered(more, a) {
            let k = choose|k: int| 0 <= k < more.len() && in_range(#[trigger] more[k], a);
            if k < ranges.len() {
                assert(in_range(ranges[k], a));
            }
        }
        if covered(ranges, a) {
            let k = choose|k: int| 0 <= k < ranges.len() && in_range(#[trigger] ranges[k], a);
            assert(in_range(more[k], a));
        }
        if in_range(range, a) {
            assert(in_range(more[ranges.len() as int], a));
        }
    }
}

/// The first of the ranges starts at the lowest address that they hold.
proof fn lemma_first_start(a: Seq<(u128, u128)>, x: u128)
    requires
        all_valid(a),
        separated(a),
        covered(a, x),
    ensures
        a.len() > 0,
        a[0].0 <= x,
{
    let k = choose|k: int| 0 <= k < a.len() && in_range(#[trigger] a[k], x);
    if k > 0 {
        assert(a[0].1 + 1 < a[k].0);
        assert(a[0].0 <= a[0].1);
    }
}

/// The address right behind the first range belongs to none of the ranges.
proof fn lemma_first_gap(a: Seq<(u128, u128)>)
    requires
        all_valid(a),
        separated(a),
        a.len() > 0,
        a[0].1 < u128::MAX,
    ensures
        !covered(a, (a[0].1 + 1) as u128),
{
    let gap = (a[0].1 + 1) as u128;
    if covered(a, gap) {
        let k = choose|k: int| 0 <= k < a.len() && in_range(#[trigger] a[k], gap);
        assert(a[0].0 <= a[0].1);
        if k > 0 {
            assert(a[0].1 + 1 < a[k].0);
        }
    }
}

/// The ranges behind the first hold the addresses above the first range.
proof fn lemma_tail_coverage(a: Seq<(u128, u128)>)
    requires
        all_valid(a),
        separated(a),
        a.len() > 0,
    ensures
        all_valid(a.subrange(1, a.len() as int)),
        separated(a.subrange(1, a.len() as int)),
        forall|x: u128|
            covered(a.subrange(1, a.len() as int), x) <==> covered(a, x) && x > a[0].1,
{
    let tail = a.subrange(1, a.len() as int);
    assert forall|i: int| 0 <= i < tail.len() implies (#[trigger] tail[i]) == a[i + 1] by {}
    assert forall|i: int, j: int| 0 <= i < j < tail.len() implies (#[trigger] tail[i]).1 + 1 < (
    #[trigger] tail[j]).0 by {
        assert(a[i + 1].1 + 1 < a[j + 1].0);
    }
    assert forall|x: u128| covered(tail, x) <==> covered(a, x) && x > a[0].1 by {
        if covered(tail, x) {
            let k = choose|k: int| 0 <= k < tail.len() && in_range(#[trigger] tail[k], x);
            assert(in_range(a[k + 1], x));
            assert(a[0].1 + 1 < a[k + 1].0);
        }
        if covered(a, x) && x > a[0].1 {
            let k = choose|k: int| 0 <= k < a.len() && in_range(#[trigger] a[k], x);
            assert(in_range(tail[k - 1], x));
        }
    }
}

/// Of two lists that hold the same addresses, neither starts below the other.
proof fn lemma_first_low(a: Seq<(u128, u128)>, b: Seq<(u128, u128)>)
    requires
        all_valid(a),
        separated(a),
        b.len() > 0,
        all_valid(b),
        forall|x: u128| covered(a, x) <==> covered(b, x),
    ensures
        a.len() > 0,
        a[0].0 <= b[0].0,
{
    assert(in_range(b[0], b[0].0));
    assert(covered(b, b[0].0));
    lemma_first_start(a, b[0].0);
}

/// Of two lists that hold the same addresses and start at the same address,
/// the first range of neither ends before that of the other.
proof fn lemma_first_high(a: Seq<(u128, u128)>, b: Seq<(u128, u128)>)
    requires
        all_valid(a),
        separated(a),
        a.len() > 0,
        b.len() > 0,
        all_valid(b),
        a[0].0 == b[0].0,
        forall|x: u128| covered(a, x) <==> covered(b, x),
    ensures
        a[0].1 >= b[0].1,
{
    if a[0].1 < b[0].1 {
        let gap = (a[0].1 + 1) as u128;
        lemma_first_gap(a);
        assert(a[0].0 <= a[0].1);
        assert(in_range(b[0], gap));
        assert(covered(b, gap));
    }
}

/// Two lists that hold the same addresses and have the same first range hold
/// the same addresses behind it.
proof fn lemma_tails_agree(a: Seq<(u128, u128)>, b: Seq<(u128, u128)>)
    requires
        all_valid(a),
        separated(a),
        all_valid(b),
        separated(b),
        a.len() > 0,
        b.len() > 0,
        a[0] == b[0],
        forall|x: u128| covered(a, x) <==> covered(b, x),
    ensures
        all_valid(a.subrange(1, a.len() as int)),
        separated(a.subrange(1, a.len() as int)),
        all_valid(b.subrange(1, b.len() as int)),
        separated(b.subrange(1, b.len() as int)),
        forall|x: u128|
            covered(a.subrange(1, a.len() as int), x) <==> covered(
                b.subrange(1, b.len() as int),
                x,
            ),
{
    let a_tail = a.subrange(1, a.len() as int);
    let b_tail = b.subrange(1, b.len() as int);
    lemma_tail_coverage(a);
    lemma_tail_coverage(b);
    assert forall|x: u128| covered(a_tail, x) <==> covered(b_tail, x) by {
        assert(covered(a_tail, x) <==> covered(a, x) && x > a[0].1);
        assert(covered(b_tail, x) <==> covered(b, x) && x > b[0].1);
        assert(covered(a, x) <==> covered(b, x));
    }
}

/// Given addresses have one list of maximal runs only: two valid, separated
/// lists of ranges that hold the same addresses are the same list.
pub proof fn lemma_merged_unique(a: Seq<(u128, u128)>, b: Seq<(u128, u128)>)
    requires
        all_valid(a),
        separated(a),
        all_valid(b),
        separated(b),
        forall|x: u128| covered(a, x) <==> covered(b, x),
    ensures
        a == b,
    decreases a.len(),
{
    if a.len() == 0 {
        if b.len() > 0 {
            lemma_first_low(a, b);
        }
        assert(a =~= b);
    } else {
        lemma_first_low(b, a);
        lemma_first_low(a, b);
        lemma_first_high(a, b);
        lemma_first_high(b, a);
        let a_tail = a.subrange(1, a.len() as int);
        let b_tail = b.subrange(1, b.len() as int);
        lemma_tails_agree(a, b);
        lemma_merged_unique(a_tail, b_tail);
        assert(a =~= seq![a[0]] + a_tail);
        assert(b =~= seq![b[0]] + b_tail);
    }
}

/// A list that holds the maximal runs of the addresses of `ranges` is the
/// list of them.
pub proof fn lemma_is_maximal_ranges(merged: Seq<(u128, u128)>, ranges: Seq<(u128, u128)>)
    requires
        is_merged(merged, ranges),
    ensures
        merged == maximal_ranges(ranges),
{
    let chosen = maximal_ranges(ranges);
    assert(is_merged(chosen, ranges));
    assert forall|x: u128| covered(merged, x) <==> covered(chosen, x) by {
        assert(points(merged).contains(x) == covered(merged, x));
        assert(points(chosen).contains(x) == covered(chosen, x));
    }
    lemma_merged_unique(merged, chosen);
}

/// The maximal runs of a single range are that range alone.
pub proof fn lemma_merged_single(merged: Seq<(u128, u128)>, start: u128, end: u128)
    requires
        start <= end,
        all_valid(merged),
        separated(merged),
        forall|a: u128| covered(merged, a) <==> start <= a <= end,
    ensures
        merged == seq![(start, end)],
{
    assert(covered(merged, start));
    assert forall|k: int| 0 <= k < merged.len() implies start <= (#[trigger] merged[k]).0
        && merged[k].1 <= end by {
        assert(in_range(merged[k], merged[k].0));
        assert(in_range(merged[k], merged[k].1));
        assert(covered(merged, merged[k].0));
        assert(covered(merged, merged[k].1));
    }
    if merged.len() >= 2 {
        assert(merged[0].1 + 1 < merged[1].0);
        let gap = (merged[0].1 + 1) as u128;
        assert(covered(merged, gap));
        let k = choose|k: int| 0 <= k < merged.len() && in_range(#[trigger] merged[k], gap);
        if k >= 1 {
            assert(merged[0].1 + 1 < merged[k].0);
        }
        assert(false);
    }
    let only = merged[0];
    assert(in_range(only, only.0));
    assert(covered(merged, end));
    assert(merged =~= seq![(start, end)]);
}

/// The walk through ranges in the order of their starts leaves the maximal
/// runs of their addresses.
pub proof fn lemma_merge_walk(ranges: Seq<(u128, u128)>)
    requires
        all_valid(ranges),
        sorted_by_start(ranges),
    ensures
        is_merged(merge_walk(ranges), ranges),
        merge_walk(ranges).len() <= ranges.len(),
        ranges.len() > 0 ==> merge_walk(ranges).len() > 0 && merge_walk(ranges).last().0
            <= ranges.last().0,
    decreases ranges.len(),
{
    let merged = merge_walk(ranges);
    if ranges.len() > 0 {
        let done = ranges.drop_last();
        let next = ranges.last();
        let before = merge_walk(done);
        assert forall|i: int| 0 <= i < done.len() implies (#[trigger] done[i]) == ranges[i] by {}
        lemma_merge_walk(done);
        assert(ranges == done.push(next));
        lemma_covered_push(done, next);
        assert(ranges[ranges.len() - 1].0 <= ranges[ranges.len() - 1].1);
        if before.len() > 0 {
            assert(before == before.drop_last().push(before.last()));
            lemma_covered_push(before.drop_last(), before.last());
            assert(before[before.len() - 1].0 <= before[before.len() - 1].1);
            assert(done[done.len() - 1].0 <= ranges[ranges.len() - 1].0);
        }
        if before.len() > 0 && next.0 <= before.last().1 + 1 {
            lemma_covered_push(before.drop_last(), merged.last());
            assert forall|i: int| 0 <= i < merged.len() implies (#[trigger] merged[i]).0
                <= merged[i].1 by {
                if i < merged.len() - 1 {
                    assert(merged[i] == before[i]);
                }
            }
            assert forall|i: int, j: int| 0 <= i < j < merged.len() implies (
            #[trigger] merged[i]).1 + 1 < (#[trigger] merged[j]).0 by {
                assert(merged[i] == before[i]);
                assert(before[i].1 + 1 < before[j].0);
            }
        } else {
            lemma_covered_push(before, next);
            assert forall|i: int| 0 <= i < merged.len() implies (#[trigger] merged[i]).0
                <= merged[i].1 by {
                if i < merged.len() - 1 {
                    assert(merged[i] == before[i]);
                }
            }
            assert forall|i: int, j: int| 0 <= i < j < merged.len() implies (
            #[trigger] merged[i]).1 + 1 < (#[trigger] merged[j]).0 by {
                assert(merged[i] == before[i]);
                if j < before.len() {
                    assert(before[i].1 + 1 < before[j].0);
                } else if i < before.len() - 1 {
                    assert(before[i].1 + 1 < before[before.len() - 1].0);
                }
            }
        }
        assert forall|a: u128| covered(merged, a) <==> covered(ranges, a) by {
            assert(covered(ranges, a) <==> covered(done, a) || in_range(next, a));
            assert(points(before).contains(a) == covered(before, a));
            assert(points(done).contains(a) == covered(done, a));
        }
    }
    assert(points(merged) =~= points(ranges));
}

/// Ranges in any order have maximal runs of their addresses.
pub proof fn lemma_maximal_ranges_exist(ranges: Seq<(u128, u128)>)
    requires
        all_valid(ranges),
    ensures
        is_merged(maximal_ranges(ranges), ranges),
{
    let leq = |a: (u128, u128), b: (u128, u128)| a.0 < b.0 || (a.0 == b.0 && a.1 <= b.1);
    assert(total_ordering(leq));
    let sorted = ranges.sort_by(leq);
    ranges.lemma_sort_by_ensures(leq);
    assert forall|i: int| 0 <= i < sorted.len() implies ranges.contains(#[trigger] sorted[i]) by {
        assert(sorted.contains(sorted[i]));
    }
    assert(all_valid(sorted)) by {
        assert forall|i: int| 0 <= i < sorted.len() implies (#[trigger] sorted[i]).0
            <= sorted[i].1 by {
            let k = choose|k: int| 0 <= k < ranges.len() && ranges[k] == sorted[i];
        }
    }
    assert(sorted_by_start(sorted)) by {
        assert forall|i: int, j: int| 0 <= i <= j < sorted.len() implies (#[trigger] sorted[i]).0
            <= (#[trigger] sorted[j]).0 by {
            if i < j {
                assert(leq(sorted[i], sorted[j]));
            }
        }
    }
    lemma_merge_walk(sorted);
    let merged = merge_walk(sorted);
    assert forall|a: u128| covered(sorted, a) <==> covered(ranges, a) by {
        if covered(sorted, a) {
            let i = choose|i: int| 0 <= i < sorted.len() && in_range(#[trigger] sorted[i], a);
            let k = choose|k: int| 0 <= k < ranges.len() && ranges[k] == sorted[i];
            assert(in_range(ranges[k], a));
        }
        if covered(ranges, a) {
            let k = choose|k: int| 0 <= k < ranges.len() && in_range(#[trigger] ranges[k], a);
            to_multiset_contains(ranges, ranges[k]);
            to_multiset_contains(sorted, ranges[k]);
            assert(ranges.contains(ranges[k]));
            let i = choose|i: int| 0 <= i < sorted.len() && sorted[i] == ranges[k];
            assert(in_range(sorted[i], a));
        }
    }
    assert(points(sorted) =~= points(ranges));
    assert(is_merged(merged, ranges));
}

} // verus!
