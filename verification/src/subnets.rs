//! Removal of blocks that lie within another block of the list.
//!
//! The candidates come with the widest blocks first. Each is kept unless a
//! block kept before it already holds its base address, in which case it
//! holds all of it.

use vstd::prelude::*;
use crate::cidr::{
    all_well_formed, covered_by, lemma_covers_own_base, lemma_nested_blocks, pairwise_disjoint,
    Ipv6Network,
};
use crate::sorting::{
    in_order, lemma_prefix_order_rises, lemma_same_blocks_same_points, lemma_same_members,
    prefixes_rising, NetworkOrder,
};

verus! {

/// The candidates that are kept: each one whose base address lies in none of
/// those kept before it.
pub open spec fn retain_uncovered(candidates: Seq<Ipv6Network>) -> Seq<Ipv6Network>
    decreases candidates.len(),
{
    if candidates.len() == 0 {
        Seq::empty()
    } else {
        let kept = retain_uncovered(candidates.drop_last());
        let next = candidates.last();
        if covered_by(kept, next.base) {
            kept
        } else {
            kept.push(next)
        }
    }
}

/// Whether `kept` has a block that is at least as wide as `block` and holds
/// its base address.
pub open spec fn has_ancestor(kept: Seq<Ipv6Network>, block: Ipv6Network) -> bool {
    exists|i: int|
        0 <= i < kept.len() && (#[trigger] kept[i]).prefix <= block.prefix && kept[i].covers(
            block.base,
        )
}

/// Whether the address `a` lies in one of `blocks`.
fn any_covers(blocks: &Vec<Ipv6Network>, a: u128) -> (r: bool)
    ensures
        r == covered_by(blocks@, a),
{
    let mut i: usize = 0;
    while i < blocks.len()
        invariant
            i <= blocks.len(),
            forall|k: int| 0 <= k < i ==> !(#[trigger] blocks@[k]).covers(a),
        decreases blocks.len() - i,
    {
        if blocks[i].contains(a) {
            return true;
        }
        i += 1;
    }
    false
}

/// Drops each candidate whose base address lies in a block that was kept
/// before it.
pub fn remove_subnets(candidates: &Vec<Ipv6Network>) -> (kept: Vec<Ipv6Network>)
    ensures
        kept@ == retain_uncovered(candidates@),
{
    let mut kept: Vec<Ipv6Network> = Vec::new();
    let mut i: usize = 0;
    while i < candidates.len()
        invariant
            i <= candidates.len(),
            kept@ == retain_uncovered(candidates@.take(i as int)),
        decreases candidates.len() - i,
    {
        let next = candidates[i];
        proof {
            assert(candidates@.take(i + 1).drop_last() == candidates@.take(i as int));
        }
        if !any_covers(&kept, next.base) {
            kept.push(next);
        }
        i += 1;
    }
    assert(candidates@.take(i as int) == candidates@);
    kept
}

/// Every kept block is one of the candidates.
pub proof fn lemma_kept_is_candidate(candidates: Seq<Ipv6Network>, i: int)
    requires
        0 <= i < retain_uncovered(candidates).len(),
    ensures
        candidates.contains(retain_uncovered(candidates)[i]),
    decreases candidates.len(),
{
    let before = candidates.drop_last();
    let earlier = retain_uncovered(before);
    if i < earlier.len() {
        lemma_kept_is_candidate(before, i);
        let j = choose|j: int| 0 <= j < before.len() && before[j] == earlier[i];
        assert(candidates[j] == earlier[i]);
    } else {
        assert(candidates[candidates.len() - 1] == retain_uncovered(candidates)[i]);
    }
}

/// A block that was kept before a candidate of rising prefix lengths came is
/// at least as wide as that candidate.
proof fn lemma_kept_is_wider(candidates: Seq<Ipv6Network>, i: int)
    requires
        prefixes_rising(candidates),
        candidates.len() > 0,
        0 <= i < retain_uncovered(candidates.drop_last()).len(),
    ensures
        retain_uncovered(candidates.drop_last())[i].prefix <= candidates.last().prefix,
{
    let before = candidates.drop_last();
    lemma_kept_is_candidate(before, i);
    let j = choose|j: int| 0 <= j < before.len() && before[j] == retain_uncovered(before)[i];
    assert(candidates[j] == before[j]);
}

proof fn lemma_drop_last_rising(candidates: Seq<Ipv6Network>)
    requires
        all_well_formed(candidates),
        prefixes_rising(candidates),
        candidates.len() > 0,
    ensures
        all_well_formed(candidates.drop_last()),
        prefixes_rising(candidates.drop_last()),
{
    let before = candidates.drop_last();
    assert forall|i: int| 0 <= i < before.len() implies (#[trigger] before[i])
        == candidates[i] by {}
}

/// Every candidate lies within a kept block that is at least as wide: a
/// candidate is never dropped unless such a block stays.
pub proof fn lemma_candidate_has_ancestor(candidates: Seq<Ipv6Network>, j: int)
    requires
        all_well_formed(candidates),
        prefixes_rising(candidates),
        0 <= j < candidates.len(),
    ensures
        has_ancestor(retain_uncovered(candidates), candidates[j]),
    decreases candidates.len(),
{
    let kept = retain_uncovered(candidates);
    let before = candidates.drop_last();
    let next = candidates.last();
    let earlier = retain_uncovered(before);
    lemma_drop_last_rising(candidates);
    if j < before.len() {
        lemma_candidate_has_ancestor(before, j);
        let i = choose|i: int|
            0 <= i < earlier.len() && (#[trigger] earlier[i]).prefix <= before[j].prefix
                && earlier[i].covers(before[j].base);
        assert(kept[i] == earlier[i]);
    } else if covered_by(earlier, next.base) {
        let i = choose|i: int| 0 <= i < earlier.len() && (#[trigger] earlier[i]).covers(next.base);
        lemma_kept_is_wider(candidates, i);
        assert(kept[i] == earlier[i]);
    } else {
        lemma_covers_own_base(next);
        assert(kept[earlier.len() as int] == next);
    }
}

/// The kept blocks hold the addresses of the candidates, and no others.
pub proof fn lemma_kept_coverage(candidates: Seq<Ipv6Network>)
    requires
        all_well_formed(candidates),
        prefixes_rising(candidates),
    ensures
        forall|a: u128|
            covered_by(retain_uncovered(candidates), a) <==> covered_by(candidates, a),
{
    let kept = retain_uncovered(candidates);
    assert forall|a: u128| covered_by(kept, a) <==> covered_by(candidates, a) by {
        if covered_by(kept, a) {
            let i = choose|i: int| 0 <= i < kept.len() && (#[trigger] kept[i]).covers(a);
            lemma_kept_is_candidate(candidates, i);
            let j = choose|j: int| 0 <= j < candidates.len() && candidates[j] == kept[i];
            assert(candidates[j].covers(a));
        }
        if covered_by(candidates, a) {
            let j = choose|j: int|
                0 <= j < candidates.len() && (#[trigger] candidates[j]).covers(a);
            lemma_candidate_has_ancestor(candidates, j);
            let i = choose|i: int|
                0 <= i < kept.len() && (#[trigger] kept[i]).prefix <= candidates[j].prefix
                    && kept[i].covers(candidates[j].base);
            lemma_nested_blocks(kept[i], candidates[j], a);
        }
    }
}

/// No two kept blocks share an address.
pub proof fn lemma_kept_disjoint(candidates: Seq<Ipv6Network>)
    requires
        all_well_formed(candidates),
        prefixes_rising(candidates),
    ensures
        pairwise_disjoint(retain_uncovered(candidates)),
    decreases candidates.len(),
{
    let kept = retain_uncovered(candidates);
    if candidates.len() > 0 {
        let before = candidates.drop_last();
        let next = candidates.last();
        let earlier = retain_uncovered(before);
        lemma_drop_last_rising(candidates);
        lemma_kept_disjoint(before);
        assert forall|i: int, j: int, a: u128|
            #![trigger kept[i].covers(a), kept[j].covers(a)]
            0 <= i < j < kept.len() implies !(kept[i].covers(a) && kept[j].covers(a)) by {
            if j < earlier.len() {
                assert(kept[i] == earlier[i] && kept[j] == earlier[j]);
            } else if kept[i].covers(a) && kept[j].covers(a) {
                assert(kept[j] == next && kept[i] == earlier[i]);
                lemma_kept_is_wider(candidates, i);
                lemma_nested_blocks(earlier[i], next, a);
                assert(covered_by(earlier, next.base));
            }
        }
    }
}

/// Of well-formed candidates of which no two share an address, all are kept.
pub proof fn lemma_retain_disjoint(candidates: Seq<Ipv6Network>)
    requires
        all_well_formed(candidates),
        pairwise_disjoint(candidates),
    ensures
        retain_uncovered(candidates) == candidates,
    decreases candidates.len(),
{
    if candidates.len() > 0 {
        let before = candidates.drop_last();
        let next = candidates.last();
        assert forall|i: int| 0 <= i < before.len() implies (#[trigger] before[i])
            == candidates[i] by {}
        assert(pairwise_disjoint(before)) by {
            assert forall|i: int, j: int, a: u128|
                #![trigger before[i].covers(a), before[j].covers(a)]
                0 <= i < j < before.len() implies !(before[i].covers(a) && before[j].covers(
                a,
            )) by {
                assert(!(candidates[i].covers(a) && candidates[j].covers(a)));
            }
        }
        lemma_retain_disjoint(before);
        lemma_covers_own_base(next);
        if covered_by(before, next.base) {
            let i = choose|i: int| 0 <= i < before.len() && (#[trigger] before[i]).covers(next.base);
            assert(!(candidates[i].covers(next.base) && candidates[candidates.len() - 1].covers(
                next.base,
            )));
        }
        assert(candidates == before.push(next));
    }
}

/// The kept blocks are well formed, and at most as many as the candidates.
pub proof fn lemma_kept_well_formed(candidates: Seq<Ipv6Network>)
    requires
        all_well_formed(candidates),
    ensures
        all_well_formed(retain_uncovered(candidates)),
        retain_uncovered(candidates).len() <= candidates.len(),
    decreases candidates.len(),
{
    if candidates.len() > 0 {
        let before = candidates.drop_last();
        assert forall|i: int| 0 <= i < before.len() implies (#[trigger] before[i])
            == candidates[i] by {}
        lemma_kept_well_formed(before);
    }
}

/// Sorting the candidates by prefix and dropping what lies within a kept
/// block loses no address: every candidate lies within a kept block that is
/// at least as wide, the kept blocks hold the addresses of the candidates and
/// no others, and no two of them share an address.
pub proof fn lemma_elimination(candidates: Seq<Ipv6Network>, sorted: Seq<Ipv6Network>)
    requires
        all_well_formed(candidates),
        sorted.to_multiset() == candidates.to_multiset(),
        in_order(NetworkOrder::ByPrefix, sorted),
    ensures
        all_well_formed(retain_uncovered(sorted)),
        pairwise_disjoint(retain_uncovered(sorted)),
        forall|j: int|
            0 <= j < candidates.len() ==> has_ancestor(
                retain_uncovered(sorted),
                #[trigger] candidates[j],
            ),
        forall|a: u128| covered_by(retain_uncovered(sorted), a) <==> covered_by(candidates, a),
{
    lemma_same_blocks_same_points(candidates, sorted);
    lemma_prefix_order_rises(sorted);
    lemma_kept_well_formed(sorted);
    lemma_kept_disjoint(sorted);
    lemma_kept_coverage(sorted);
    assert forall|j: int| 0 <= j < candidates.len() implies has_ancestor(
        retain_uncovered(sorted),
        #[trigger] candidates[j],
    ) by {
        lemma_same_members(candidates, sorted, j);
        let k = choose|k: int| 0 <= k < sorted.len() && sorted[k] == candidates[j];
        lemma_candidate_has_ancestor(sorted, k);
    }
    assert forall|a: u128| covered_by(retain_uncovered(sorted), a) <==> covered_by(
        candidates,
        a,
    ) by {
        assert(covered_by(retain_uncovered(sorted), a) <==> covered_by(sorted, a));
        assert(covered_by(sorted, a) <==> covered_by(candidates, a));
    }
}

} // verus!
