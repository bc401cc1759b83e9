//! Sorting of CIDR blocks, by address or by prefix length.

use vstd::prelude::*;
use vstd::relations::{sorted_by, total_ordering};
use vstd::seq_lib::{lemma_sorted_unique, to_multiset_build, to_multiset_contains, to_multiset_insert};
use crate::cidr::{
    all_well_formed, covered_by, lemma_covers_own_base, pairwise_disjoint, Ipv6Network,
};

verus! {

/// What a list of blocks is sorted by.
#[derive(Debug, Clone, Copy, PartialEq, Eq, Structural)]
pub enum NetworkOrder {
    /// By base address, and among equal bases by prefix length.
    ByAddress,
    /// By prefix length, the widest blocks first, and among equal prefix
    /// lengths by base address.
    ByPrefix,
}

/// The number that a block is ranked by under the given order.
pub open spec fn sort_key(order: NetworkOrder, block: Ipv6Network) -> int {
    match order {
        NetworkOrder::ByAddress => block.base * 256 + block.prefix,
        NetworkOrder::ByPrefix => block.prefix * 0x1_0000_0000_0000_0000_0000_0000_0000_0000 + block.base,
    }
}

/// The blocks stand in rising order of their keys.
pub open spec fn in_order(order: NetworkOrder, blocks: Seq<Ipv6Network>) -> bool {
    forall|i: int, j: int|
        0 <= i <= j < blocks.len() ==> sort_key(order, #[trigger] blocks[i]) <= sort_key(
            order,
            #[trigger] blocks[j],
        )
}

/// Whether `a` may stand before `b` under the given order.
fn may_precede(order: NetworkOrder, a: &Ipv6Network, b: &Ipv6Network) -> (r: bool)
    ensures
        r == (sort_key(order, *a) <= sort_key(order, *b)),
{
    match order {
        NetworkOrder::ByAddress => a.base < b.base || (a.base == b.base && a.prefix <= b.prefix),
        NetworkOrder::ByPrefix => a.prefix < b.prefix || (a.prefix == b.prefix && a.base <= b.base),
    }
}

/// Sorts the blocks into rising order of their keys.
pub fn sort_networks(blocks: &Vec<Ipv6Network>, order: NetworkOrder) -> (sorted: Vec<Ipv6Network>)
    ensures
        in_order(order, sorted@),
        sorted@.to_multiset() == blocks@.to_multiset(),
        sorted.len() == blocks.len(),
{
    let mut sorted: Vec<Ipv6Network> = Vec::new();
    let mut i: usize = 0;
    assert(blocks@.take(0) == sorted@);
    while i < blocks.len()
        invariant
            i <= blocks.len(),
            sorted.len() == i,
            in_order(order, sorted@),
            sorted@.to_multiset() == blocks@.take(i as int).to_multiset(),
        decreases blocks.len() - i,
    {
        let block = blocks[i];
        let mut at: usize = 0;
        while at < sorted.len() && may_precede(order, &sorted[at], &block)
            invariant
                at <= sorted.len(),
                forall|k: int|
                    0 <= k < at ==> sort_key(order, #[trigger] sorted@[k]) <= sort_key(
                        order,
                        block,
                    ),
            decreases sorted.len() - at,
        {
            at += 1;
        }
        let ghost before = sorted@;
        sorted.insert(at, block);
        proof {
            to_multiset_insert(before, at as int, block);
            to_multiset_build(blocks@.take(i as int), block);
            assert(blocks@.take(i + 1) == blocks@.take(i as int).push(block));
            assert forall|a: int, b: int| 0 <= a <= b < sorted@.len() implies sort_key(
                order,
                #[trigger] sorted@[a],
            ) <= sort_key(order, #[trigger] sorted@[b]) by {
                if a < at && b > at {
                    assert(sorted@[a] == before[a]);
                    assert(sorted@[b] == before[b - 1]);
                } else if a > at {
                    assert(sorted@[a] == before[a - 1]);
                    assert(sorted@[b] == before[b - 1]);
                } else if b < at {
                    assert(sorted@[a] == before[a]);
                    assert(sorted@[b] == before[b]);
                } else if a == at && b > at {
                    assert(sorted@[b] == before[b - 1]);
                    assert(sort_key(order, before[at as int]) <= sort_key(order, before[b - 1]));
                } else if a < at && b == at {
                    assert(sorted@[a] == before[a]);
                }
            }
        }
        i += 1;
    }
    assert(blocks@.take(i as int) == blocks@);
    sorted
}

/// The prefix lengths never fall from one block to the next.
pub open spec fn prefixes_rising(blocks: Seq<Ipv6Network>) -> bool {
    forall|i: int, j: int|
        0 <= i <= j < blocks.len() ==> (#[trigger] blocks[i]).prefix <= (#[trigger] blocks[j]).prefix
}

/// Blocks in the order of their prefixes have rising prefix lengths.
pub proof fn lemma_prefix_order_rises(blocks: Seq<Ipv6Network>)
    requires
        in_order(NetworkOrder::ByPrefix, blocks),
    ensures
        prefixes_rising(blocks),
{
    assert forall|i: int, j: int| 0 <= i <= j < blocks.len() implies (#[trigger] blocks[i]).prefix
        <= (#[trigger] blocks[j]).prefix by {
        assert(sort_key(NetworkOrder::ByPrefix, blocks[i]) <= sort_key(
            NetworkOrder::ByPrefix,
            blocks[j],
        ));
    }
}

/// No two blocks have the same key.
pub proof fn lemma_sort_key_injective(order: NetworkOrder, a: Ipv6Network, b: Ipv6Network)
    requires
        sort_key(order, a) == sort_key(order, b),
    ensures
        a == b,
{
    if a.base < b.base {
        assert(a.base + 1 <= b.base);
    } else if b.base < a.base {
        assert(b.base + 1 <= a.base);
    }
    if a.prefix < b.prefix {
        assert(a.prefix + 1 <= b.prefix);
    } else if b.prefix < a.prefix {
        assert(b.prefix + 1 <= a.prefix);
    }
}

/// There is one way only to put given blocks in order: two lists in order
/// that hold the same blocks, each as often as the other, are the same list.
pub proof fn lemma_order_is_unique(order: NetworkOrder, a: Seq<Ipv6Network>, b: Seq<Ipv6Network>)
    requires
        in_order(order, a),
        in_order(order, b),
        a.to_multiset() == b.to_multiset(),
    ensures
        a == b,
{
    let leq = |x: Ipv6Network, y: Ipv6Network| sort_key(order, x) <= sort_key(order, y);
    assert forall|x: Ipv6Network, y: Ipv6Network| #[trigger] leq(x, y) && #[trigger] leq(
        y,
        x,
    ) implies x == y by {
        lemma_sort_key_injective(order, x, y);
    }
    assert(total_ordering(leq));
    assert(sorted_by(a, leq));
    assert(sorted_by(b, leq));
    lemma_sorted_unique(a, b, leq);
}

/// Each block of a list occurs in every list that holds the same blocks.
pub proof fn lemma_same_members(a: Seq<Ipv6Network>, b: Seq<Ipv6Network>, i: int)
    requires
        a.to_multiset() == b.to_multiset(),
        0 <= i < a.len(),
    ensures
        b.contains(a[i]),
{
    assert(a.contains(a[i]));
    to_multiset_contains(a, a[i]);
    to_multiset_contains(b, a[i]);
}

/// Lists that hold the same blocks hold the same addresses, and one is well
/// formed if the other is.
pub proof fn lemma_same_blocks_same_points(a: Seq<Ipv6Network>, b: Seq<Ipv6Network>)
    requires
        a.to_multiset() == b.to_multiset(),
    ensures
        forall|x: u128| covered_by(a, x) <==> covered_by(b, x),
        all_well_formed(a) <==> all_well_formed(b),
{
    assert forall|x: u128| covered_by(a, x) <==> covered_by(b, x) by {
        if covered_by(a, x) {
            let i = choose|i: int| 0 <= i < a.len() && (#[trigger] a[i]).covers(x);
            lemma_same_members(a, b, i);
            let j = choose|j: int| 0 <= j < b.len() && b[j] == a[i];
            assert(b[j].covers(x));
        }
        if covered_by(b, x) {
            let i = choose|i: int| 0 <= i < b.len() && (#[trigger] b[i]).covers(x);
            lemma_same_members(b, a, i);
            let j = choose|j: int| 0 <= j < a.len() && a[j] == b[i];
            assert(a[j].covers(x));
        }
    }
    if all_well_formed(a) {
        assert forall|i: int| 0 <= i < b.len() implies (#[trigger] b[i]).well_formed() by {
            lemma_same_members(b, a, i);
        }
    }
    if all_well_formed(b) {
        assert forall|i: int| 0 <= i < a.len() implies (#[trigger] a[i]).well_formed() by {
            lemma_same_members(a, b, i);
        }
    }
}

/// Well-formed blocks of which no two share an address stay so in any other
/// order.
pub proof fn lemma_same_blocks_disjoint(a: Seq<Ipv6Network>, b: Seq<Ipv6Network>)
    requires
        a.to_multiset() == b.to_multiset(),
        all_well_formed(a),
        pairwise_disjoint(a),
    ensures
        pairwise_disjoint(b),
{
    assert forall|i: int, j: int| 0 <= i < a.len() && 0 <= j < a.len() && i != j implies a[i]
        != a[j] by {
        lemma_covers_own_base(a[i]);
        if i < j {
            assert(!(a[i].covers(a[i].base) && a[j].covers(a[i].base)));
        } else {
            assert(!(a[j].covers(a[i].base) && a[i].covers(a[i].base)));
        }
    }
    assert(a.no_duplicates());
    a.lemma_multiset_has_no_duplicates();
    b.lemma_multiset_has_no_duplicates_conv();
    assert forall|i: int, j: int, x: u128|
        #![trigger b[i].covers(x), b[j].covers(x)]
        0 <= i < j < b.len() implies !(b[i].covers(x) && b[j].covers(x)) by {
        lemma_same_members(b, a, i);
        lemma_same_members(b, a, j);
        let k = choose|k: int| 0 <= k < a.len() && a[k] == b[i];
        let l = choose|l: int| 0 <= l < a.len() && a[l] == b[j];
        assert(b[i] != b[j]);
        if k < l {
            assert(!(a[k].covers(x) && a[l].covers(x)));
        } else {
            assert(!(a[l].covers(x) && a[k].covers(x)));
        }
    }
}

} // verus!
