//! Records of the registry of IPv6 allocations, and the choice of those that
//! count as allocated.

use vstd::prelude::*;
use vstd::string::*;
use vstd::utf8::encode_utf8_decode_utf8;
use crate::cidr::Ipv6Network;

verus! {

/// One row of the registry: a block, the authority that it is designated to,
/// and the status of the designation.
#[derive(Debug)]
pub struct Ipv6Allocation {
    /// The block that the row speaks of.
    pub prefix: Ipv6Network,
    /// The name of the authority that holds the block.
    pub designation: String,
    /// The status of the block, such as `ALLOCATED` or `RESERVED`.
    pub status: String,
}

/// Whether `designation` names one of the five regional registries.
pub open spec fn is_registry(designation: Seq<char>) -> bool {
    ||| designation == "AFRINIC"@
    ||| designation == "APNIC"@
    ||| designation == "ARIN"@
    ||| designation == "LACNIC"@
    ||| designation == "RIPE NCC"@
}

/// Whether the record counts: its block is allocated, and to a regional
/// registry.
pub open spec fn is_allocated(record: Ipv6Allocation) -> bool {
    record.status@ == "ALLOCATED"@ && is_registry(record.designation@)
}

/// The blocks of the records that count, in the order of the records.
pub open spec fn allocated_blocks(records: Seq<Ipv6Allocation>) -> Seq<Ipv6Network> {
    records.filter(|record: Ipv6Allocation| is_allocated(record)).map_values(
        |record: Ipv6Allocation| record.prefix,
    )
}

/// Whether two texts are the same, character by character.
pub fn text_equals(a: &str, b: &str) -> (same: bool)
    ensures
        same == (a@ == b@),
{
    let left = a.as_bytes();
    let right = b.as_bytes();
    proof {
        encode_utf8_decode_utf8(a@);
        encode_utf8_decode_utf8(b@);
    }
    if left.len() != right.len() {
        return false;
    }
    let mut i: usize = 0;
    while i < left.len()
        invariant
            i <= left.len(),
            left.len() == right.len(),
            left@ == a.spec_bytes(),
            right@ == b.spec_bytes(),
            forall|k: int| 0 <= k < i ==> left@[k] == right@[k],
        decreases left.len() - i,
    {
        if left[i] != right[i] {
            return false;
        }
        i += 1;
    }
    assert(left@ =~= right@);
    true
}

/// Whether the record counts as an allocation to a regional registry.
pub fn counts_as_allocated(record: &Ipv6Allocation) -> (counts: bool)
    ensures
        counts == is_allocated(*record),
{
    let designation = record.designation.as_str();
    text_equals(record.status.as_str(), "ALLOCATED") && (text_equals(designation, "AFRINIC")
        || text_equals(designation, "APNIC") || text_equals(designation, "ARIN") || text_equals(
        designation,
        "LACNIC",
    ) || text_equals(designation, "RIPE NCC"))
}

/// The blocks of the records that count as allocated, in the order of the
/// records.
pub fn allocated_networks(records: &Vec<Ipv6Allocation>) -> (networks: Vec<Ipv6Network>)
    ensures
        networks@ == allocated_blocks(records@),
{
    let mut networks: Vec<Ipv6Network> = Vec::new();
    let mut i: usize = 0;
    assert(records@.take(0) =~= Seq::empty());
    while i < records.len()
        invariant
            i <= records.len(),
            networks@ == allocated_blocks(records@.take(i as int)),
        decreases records.len() - i,
    {
        let ghost done = records@.take(i as int);
        let ghost counts = |record: Ipv6Allocation| is_allocated(record);
        proof {
            assert(records@.take(i + 1) == done.push(records@[i as int]));
            done.lemma_filter_push(records@[i as int], counts);
        }
        if counts_as_allocated(&records[i]) {
            networks.push(records[i].prefix);
            proof {
                let chosen = done.filter(counts);
                assert(chosen.push(records@[i as int]).map_values(
                    |record: Ipv6Allocation| record.prefix,
                ) =~= chosen.map_values(|record: Ipv6Allocation| record.prefix).push(
                    records@[i as int].prefix,
                ));
            }
        }
        i += 1;
    }
    assert(records@.take(i as int) == records@);
    networks
}

} // verus!
