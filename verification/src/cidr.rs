//! CIDR blocks of the 128-bit address space.
//!
//! A block is a base address and a prefix length. Its addresses are those that
//! agree with the base on the first `prefix` bits; read as integers they are
//! the closed range from the base to the base with all free bits set.

use vstd::prelude::*;
use vstd::arithmetic::power2::{lemma2_to64, lemma_pow2_unfold, pow2};
use crate::network::prefix_mask;

verus! {

/// The mask of the bits that a prefix of the given length leaves free: the low
/// `128 - prefix` bits.
pub open spec fn host_mask(prefix: u8) -> u128 {
    if prefix >= 128 {
        0u128
    } else {
        u128::MAX >> (prefix as u128)
    }
}

/// A CIDR block of the IPv6 address space.
#[derive(Debug, Clone, Copy, PartialEq, Eq, Structural)]
pub struct Ipv6Network {
    /// The network address.
    pub base: u128,
    /// The number of leading bits that the addresses of the block share.
    pub prefix: u8,
}

impl Ipv6Network {
    /// The prefix is at most 128 bits long, and the base has no bit set
    /// behind it.
    pub open spec fn well_formed(&self) -> bool {
        &&& self.prefix <= 128
        &&& self.base & host_mask(self.prefix) == 0
    }

    /// Whether the address `a` lies in the block.
    pub open spec fn covers(&self, a: u128) -> bool {
        a & !host_mask(self.prefix) == self.base
    }

    /// The highest address of the block.
    pub open spec fn last(&self) -> u128 {
        self.base | host_mask(self.prefix)
    }

    /// The block of the given base and prefix length, if the prefix is at
    /// most 128 bits long and the base has no bit set behind it.
    pub fn new(base: u128, prefix: u8) -> (r: Option<Self>)
        ensures
            r == if prefix <= 128 && base & host_mask(prefix) == 0 {
                Some(Ipv6Network { base, prefix })
            } else {
                None::<Ipv6Network>
            },
    {
        if prefix <= 128 && base & free_bits(prefix) == 0 {
            Some(Ipv6Network { base, prefix })
        } else {
            None
        }
    }

    /// Whether the address `ip` lies in the block.
    pub fn contains(&self, ip: u128) -> (r: bool)
        ensures
            r == self.covers(ip),
    {
        ip & !free_bits(self.prefix) == self.base
    }

    /// The lowest address of the block.
    pub fn network(&self) -> (r: u128)
        ensures
            r == self.base,
    {
        self.base
    }

    /// The highest address of the block.
    pub fn broadcast(&self) -> (r: u128)
        ensures
            r == self.last(),
    {
        self.base | free_bits(self.prefix)
    }

    /// The prefix length of the block.
    pub fn prefix(&self) -> (r: u8)
        ensures
            r == self.prefix,
    {
        self.prefix
    }
}

/// Whether the address `a` lies in one of `blocks`.
pub open spec fn covered_by(blocks: Seq<Ipv6Network>, a: u128) -> bool {
    exists|i: int| 0 <= i < blocks.len() && (#[trigger] blocks[i]).covers(a)
}

/// The addresses that lie in one of `blocks`.
pub open spec fn block_points(blocks: Seq<Ipv6Network>) -> Set<u128> {
    Set::new(|a: u128| covered_by(blocks, a))
}

/// Every block is well formed.
pub open spec fn all_well_formed(blocks: Seq<Ipv6Network>) -> bool {
    forall|i: int| 0 <= i < blocks.len() ==> (#[trigger] blocks[i]).well_formed()
}

/// No address lies in two of the blocks.
pub open spec fn pairwise_disjoint(blocks: Seq<Ipv6Network>) -> bool {
    forall|i: int, j: int, a: u128|
        #![trigger blocks[i].covers(a), blocks[j].covers(a)]
        0 <= i < j < blocks.len() ==> !(blocks[i].covers(a) && blocks[j].covers(a))
}

/// The range of each block: its lowest and its highest address.
pub open spec fn ranges_of(blocks: Seq<Ipv6Network>) -> Seq<(u128, u128)> {
    Seq::new(blocks.len(), |i: int| (blocks[i].base, blocks[i].last()))
}

/// The mask of the low `128 - prefix` bits.
pub fn free_bits(prefix: u8) -> (m: u128)
    ensures
        m == host_mask(prefix),
{
    if prefix >= 128 {
        0
    } else {
        u128::MAX >> (prefix as u32)
    }
}

/// The addresses of a well-formed block are those from its base up to its
/// highest address, which lies `host_mask(prefix)` above the base.
pub proof fn lemma_covers_is_range(block: Ipv6Network, a: u128)
    requires
        block.well_formed(),
    ensures
        block.covers(a) <==> block.base <= a <= block.last(),
        block.last() == block.base + host_mask(block.prefix),
{
    let base = block.base;
    let h = host_mask(block.prefix);
    let p = block.prefix as u128;
    if block.prefix >= 128 {
        assert(a & !0u128 == a && base | 0u128 == base) by (bit_vector);
    } else {
        assert(((a & !h == base) <==> (base <= a && a <= (base | h))) && base | h == base + h)
            by (bit_vector)
            requires
                p < 128,
                h == u128::MAX >> p,
                base & h == 0,
        ;
    }
}

/// A longer prefix leaves fewer bits free: its host mask lies within that of
/// any shorter prefix, and masking by the longer prefix first changes nothing
/// for the shorter one.
pub proof fn lemma_host_mask_nested(q: u8, p: u8, a: u128)
    requires
        q <= p <= 128,
    ensures
        (a & !host_mask(p)) & !host_mask(q) == a & !host_mask(q),
        host_mask(p) <= host_mask(q),
        a & host_mask(q) == 0 ==> a & host_mask(p) == 0,
{
    let hq = host_mask(q);
    let hp = host_mask(p);
    let pp = p as u128;
    let qq = q as u128;
    assert((a & !hp) & !hq == a & !hq && hp <= hq && (a & hq == 0 ==> a & hp == 0))
        by (bit_vector)
        requires
            qq <= pp <= 128,
            hq == (if qq >= 128 {
                0u128
            } else {
                u128::MAX >> qq
            }),
            hp == (if pp >= 128 {
                0u128
            } else {
                u128::MAX >> pp
            }),
    ;
}

/// A block of prefix length `prefix` holds two to the power of
/// `128 - prefix` addresses: its host mask is one less than that.
pub proof fn lemma_host_mask_is_pow2(prefix: u8)
    requires
        prefix <= 128,
    ensures
        host_mask(prefix) + 1 == pow2((128 - prefix) as nat),
    decreases 128 - prefix,
{
    if prefix == 128 {
        lemma2_to64();
    } else {
        lemma_host_mask_is_pow2((prefix + 1) as u8);
        lemma_pow2_unfold((128 - prefix) as nat);
        let wide = host_mask(prefix);
        let narrow = host_mask((prefix + 1) as u8);
        let p = prefix as u128;
        assert(wide == 2 * narrow + 1) by (bit_vector)
            requires
                p < 128,
                wide == u128::MAX >> p,
                narrow == (if p + 1 >= 128 {
                    0u128
                } else {
                    u128::MAX >> ((p + 1) as u128)
                }),
        ;
    }
}

/// A shorter prefix leaves more bits free: its host mask is the greater.
pub proof fn lemma_host_mask_grows(q: u8, p: u8)
    requires
        q < p <= 128,
    ensures
        host_mask(q) > host_mask(p),
        host_mask(q) >= 2 * host_mask(p) + 1,
{
    let hq = host_mask(q);
    let hp = host_mask(p);
    let pp = p as u128;
    let qq = q as u128;
    assert(hq > hp && hq - hp > hp) by (bit_vector)
        requires
            qq < pp <= 128,
            hq == u128::MAX >> qq,
            hp == (if pp >= 128 {
                0u128
            } else {
                u128::MAX >> pp
            }),
    ;
}

/// A well-formed block holds its own base address.
pub proof fn lemma_covers_own_base(block: Ipv6Network)
    requires
        block.well_formed(),
    ensures
        block.covers(block.base),
{
    let b = block.base;
    let h = host_mask(block.prefix);
    assert(b & !h == b) by (bit_vector)
        requires
            b & h == 0,
    ;
}

/// Of two blocks that share an address, the wider one holds the base address
/// of the other; and a block that holds the base address of a block no wider
/// than itself holds all of it.
pub proof fn lemma_nested_blocks(outer: Ipv6Network, inner: Ipv6Network, a: u128)
    requires
        outer.prefix <= inner.prefix <= 128,
        inner.covers(a),
    ensures
        outer.covers(a) <==> outer.covers(inner.base),
{
    lemma_host_mask_nested(outer.prefix, inner.prefix, a);
}

/// A block whose prefix is at most 32 bits long is told apart by the top 32
/// bits of an address alone: the top 32 bits of its base, under the 32-bit
/// mask of the same prefix length, match exactly the addresses of the block.
pub proof fn lemma_projection_is_lossless(block: Ipv6Network, a: u128)
    requires
        block.well_formed(),
        block.prefix <= 32,
    ensures
        ((block.base >> 96) as u32) & !prefix_mask(block.prefix) == 0,
        ((a >> 96) as u32 & prefix_mask(block.prefix) == (block.base >> 96) as u32)
            <==> block.covers(a),
{
    let base = block.base;
    let h = host_mask(block.prefix);
    let m = prefix_mask(block.prefix);
    let p = block.prefix as u128;
    let free: u32 = (32 - block.prefix) as u32;
    assert((((base >> 96) as u32) & !m == 0) && (((a >> 96) as u32 & m == (base >> 96) as u32)
        <==> (a & !h == base))) by (bit_vector)
        requires
            p <= 32,
            free == 32 - p,
            h == u128::MAX >> p,
            m == (if p == 0 {
                0u32
            } else {
                u32::MAX << free
            }),
            base & h == 0,
    ;
}

/// Of two blocks with prefixes of at most 32 bits, one ends before the other
/// starts exactly when that holds of their top 32 bits.
pub proof fn lemma_projection_keeps_order(before: Ipv6Network, after: Ipv6Network)
    requires
        before.well_formed(),
        after.well_formed(),
        before.prefix <= 32,
        after.prefix <= 32,
    ensures
        before.last() < after.base <==> ((before.base >> 96) as u32 | !prefix_mask(before.prefix))
            < (after.base >> 96) as u32,
{
    let b = before.base;
    let c = after.base;
    let h = host_mask(before.prefix);
    let g = host_mask(after.prefix);
    let m = prefix_mask(before.prefix);
    let p = before.prefix as u128;
    let q = after.prefix as u128;
    let free: u32 = (32 - before.prefix) as u32;
    assert(((b | h) < c) <==> (((b >> 96) as u32 | !m) < (c >> 96) as u32)) by (bit_vector)
        requires
            p <= 32,
            q <= 32,
            free == 32 - p,
            h == u128::MAX >> p,
            g == u128::MAX >> q,
            m == (if p == 0 {
                0u32
            } else {
                u32::MAX << free
            }),
            b & h == 0,
            c & g == 0,
    ;
}

} // verus!
