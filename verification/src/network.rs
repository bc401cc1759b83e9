//! CIDR blocks of the 32-bit address space, matched with one mask and one
//! comparison.
//!
//! A block is a base address and a prefix length, written `(base, prefix)`.
//! It holds the addresses that agree with the base on the first `prefix`
//! bits.

use vstd::prelude::*;
use vstd::arithmetic::power2::{lemma2_to64, lemma_pow2_unfold, pow2};
use vstd::std_specs::bits::{axiom_u32_trailing_zeros, u32_trailing_zeros};

verus! {

/// The mask whose top `prefix` bits are set and whose other bits are clear.
pub open spec fn prefix_mask(prefix: u8) -> u32
    recommends
        prefix <= 32,
{
    if prefix == 0 {
        0u32
    } else {
        u32::MAX << ((32 - prefix) as u32)
    }
}

/// Whether `block` is a block in canonical form: its prefix is at most 32
/// bits long, and its base has no bit set behind the prefix.
pub open spec fn is_block(block: (u32, u8)) -> bool {
    &&& block.1 <= 32
    &&& block.0 & !prefix_mask(block.1) == 0
}

/// Whether the 32-bit value `bits` lies in `block`.
pub open spec fn holds(block: (u32, u8), bits: u32) -> bool {
    bits & prefix_mask(block.1) == block.0
}

/// The highest address of `block`.
pub open spec fn last_of(block: (u32, u8)) -> u32 {
    block.0 | !prefix_mask(block.1)
}

/// Whether some block of `table` holds the 32-bit value `bits`.
pub open spec fn table_matches(table: Seq<(u32, u8)>, bits: u32) -> bool {
    exists|i: int| 0 <= i < table.len() && holds(#[trigger] table[i], bits)
}

/// Each block of `table` ends before any later one starts.
pub open spec fn rising(table: Seq<(u32, u8)>) -> bool {
    forall|i: int, j: int|
        0 <= i < j < table.len() ==> last_of(#[trigger] table[i]) < (#[trigger] table[j]).0
}

/// A network of the 32-bit address space: a base address and the mask of its
/// prefix length.
///
/// IPv4 networks are held as they are. An IPv6 network whose prefix is at most
/// 32 bits long is held by the top 32 bits of its base, which is all that its
/// prefix can tell apart.
#[derive(Debug, Clone, Copy, PartialEq, Eq, Structural)]
pub struct FourByteNetwork {
    network: u32,
    mask: u32,
}

impl View for FourByteNetwork {
    type V = (u32, u8);

    /// The block that the network stands for: its base address and the prefix
    /// length of its mask.
    closed spec fn view(&self) -> (u32, u8) {
        (self.network, (32 - u32_trailing_zeros(self.mask)) as u8)
    }
}

impl FourByteNetwork {
    /// The mask is that of the prefix length, and the block is in canonical
    /// form. This holds of every network that [`FourByteNetwork::new`] makes.
    #[verifier::type_invariant]
    pub closed spec fn well_formed(&self) -> bool {
        &&& self.mask == prefix_mask(self@.1)
        &&& is_block(self@)
    }

    /// The network of the given base address and prefix length.
    pub fn new(network: u32, prefix: u8) -> (r: Self)
        requires
            is_block((network, prefix)),
        ensures
            r@ == (network, prefix),
            r.well_formed(),
    {
        let mask: u32 = if prefix == 0 {
            0
        } else {
            u32::MAX << (32 - prefix as u32)
        };
        proof {
            lemma_prefix_of_mask(prefix);
        }
        Self { network, mask }
    }

    /// Whether the IPv4 address `ip`, as its 32 bits, lies in this network.
    pub fn contains_v4(&self, ip: u32) -> (r: bool)
        ensures
            r == holds(self@, ip),
    {
        proof {
            use_type_invariant(self);
        }
        (ip & self.mask) == self.network
    }

    /// Whether the IPv6 address `ip`, as its 128 bits, lies in this network:
    /// the address is matched by its top 32 bits.
    pub fn contains_v6(&self, ip: u128) -> (r: bool)
        ensures
            r == holds(self@, (ip >> 96) as u32),
    {
        proof {
            use_type_invariant(self);
        }
        let top: u128 = ip >> 96;
        assert(top <= 0xffff_ffff) by (bit_vector)
            requires
                top == ip >> 96,
        ;
        (top as u32 & self.mask) == self.network
    }

    /// The base address of the network.
    pub fn network(&self) -> (r: u32)
        ensures
            r == self@.0,
    {
        self.network
    }

    /// The prefix length of the network.
    pub fn prefix(&self) -> (r: u8)
        ensures
            r == self@.1,
    {
        proof {
            axiom_u32_trailing_zeros(self.mask);
        }
        (32 - self.mask.trailing_zeros()) as u8
    }
}

/// Whether `networks` stand, entry by entry, for the blocks of `table`.
pub open spec fn is_table_of(networks: Seq<FourByteNetwork>, table: Seq<(u32, u8)>) -> bool {
    &&& networks.len() == table.len()
    &&& forall|i: int|
        0 <= i < networks.len() ==> (#[trigger] networks[i]).well_formed() && networks[i]@
            == table[i]
}

/// A well-formed network stands for a block in canonical form.
pub proof fn lemma_well_formed_is_block(network: FourByteNetwork)
    requires
        network.well_formed(),
    ensures
        is_block(network@),
{
}

/// The addresses of a block in canonical form are those from its base up to
/// its highest address, and no others.
pub proof fn lemma_holds_is_range(block: (u32, u8), bits: u32)
    requires
        is_block(block),
    ensures
        holds(block, bits) <==> block.0 <= bits <= last_of(block),
        block.0 <= last_of(block),
{
    let p = block.1;
    let m = prefix_mask(p);
    let b = block.0;
    let free: u32 = (32 - p) as u32;
    if p == 0 {
        assert((bits & m == b <==> b <= bits <= (b | !m)) && b <= (b | !m)) by (bit_vector)
            requires
                m == 0,
                b & !m == 0,
        ;
    } else {
        assert((bits & m == b <==> b <= bits <= (b | !m)) && b <= (b | !m)) by (bit_vector)
            requires
                free < 32,
                m == u32::MAX << free,
                b & !m == 0,
        ;
    }
}

/// A block of prefix length `prefix` holds two to the power of `32 - prefix`
/// addresses: its highest address lies one less than that above its base.
pub proof fn lemma_block_size(block: (u32, u8))
    requires
        is_block(block),
    ensures
        last_of(block) - block.0 + 1 == pow2((32 - block.1) as nat),
    decreases 32 - block.1,
{
    let base = block.0;
    let mask = prefix_mask(block.1);
    let free: u32 = (32 - block.1) as u32;
    if block.1 == 32 {
        lemma2_to64();
        assert(base | !mask == base) by (bit_vector)
            requires
                mask == u32::MAX << 0u32,
        ;
    } else {
        let narrow = (0u32, (block.1 + 1) as u8);
        let narrow_mask = prefix_mask(narrow.1);
        assert(0u32 & !narrow_mask == 0 && (base | !mask) - base == (0u32 | !mask) && (0u32 | !mask)
            == 2 * (0u32 | !narrow_mask) + 1) by (bit_vector)
            requires
                0 < free <= 32,
                base & !mask == 0,
                mask == (if free == 32 {
                    0u32
                } else {
                    u32::MAX << free
                }),
                narrow_mask == u32::MAX << ((free - 1) as u32),
        ;
        lemma_block_size(narrow);
        lemma_pow2_unfold((32 - block.1) as nat);
    }
}

/// A prefix mask has as many trailing zero bits as the prefix leaves free.
pub proof fn lemma_prefix_of_mask(prefix: u8)
    requires
        prefix <= 32,
    ensures
        u32_trailing_zeros(prefix_mask(prefix)) == 32 - prefix,
{
    let m = prefix_mask(prefix);
    let free: u32 = (32 - prefix) as u32;
    let tz = u32_trailing_zeros(m);
    axiom_u32_trailing_zeros(m);
    if prefix != 0 {
        assert(m != 0 && (m >> free) & 1 == 1 && (forall|j: u32| j < free ==> (m >> j) & 1 == 0))
            by (bit_vector)
            requires
                free < 32,
                m == u32::MAX << free,
        ;
        if tz < free {
            assert((m >> tz) & 1 == 0);
        } else if tz > free {
            assert((m >> free) & 1 == 0);
        }
    }
}

} // verus!
