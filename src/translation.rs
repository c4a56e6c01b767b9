//! Splitting a virtual address into the indices of a three-level walk with a
//! 64 KiB granule and 48-bit input addresses: 6 + 13 + 13 index bits above a
//! 16-bit page offset.
use vstd::prelude::*;
use crate::descriptor::bits;

verus! {

/// Entries in the level-1 table (6 index bits).
pub const L1_ENTRIES: usize = 1024;

/// Entries in a level-2 or level-3 table (13 index bits).
pub const TABLE_ENTRIES: usize = 8192;

/// One past the largest supported virtual address.
pub const VA_LIMIT: u64 = 0x1_0000_0000_0000;

pub open spec fn l1_of(va: u64) -> u64 {
    bits(va, 42, 0x3f)
}

pub open spec fn l2_of(va: u64) -> u64 {
    bits(va, 29, 0x1fff)
}

pub open spec fn l3_of(va: u64) -> u64 {
    bits(va, 16, 0x1fff)
}

pub open spec fn offset_of(va: u64) -> u64 {
    bits(va, 0, 0xffff)
}

/// Packs the four parts back into an address.
pub open spec fn compose(l1: u64, l2: u64, l3: u64, offset: u64) -> u64 {
    (l1 << 42u64) | (l2 << 29u64) | (l3 << 16u64) | offset
}

/// A virtual address, read as the indices that the hardware walk uses.
#[derive(Clone, Copy, Debug, PartialEq, Eq, Structural)]
pub struct TranslationAddress(pub u64);

impl TranslationAddress {
    /// The address itself.
    pub fn address(&self) -> (r: u64)
        ensures
            r == self.0,
    {
        self.0
    }

    /// Index into the level-1 table: bits [47:42].
    pub fn l1_index(&self) -> (r: u64)
        ensures
            r == l1_of(self.0),
            r < 64,
    {
        let va = self.0;
        proof {
            assert((va >> 42u64) & 0x3fu64 < 64) by (bit_vector);
        }
        (va >> 42) & 0x3f
    }

    /// Index into the level-2 table: bits [41:29].
    pub fn l2_index(&self) -> (r: u64)
        ensures
            r == l2_of(self.0),
            r < 8192,
    {
        let va = self.0;
        proof {
            assert((va >> 29u64) & 0x1fffu64 < 8192) by (bit_vector);
        }
        (va >> 29) & 0x1fff
    }

    /// Index into the level-3 table: bits [28:16].
    pub fn l3_index(&self) -> (r: u64)
        ensures
            r == l3_of(self.0),
            r < 8192,
    {
        let va = self.0;
        proof {
            assert((va >> 16u64) & 0x1fffu64 < 8192) by (bit_vector);
        }
        (va >> 16) & 0x1fff
    }

    /// Offset inside the page: bits [15:0].
    pub fn offset(&self) -> (r: u64)
        ensures
            r == offset_of(self.0),
    {
        let va = self.0;
        proof {
            assert(va & 0xffffu64 == (va >> 0u64) & 0xffffu64) by (bit_vector);
        }
        va & 0xffff
    }

    /// The address whose indices and offset are the given ones.
    pub fn from_indices(l1: u64, l2: u64, l3: u64, offset: u64) -> (r: TranslationAddress)
        requires
            l1 < 64,
            l2 < 8192,
            l3 < 8192,
            offset < 65536,
        ensures
            r.0 == compose(l1, l2, l3, offset),
            r.0 < VA_LIMIT,
            l1_of(r.0) == l1,
            l2_of(r.0) == l2,
            l3_of(r.0) == l3,
            offset_of(r.0) == offset,
    {
        proof {
            lemma_compose_split(l1, l2, l3, offset);
        }
        TranslationAddress((l1 << 42) | (l2 << 29) | (l3 << 16) | offset)
    }
}

/// Packing four in-range parts gives an address below 2^48 from which each
/// part reads back unchanged.
pub proof fn lemma_compose_split(l1: u64, l2: u64, l3: u64, offset: u64)
    by (bit_vector)
    requires
        l1 < 64,
        l2 < 8192,
        l3 < 8192,
        offset < 65536,
    ensures
        compose(l1, l2, l3, offset) < VA_LIMIT,
        l1_of(compose(l1, l2, l3, offset)) == l1,
        l2_of(compose(l1, l2, l3, offset)) == l2,
        l3_of(compose(l1, l2, l3, offset)) == l3,
        offset_of(compose(l1, l2, l3, offset)) == offset,
{
}

/// Index round trip: every address below 2^48 is recovered from its level-1,
/// level-2 and level-3 indices and its page offset.
pub proof fn lemma_index_round_trip(va: u64)
    by (bit_vector)
    requires
        va < VA_LIMIT,
    ensures
        compose(l1_of(va), l2_of(va), l3_of(va), offset_of(va)) == va,
{
}

} // verus!
