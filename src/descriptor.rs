//! Bit-exact views of the two 64-bit translation-table descriptor formats.
//!
//! Every field is a contiguous run of bits inside the raw word: `bits` reads one,
//! `with_bits` replaces one and leaves every other bit alone.
use vstd::prelude::*;

verus! {

/// Bits [47:16]: the next-level table's (or the output page's) address, in pages.
pub const ADDRESS_MASK: u64 = 0x0000_ffff_ffff_0000;

/// Position of the lowest address bit.
pub const ADDRESS_SHIFT: u64 = 16;

/// Bit of the access flag in a page descriptor.
pub const ACCESS_FLAG_BIT: u64 = 10;

/// The field of `width_mask` bits that starts at bit `lsb`.
pub open spec fn bits(raw: u64, lsb: u64, width_mask: u64) -> u64 {
    (raw >> lsb) & width_mask
}

/// `raw` with the field of `width_mask` bits at bit `lsb` replaced by the low bits of `v`.
pub open spec fn with_bits(raw: u64, lsb: u64, width_mask: u64, v: u64) -> u64 {
    (raw & !(width_mask << lsb)) | ((v & width_mask) << lsb)
}

pub open spec fn flag(raw: u64, bit: u64) -> bool {
    bits(raw, bit, 1) == 1
}

pub open spec fn with_flag(raw: u64, bit: u64, on: bool) -> u64 {
    with_bits(raw, bit, 1, if on { 1 } else { 0 })
}

/// The validity marker, bits [1:0].
pub open spec fn marker_of(raw: u64) -> u64 {
    bits(raw, 0, 3)
}

/// The address field, bits [47:16].
pub open spec fn address_of(raw: u64) -> u32 {
    bits(raw, ADDRESS_SHIFT, 0xffff_ffff) as u32
}

pub open spec fn with_address(raw: u64, page: u32) -> u64 {
    with_bits(raw, ADDRESS_SHIFT, 0xffff_ffff, page as u64)
}

fn get_bits(raw: u64, lsb: u64, width_mask: u64) -> (r: u64)
    requires
        lsb < 64,
    ensures
        r == bits(raw, lsb, width_mask),
{
    (raw >> lsb) & width_mask
}

fn put_bits(raw: u64, lsb: u64, width_mask: u64, v: u64) -> (r: u64)
    requires
        lsb < 64,
    ensures
        r == with_bits(raw, lsb, width_mask, v),
{
    (raw & !(width_mask << lsb)) | ((v & width_mask) << lsb)
}

fn put_flag(raw: u64, bit: u64, on: bool) -> (r: u64)
    requires
        bit < 64,
    ensures
        r == with_flag(raw, bit, on),
{
    put_bits(raw, bit, 1, if on { 1 } else { 0 })
}

/// A descriptor that points at a next-level translation table.
#[derive(Clone, Copy, Debug, PartialEq, Eq, Structural)]
pub struct TableDescriptor(pub u64);

impl TableDescriptor {
    /// Marker of a valid table descriptor.
    pub const VALID_BITS: u64 = 0b11;

    pub open spec fn is_valid(self) -> bool {
        marker_of(self.0) == Self::VALID_BITS
    }

    /// Whether the marker says this descriptor is a valid table descriptor.
    pub fn valid(&self) -> (r: bool)
        ensures
            r == self.is_valid(),
    {
        self.marker() == Self::VALID_BITS
    }

    /// Sets the marker of a valid table descriptor; every other field is kept.
    pub fn set_valid(&mut self)
        ensures
            final(self).0 == with_bits(old(self).0, 0, 3, Self::VALID_BITS),
    {
        self.set_marker(Self::VALID_BITS);
    }

    pub fn marker(&self) -> (r: u64)
        ensures
            r == marker_of(self.0),
    {
        get_bits(self.0, 0, 3)
    }

    pub fn set_marker(&mut self, m: u64)
        ensures
            final(self).0 == with_bits(old(self).0, 0, 3, m),
    {
        self.0 = put_bits(self.0, 0, 3, m);
    }

    /// The next-level table's address in pages (bits [47:16]).
    pub fn next_address(&self) -> (r: u32)
        ensures
            r == address_of(self.0),
    {
        let v = get_bits(self.0, ADDRESS_SHIFT, 0xffff_ffff);
        proof {
            let raw = self.0;
            assert((raw >> 16u64) & 0xffff_ffffu64 <= 0xffff_ffffu64) by (bit_vector);
        }
        v as u32
    }

    pub fn set_next_address(&mut self, page: u32)
        ensures
            final(self).0 == with_address(old(self).0, page),
    {
        self.0 = put_bits(self.0, ADDRESS_SHIFT, 0xffff_ffff, page as u64);
    }

    /// Non-secure bit for the next level (bit 63).
    pub fn ns_table(&self) -> (r: bool)
        ensures
            r == flag(self.0, 63),
    {
        get_bits(self.0, 63, 1) == 1
    }

    pub fn set_ns_table(&mut self, on: bool)
        ensures
            final(self).0 == with_flag(old(self).0, 63, on),
    {
        self.0 = put_flag(self.0, 63, on);
    }

    /// Access permissions limit for the next level (bits [62:61]).
    pub fn ap_table(&self) -> (r: u64)
        ensures
            r == bits(self.0, 61, 3),
    {
        get_bits(self.0, 61, 3)
    }

    pub fn set_ap_table(&mut self, v: u64)
        ensures
            final(self).0 == with_bits(old(self).0, 61, 3, v),
    {
        self.0 = put_bits(self.0, 61, 3, v);
    }

    /// Execute-never limit for the next level (bit 60).
    pub fn xn_table(&self) -> (r: bool)
        ensures
            r == flag(self.0, 60),
    {
        get_bits(self.0, 60, 1) == 1
    }

    pub fn set_xn_table(&mut self, on: bool)
        ensures
            final(self).0 == with_flag(old(self).0, 60, on),
    {
        self.0 = put_flag(self.0, 60, on);
    }

    /// Privileged execute-never limit for the next level (bit 59).
    pub fn pxn_table(&self) -> (r: bool)
        ensures
            r == flag(self.0, 59),
    {
        get_bits(self.0, 59, 1) == 1
    }

    pub fn set_pxn_table(&mut self, on: bool)
        ensures
            final(self).0 == with_flag(old(self).0, 59, on),
    {
        self.0 = put_flag(self.0, 59, on);
    }
}

/// A leaf descriptor that maps one page.
#[derive(Clone, Copy, Debug, PartialEq, Eq, Structural)]
pub struct PageDescriptor(pub u64);

impl PageDescriptor {
    /// Marker of a valid page descriptor.
    pub const VALID_BITS: u64 = 0b01;

    pub open spec fn is_valid(self) -> bool {
        marker_of(self.0) == Self::VALID_BITS
    }

    /// Whether the marker says this descriptor is a valid page descriptor.
    pub fn valid(&self) -> (r: bool)
        ensures
            r == self.is_valid(),
    {
        self.marker() == Self::VALID_BITS
    }

    /// Sets the marker of a valid page descriptor; every other field is kept.
    pub fn set_valid(&mut self)
        ensures
            final(self).0 == with_bits(old(self).0, 0, 3, Self::VALID_BITS),
    {
        self.set_marker(Self::VALID_BITS);
    }

    pub fn marker(&self) -> (r: u64)
        ensures
            r == marker_of(self.0),
    {
        get_bits(self.0, 0, 3)
    }

    pub fn set_marker(&mut self, m: u64)
        ensures
            final(self).0 == with_bits(old(self).0, 0, 3, m),
    {
        self.0 = put_bits(self.0, 0, 3, m);
    }

    /// The output page's address in pages (bits [47:16]).
    pub fn output_address(&self) -> (r: u32)
        ensures
            r == address_of(self.0),
    {
        let v = get_bits(self.0, ADDRESS_SHIFT, 0xffff_ffff);
        proof {
            let raw = self.0;
            assert((raw >> 16u64) & 0xffff_ffffu64 <= 0xffff_ffffu64) by (bit_vector);
        }
        v as u32
    }

    pub fn set_output_address(&mut self, page: u32)
        ensures
            final(self).0 == with_address(old(self).0, page),
    {
        self.0 = put_bits(self.0, ADDRESS_SHIFT, 0xffff_ffff, page as u64);
    }

    /// The access flag (bit 10): a leaf must have it set before the hardware may cache it.
    pub fn access_flag(&self) -> (r: bool)
        ensures
            r == flag(self.0, ACCESS_FLAG_BIT),
    {
        get_bits(self.0, ACCESS_FLAG_BIT, 1) == 1
    }

    pub fn set_access_flag(&mut self, on: bool)
        ensures
            final(self).0 == with_flag(old(self).0, ACCESS_FLAG_BIT, on),
    {
        self.0 = put_flag(self.0, ACCESS_FLAG_BIT, on);
    }
}

/// The raw word of a table descriptor with the given fields, built from zero.
pub open spec fn table_encode(ns: bool, ap: u64, xn: bool, pxn: bool, page: u32, marker: u64) -> u64 {
    with_bits(
        with_address(with_flag(with_flag(with_bits(with_flag(0, 63, ns), 61, 3, ap), 60, xn), 59, pxn), page),
        0,
        3,
        marker,
    )
}

/// The raw word of a page descriptor with the given fields, built from zero.
pub open spec fn page_encode(page: u32, access: bool, marker: u64) -> u64 {
    with_bits(with_flag(with_address(0, page), ACCESS_FLAG_BIT, access), 0, 3, marker)
}

/// Table descriptor round trip: every field written into a zero word reads back unchanged.
pub proof fn lemma_table_descriptor_round_trip(
    ns: bool,
    ap: u64,
    xn: bool,
    pxn: bool,
    page: u32,
    marker: u64,
)
    by (bit_vector)
    requires
        ap < 4,
        marker < 4,
    ensures
        flag(table_encode(ns, ap, xn, pxn, page, marker), 63) == ns,
        bits(table_encode(ns, ap, xn, pxn, page, marker), 61, 3) == ap,
        flag(table_encode(ns, ap, xn, pxn, page, marker), 60) == xn,
        flag(table_encode(ns, ap, xn, pxn, page, marker), 59) == pxn,
        address_of(table_encode(ns, ap, xn, pxn, page, marker)) == page,
        marker_of(table_encode(ns, ap, xn, pxn, page, marker)) == marker,
{
}

/// Page descriptor round trip: every field written into a zero word reads back unchanged.
pub proof fn lemma_page_descriptor_round_trip(page: u32, access: bool, marker: u64)
    by (bit_vector)
    requires
        marker < 4,
    ensures
        address_of(page_encode(page, access, marker)) == page,
        flag(page_encode(page, access, marker), ACCESS_FLAG_BIT) == access,
        marker_of(page_encode(page, access, marker)) == marker,
{
}

/// Decoding then encoding a page descriptor gives back the word, less the bits
/// outside its known fields.
pub proof fn lemma_page_descriptor_decode_encode(raw: u64)
    by (bit_vector)
    ensures
        page_encode(address_of(raw), flag(raw, ACCESS_FLAG_BIT), marker_of(raw))
            == raw & (ADDRESS_MASK | 0x403u64),
{
}

/// Pointing any word at a next-level table and marking it valid: the address and
/// the marker read back as written.
pub proof fn lemma_table_link(raw: u64, page: u32)
    by (bit_vector)
    ensures
        address_of(with_bits(with_address(raw, page), 0, 3, 3)) == page,
        marker_of(with_bits(with_address(raw, page), 0, 3, 3)) == 3,
{
}

/// Filling any word as a leaf: the output address, the access flag and the
/// marker read back as written.
pub proof fn lemma_page_link(raw: u64, page: u32)
    by (bit_vector)
    ensures
        address_of(with_bits(with_flag(with_address(raw, page), ACCESS_FLAG_BIT, true), 0, 3, 1)) == page,
        flag(with_bits(with_flag(with_address(raw, page), ACCESS_FLAG_BIT, true), 0, 3, 1), ACCESS_FLAG_BIT),
        marker_of(with_bits(with_flag(with_address(raw, page), ACCESS_FLAG_BIT, true), 0, 3, 1)) == 1,
{
}

} // verus!
