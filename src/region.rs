//! A contiguous range of physical memory and the virtual address it is mapped to,
//! enumerated page by page.
use vstd::prelude::*;
use crate::translation::TranslationAddress;
use crate::PAGE_SIZE;

verus! {

/// Pages needed to cover `size` bytes: the size divided by the page size, rounded up.
pub open spec fn page_count(size: u64) -> nat {
    if size % PAGE_SIZE == 0 {
        (size / PAGE_SIZE) as nat
    } else {
        (size / PAGE_SIZE + 1) as nat
    }
}

/// Page `i` of a region starts inside it exactly when `i` is below its page count.
pub proof fn lemma_page_count(size: u64, i: int)
    requires
        0 <= i,
    ensures
        i < page_count(size) <==> i * PAGE_SIZE < size,
{
    let q = size as int / 65536;
    let m = size as int % 65536;
    vstd::arithmetic::div_mod::lemma_fundamental_div_mod(size as int, 65536);
    assert(i < page_count(size) <==> i * 65536 < size) by (nonlinear_arith)
        requires
            0 <= i,
            size == 65536 * q + m,
            0 <= m < 65536,
            0 <= q,
            page_count(size) == if m == 0 { q } else { q + 1 },
    ;
}

/// Physical base, virtual base and size in bytes of one region to map.
#[derive(Clone, Copy, Debug, PartialEq, Eq, Structural)]
pub struct MemoryMapDescriptor {
    /// The physical address to map to.
    pub physical_address: u64,
    /// The virtual address to map from.
    pub virtual_address: u64,
    /// Size of the region in bytes.
    pub size: u64,
}

impl MemoryMapDescriptor {
    /// Both address ranges fit below 2^64.
    pub open spec fn fits(self) -> bool {
        &&& self.virtual_address + self.size <= u64::MAX
        &&& self.physical_address + self.size <= u64::MAX
    }

    /// Virtual address of page `i`.
    pub open spec fn page_virt(self, i: int) -> u64 {
        (self.virtual_address + i * PAGE_SIZE) as u64
    }

    /// Physical address of page `i`.
    pub open spec fn page_phys(self, i: int) -> u64 {
        (self.physical_address + i * PAGE_SIZE) as u64
    }

    /// The region that starts at physical address `start`, ends before physical
    /// address `end`, and is mapped at `virtual_address`.
    pub fn from_symbols(virtual_address: u64, start: u64, end: u64) -> (r: Self)
        requires
            start <= end,
        ensures
            r == (MemoryMapDescriptor { physical_address: start, virtual_address, size: (end - start) as u64 }),
    {
        MemoryMapDescriptor { physical_address: start, virtual_address, size: end - start }
    }

    /// One (virtual, physical) pair per page, in ascending order: the `i`-th pair is
    /// both bases plus `i` pages, for every `i` whose page starts inside the region.
    pub fn pages(&self) -> (r: Vec<(TranslationAddress, u64)>)
        requires
            self.fits(),
        ensures
            r@.len() == page_count(self.size),
            forall|i: int|
                0 <= i < r@.len() ==> #[trigger] r@[i] == (TranslationAddress(self.page_virt(i)), self.page_phys(i)),
    {
        let n: u64 = if self.size % PAGE_SIZE == 0 {
            self.size / PAGE_SIZE
        } else {
            self.size / PAGE_SIZE + 1
        };
        let mut r: Vec<(TranslationAddress, u64)> = Vec::new();
        let mut i: u64 = 0;
        while i < n
            invariant
                self.fits(),
                n == page_count(self.size),
                i <= n,
                r@.len() == i,
                forall|q: int|
                    0 <= q < i ==> #[trigger] r@[q] == (TranslationAddress(self.page_virt(q)), self.page_phys(q)),
            decreases n - i,
        {
            proof {
                lemma_page_count(self.size, i as int);
            }
            let offset = i * PAGE_SIZE;
            r.push((TranslationAddress(self.virtual_address + offset), self.physical_address + offset));
            i = i + 1;
        }
        r
    }
}

} // verus!
