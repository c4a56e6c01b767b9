//! Building the three-level translation structure, one page at a time.
//!
//! The state is read as a map from a page's index triple (level-1, level-2 and
//! level-3 index) to the physical page number that its leaf descriptor holds.
use vstd::prelude::*;
use crate::descriptor::{address_of, flag, ACCESS_FLAG_BIT, lemma_page_link, lemma_table_link, PageDescriptor, TableDescriptor};
use crate::error::BringUpError;
use crate::slots::AddressedSlots;
use crate::translation::{l1_of, l2_of, l3_of, TranslationAddress, L1_ENTRIES, TABLE_ENTRIES, VA_LIMIT};
use crate::region::{page_count, MemoryMapDescriptor};
use crate::PAGE_SIZE;

verus! {

/// The index triple of the page that holds `va`.
pub open spec fn page_key(va: u64) -> (int, int, int) {
    (l1_of(va) as int, l2_of(va) as int, l3_of(va) as int)
}

pub open spec fn key_in_range(key: (int, int, int)) -> bool {
    &&& 0 <= key.0 < L1_ENTRIES as int
    &&& 0 <= key.1 < TABLE_ENTRIES as int
    &&& 0 <= key.2 < TABLE_ENTRIES as int
}

/// The zero word is neither a valid table descriptor nor a valid page descriptor.
proof fn lemma_zero_invalid()
    ensures
        !TableDescriptor(0).is_valid(),
        !PageDescriptor(0).is_valid(),
{
    assert(crate::descriptor::marker_of(0u64) == 0) by (bit_vector);
}

/// The single level-1 table.
pub struct L1TranslationTable {
    entries: Vec<TableDescriptor>,
}

impl L1TranslationTable {
    pub closed spec fn spec_entries(self) -> Seq<TableDescriptor> {
        self.entries@
    }

    /// A level-1 table whose every entry is the zero (invalid) descriptor.
    pub fn new() -> (r: Self)
        ensures
            r.spec_entries().len() == L1_ENTRIES,
            forall|i: int| 0 <= i < L1_ENTRIES ==> #[trigger] r.spec_entries()[i] == TableDescriptor(0),
    {
        let mut entries: Vec<TableDescriptor> = Vec::new();
        let mut i: usize = 0;
        while i < L1_ENTRIES
            invariant
                i <= L1_ENTRIES,
                entries@.len() == i,
                forall|k: int| 0 <= k < i ==> #[trigger] entries@[k] == TableDescriptor(0),
            decreases L1_ENTRIES - i,
        {
            entries.push(TableDescriptor(0));
            i = i + 1;
        }
        L1TranslationTable { entries }
    }
}

/// A level-2 table: descriptors of level-3 tables.
pub struct L2TranslationTable {
    entries: Vec<TableDescriptor>,
}

impl L2TranslationTable {
    pub closed spec fn spec_entries(self) -> Seq<TableDescriptor> {
        self.entries@
    }

    /// A level-2 table whose every entry is the zero (invalid) descriptor.
    pub fn new() -> (r: Self)
        ensures
            r.spec_entries().len() == TABLE_ENTRIES,
            forall|i: int| 0 <= i < TABLE_ENTRIES ==> #[trigger] r.spec_entries()[i] == TableDescriptor(0),
    {
        let mut entries: Vec<TableDescriptor> = Vec::new();
        let mut i: usize = 0;
        while i < TABLE_ENTRIES
            invariant
                i <= TABLE_ENTRIES,
                entries@.len() == i,
                forall|k: int| 0 <= k < i ==> #[trigger] entries@[k] == TableDescriptor(0),
            decreases TABLE_ENTRIES - i,
        {
            entries.push(TableDescriptor(0));
            i = i + 1;
        }
        L2TranslationTable { entries }
    }
}

/// A level-3 table: descriptors of pages.
pub struct L3TranslationTable {
    entries: Vec<PageDescriptor>,
}

impl L3TranslationTable {
    pub closed spec fn spec_entries(self) -> Seq<PageDescriptor> {
        self.entries@
    }

    /// A level-3 table whose every entry is the zero (invalid) descriptor.
    pub fn new() -> (r: Self)
        ensures
            r.spec_entries().len() == TABLE_ENTRIES,
            forall|i: int| 0 <= i < TABLE_ENTRIES ==> #[trigger] r.spec_entries()[i] == PageDescriptor(0),
    {
        let mut entries: Vec<PageDescriptor> = Vec::new();
        let mut i: usize = 0;
        while i < TABLE_ENTRIES
            invariant
                i <= TABLE_ENTRIES,
                entries@.len() == i,
                forall|k: int| 0 <= k < i ==> #[trigger] entries@[k] == PageDescriptor(0),
            decreases TABLE_ENTRIES - i,
        {
            entries.push(PageDescriptor(0));
            i = i + 1;
        }
        L3TranslationTable { entries }
    }
}

/// Backing store of `tables` zeroed level-2 tables, one after the other.
fn l2_backing(tables: usize) -> (r: Vec<TableDescriptor>)
    ensures
        r@.len() == tables * TABLE_ENTRIES,
        forall|p: int| 0 <= p < r@.len() ==> #[trigger] r@[p] == TableDescriptor(0),
{
    let mut v: Vec<TableDescriptor> = Vec::new();
    let mut t: usize = 0;
    while t < tables
        invariant
            t <= tables,
            v@.len() == t * TABLE_ENTRIES,
            forall|p: int| 0 <= p < v@.len() ==> #[trigger] v@[p] == TableDescriptor(0),
        decreases tables - t,
    {
        let mut table = L2TranslationTable::new();
        let ghost prev = v@;
        let ghost added = table.spec_entries();
        v.append(&mut table.entries);
        assert forall|p: int| 0 <= p < v@.len() implies #[trigger] v@[p] == TableDescriptor(0) by {
            if p >= prev.len() {
                assert(v@[p] == added[p - prev.len()]);
            }
        }
        t = t + 1;
    }
    v
}

/// Backing store of `tables` zeroed level-3 tables, one after the other.
fn l3_backing(tables: usize) -> (r: Vec<PageDescriptor>)
    ensures
        r@.len() == tables * TABLE_ENTRIES,
        forall|p: int| 0 <= p < r@.len() ==> #[trigger] r@[p] == PageDescriptor(0),
{
    let mut v: Vec<PageDescriptor> = Vec::new();
    let mut t: usize = 0;
    while t < tables
        invariant
            t <= tables,
            v@.len() == t * TABLE_ENTRIES,
            forall|p: int| 0 <= p < v@.len() ==> #[trigger] v@[p] == PageDescriptor(0),
        decreases tables - t,
    {
        let mut table = L3TranslationTable::new();
        let ghost prev = v@;
        let ghost added = table.spec_entries();
        v.append(&mut table.entries);
        assert forall|p: int| 0 <= p < v@.len() implies #[trigger] v@[p] == PageDescriptor(0) by {
            if p >= prev.len() {
                assert(v@[p] == added[p - prev.len()]);
            }
        }
        t = t + 1;
    }
    v
}

/// What an address space holds, seen from outside: the pages it maps, which
/// level-1 entries and which (level-1, level-2) entry pairs already have a
/// table, and how many tables each pool has lent out of how many.
pub struct SpaceView {
    pub mapping: Map<(int, int, int), u32>,
    pub l2_tables: Set<int>,
    pub l3_tables: Set<(int, int)>,
    pub l2_used: nat,
    pub l3_used: nat,
    pub l2_capacity: nat,
    pub l3_capacity: nat,
}

/// `v` after a level-2 table is created under level-1 entry `i`.
pub open spec fn with_l2_table(v: SpaceView, i: int) -> SpaceView {
    SpaceView {
        mapping: v.mapping,
        l2_tables: v.l2_tables.insert(i),
        l3_tables: v.l3_tables,
        l2_used: v.l2_used + 1,
        l3_used: v.l3_used,
        l2_capacity: v.l2_capacity,
        l3_capacity: v.l3_capacity,
    }
}

/// `v` after a level-3 table is created under the entry pair `(i, j)`.
pub open spec fn with_l3_table(v: SpaceView, i: int, j: int) -> SpaceView {
    SpaceView {
        mapping: v.mapping,
        l2_tables: v.l2_tables,
        l3_tables: v.l3_tables.insert((i, j)),
        l2_used: v.l2_used,
        l3_used: v.l3_used + 1,
        l2_capacity: v.l2_capacity,
        l3_capacity: v.l3_capacity,
    }
}

/// `v` after page `key` is mapped to physical page `page`.
pub open spec fn with_page(v: SpaceView, key: (int, int, int), page: u32) -> SpaceView {
    SpaceView {
        mapping: v.mapping.insert(key, page),
        l2_tables: v.l2_tables,
        l3_tables: v.l3_tables,
        l2_used: v.l2_used,
        l3_used: v.l3_used,
        l2_capacity: v.l2_capacity,
        l3_capacity: v.l3_capacity,
    }
}

/// Mapping page `key` to physical page `page`: the result, and what the space holds
/// after it. A missing level-2 table is created first, then a missing level-3 table;
/// each comes from its pool, and a full pool stops the step with `OutOfSlots`.
pub open spec fn page_step(v: SpaceView, key: (int, int, int), page: u32) -> (Result<(), BringUpError>, SpaceView) {
    if v.mapping.contains_key(key) {
        if v.mapping[key] == page {
            (Ok(()), v)
        } else {
            (Err(BringUpError::MappingConflict), v)
        }
    } else if !v.l2_tables.contains(key.0) && v.l2_used >= v.l2_capacity {
        (Err(BringUpError::OutOfSlots), v)
    } else {
        let v1 = if v.l2_tables.contains(key.0) {
            v
        } else {
            with_l2_table(v, key.0)
        };
        if !v1.l3_tables.contains((key.0, key.1)) && v1.l3_used >= v1.l3_capacity {
            (Err(BringUpError::OutOfSlots), v1)
        } else {
            let v2 = if v1.l3_tables.contains((key.0, key.1)) {
                v1
            } else {
                with_l3_table(v1, key.0, key.1)
            };
            (Ok(()), with_page(v2, key, page))
        }
    }
}

/// Mapping the pages `steps` (index triple, physical page) in order, stopping at the
/// first error: the result, and what the space holds after it.
pub open spec fn run_steps(v: SpaceView, steps: Seq<((int, int, int), u32)>) -> (Result<(), BringUpError>, SpaceView)
    decreases steps.len(),
{
    if steps.len() == 0 {
        (Ok(()), v)
    } else {
        let (r, v1) = page_step(v, steps[0].0, steps[0].1);
        if r is Err {
            (r, v1)
        } else {
            run_steps(v1, steps.drop_first())
        }
    }
}

/// Each pool has lent out exactly one table per entry (or entry pair) that has one.
pub open spec fn counts_match(v: SpaceView) -> bool {
    &&& v.l2_tables.finite()
    &&& v.l3_tables.finite()
    &&& v.l2_used == v.l2_tables.len()
    &&& v.l3_used == v.l3_tables.len()
}

/// Slot counts: a step takes a level-2 slot only for a level-1 index without a
/// table, and a level-3 slot only for an entry pair without one, so the pools'
/// counts keep matching the tables.
pub proof fn lemma_page_step_counts(v: SpaceView, key: (int, int, int), page: u32)
    requires
        counts_match(v),
    ensures
        counts_match(page_step(v, key, page).1),
{
}

/// Slot counts hold after any run of steps.
pub proof fn lemma_run_steps_counts(v: SpaceView, steps: Seq<((int, int, int), u32)>)
    requires
        counts_match(v),
    ensures
        counts_match(run_steps(v, steps).1),
    decreases steps.len(),
{
    if steps.len() > 0 {
        lemma_page_step_counts(v, steps[0].0, steps[0].1);
        let (r, v1) = page_step(v, steps[0].0, steps[0].1);
        if r is Ok {
            lemma_run_steps_counts(v1, steps.drop_first());
        }
    }
}

/// Slot counts hold after mapping any list of regions: from a fresh space, the
/// level-2 slots taken are the distinct level-1 indices reached, and the level-3
/// slots the distinct (level-1, level-2) pairs.
pub proof fn lemma_run_regions_counts(v: SpaceView, regions: Seq<MemoryMapDescriptor>)
    requires
        counts_match(v),
    ensures
        counts_match(run_regions(v, regions).1),
    decreases regions.len(),
{
    if regions.len() > 0 {
        lemma_run_steps_counts(v, region_steps(regions[0]));
        let (r, v1) = run_steps(v, region_steps(regions[0]));
        if r is Ok {
            lemma_run_regions_counts(v1, regions.drop_first());
        }
    }
}

/// The pages of `region` in ascending order, as (index triple, physical page).
pub open spec fn region_steps(region: MemoryMapDescriptor) -> Seq<((int, int, int), u32)> {
    Seq::new(
        page_count(region.size),
        |q: int| (page_key(region.page_virt(q)), address_of(region.page_phys(q))),
    )
}

/// Mapping the regions in order, each page by page, stopping at the first error.
pub open spec fn run_regions(v: SpaceView, regions: Seq<MemoryMapDescriptor>) -> (Result<(), BringUpError>, SpaceView)
    decreases regions.len(),
{
    if regions.len() == 0 {
        (Ok(()), v)
    } else {
        let (r, v1) = run_steps(v, region_steps(regions[0]));
        if r is Err {
            (r, v1)
        } else {
            run_regions(v1, regions.drop_first())
        }
    }
}

/// The level-1 table and the two pools that lend out level-2 and level-3 tables.
pub struct AddressSpace {
    l1: L1TranslationTable,
    l2: AddressedSlots<TableDescriptor>,
    l3: AddressedSlots<PageDescriptor>,
}

impl AddressSpace {
    pub closed spec fn l1e(self, i: int) -> TableDescriptor {
        self.l1.entries@[i]
    }

    /// The level-2 pool slot that level-1 entry `i` points at.
    pub open spec fn l2_slot(self, i: int) -> int {
        address_of(self.l1e(i).0) as int - self.l2_pool().base() as int / PAGE_SIZE as int
    }

    /// The level-3 pool slot that level-2 descriptor `d` points at.
    pub open spec fn l3_slot(self, d: TableDescriptor) -> int {
        address_of(d.0) as int - self.l3_pool().base() as int / PAGE_SIZE as int
    }

    /// Entry `j` of the level-2 table that level-1 entry `i` points at.
    pub open spec fn l2e(self, i: int, j: int) -> TableDescriptor {
        self.l2_pool().entry_at(self.l2_slot(i), j)
    }

    /// The leaf descriptor reached by walking the indices `i`, `j`, `k`.
    pub open spec fn leaf(self, i: int, j: int, k: int) -> PageDescriptor {
        self.l3_pool().entry_at(self.l3_slot(self.l2e(i, j)), k)
    }

    pub open spec fn maps(self, i: int, j: int, k: int) -> bool {
        &&& self.l1e(i).is_valid()
        &&& self.l2e(i, j).is_valid()
        &&& self.leaf(i, j, k).is_valid()
    }

    /// What the tables map: each mapped page's index triple to its physical page number.
    pub open spec fn mapping(self) -> Map<(int, int, int), u32> {
        Map::new(
            |key: (int, int, int)| key_in_range(key) && self.maps(key.0, key.1, key.2),
            |key: (int, int, int)| address_of(self.leaf(key.0, key.1, key.2).0),
        )
    }

    /// Whether the level-1 entry `i` already points at a level-2 table.
    pub open spec fn has_l2_table(self, i: int) -> bool {
        self.l1e(i).is_valid()
    }

    /// Whether the level-2 entry `j` under level-1 entry `i` already points at a level-3 table.
    pub open spec fn has_l3_table(self, i: int, j: int) -> bool {
        self.l1e(i).is_valid() && self.l2e(i, j).is_valid()
    }

    /// What the space holds, seen from outside.
    pub open spec fn state(self) -> SpaceView {
        SpaceView {
            mapping: self.mapping(),
            l2_tables: Set::new(|i: int| 0 <= i < L1_ENTRIES && self.has_l2_table(i)),
            l3_tables: Set::new(
                |p: (int, int)| 0 <= p.0 < L1_ENTRIES && 0 <= p.1 < TABLE_ENTRIES && self.has_l3_table(p.0, p.1),
            ),
            l2_used: self.l2_used(),
            l3_used: self.l3_used(),
            l2_capacity: self.l2_capacity(),
            l3_capacity: self.l3_capacity(),
        }
    }

    /// Every descriptor valid in `self` holds the same value in `after`: a table
    /// descriptor keeps pointing at its table, a leaf at its page.
    pub open spec fn keeps_valid(self, after: AddressSpace) -> bool {
        &&& forall|i: int|
            0 <= i < L1_ENTRIES && (#[trigger] self.l1e(i)).is_valid() ==> after.l1e(i) == self.l1e(i)
        &&& forall|s: int, j: int|
            0 <= s < self.l2_used() && 0 <= j < TABLE_ENTRIES && (#[trigger] self.l2_pool().entry_at(
                s,
                j,
            )).is_valid() ==> after.l2_pool().entry_at(s, j) == self.l2_pool().entry_at(s, j)
        &&& forall|s: int, k: int|
            0 <= s < self.l3_used() && 0 <= k < TABLE_ENTRIES && (#[trigger] self.l3_pool().entry_at(
                s,
                k,
            )).is_valid() ==> after.l3_pool().entry_at(s, k) == self.l3_pool().entry_at(s, k)
    }

    /// What `wf` gives a caller that walks the tables by hand: both pools are
    /// well formed and within capacity; a valid level-1 entry, and a valid entry
    /// of a lent-out level-2 table, point at a lent-out slot; and every mapped
    /// page's leaf is valid with its access flag set.
    pub proof fn lemma_walk(self)
        requires
            self.wf(),
        ensures
            self.l2_pool().wf(),
            self.l3_pool().wf(),
            self.l2_used() <= self.l2_capacity(),
            self.l3_used() <= self.l3_capacity(),
            forall|i: int|
                0 <= i < L1_ENTRIES && (#[trigger] self.l1e(i)).is_valid() ==> 0 <= self.l2_slot(i) < self.l2_used(),
            forall|s: int, j: int|
                0 <= s < self.l2_used() && 0 <= j < TABLE_ENTRIES && (#[trigger] self.l2_pool().entry_at(
                    s,
                    j,
                )).is_valid() ==> 0 <= self.l3_slot(self.l2_pool().entry_at(s, j)) < self.l3_used(),
            forall|key: (int, int, int)|
                #[trigger] self.mapping().contains_key(key) ==> self.leaf(key.0, key.1, key.2).is_valid()
                    && flag(self.leaf(key.0, key.1, key.2).0, ACCESS_FLAG_BIT),
    {
        self.l2.lemma_allocated_bounded();
        self.l3.lemma_allocated_bounded();
        assert forall|key: (int, int, int)| #[trigger] self.mapping().contains_key(key) implies self.leaf(
            key.0,
            key.1,
            key.2,
        ).is_valid() && flag(self.leaf(key.0, key.1, key.2).0, ACCESS_FLAG_BIT) by {
            assert(0 <= self.l2_slot(key.0) < self.l2_used());
            assert(self.l2.entry_at(self.l2_slot(key.0), key.1).is_valid());
        }
    }

    pub closed spec fn l2_pool(self) -> AddressedSlots<TableDescriptor> {
        self.l2
    }

    pub closed spec fn l3_pool(self) -> AddressedSlots<PageDescriptor> {
        self.l3
    }

    pub open spec fn l2_used(self) -> nat {
        self.l2_pool().allocated()
    }

    pub open spec fn l3_used(self) -> nat {
        self.l3_pool().allocated()
    }

    pub open spec fn l2_capacity(self) -> nat {
        self.l2_pool().capacity()
    }

    pub open spec fn l3_capacity(self) -> nat {
        self.l3_pool().capacity()
    }

    /// Mapping the page `key` needs a table that a full pool cannot give.
    pub open spec fn lacks_table(self, key: (int, int, int)) -> bool {
        ||| !self.has_l2_table(key.0) && self.l2_used() == self.l2_capacity()
        ||| !self.has_l3_table(key.0, key.1) && self.l3_used() == self.l3_capacity()
    }

    pub closed spec fn wf(self) -> bool {
        &&& self.l1.entries@.len() == L1_ENTRIES
        &&& self.l2.wf()
        &&& self.l3.wf()
        &&& forall|i: int|
            0 <= i < L1_ENTRIES && (#[trigger] self.l1e(i)).is_valid() ==> 0 <= self.l2_slot(i)
                < self.l2.allocated()
        &&& forall|i1: int, i2: int|
            0 <= i1 < L1_ENTRIES && 0 <= i2 < L1_ENTRIES && i1 != i2 && self.l1e(i1).is_valid()
                && self.l1e(i2).is_valid() ==> #[trigger] self.l2_slot(i1) != #[trigger] self.l2_slot(i2)
        &&& forall|s: int, j: int|
            0 <= s < self.l2.allocated() && 0 <= j < TABLE_ENTRIES && (#[trigger] self.l2.entry_at(
                s,
                j,
            )).is_valid() ==> 0 <= self.l3_slot(self.l2.entry_at(s, j)) < self.l3.allocated()
        &&& forall|s1: int, j1: int, s2: int, j2: int|
            0 <= s1 < self.l2.allocated() && 0 <= j1 < TABLE_ENTRIES && 0 <= s2 < self.l2.allocated()
                && 0 <= j2 < TABLE_ENTRIES && (s1 != s2 || j1 != j2) && self.l2.entry_at(s1, j1).is_valid()
                && self.l2.entry_at(s2, j2).is_valid() ==> self.l3_slot(
                #[trigger] self.l2.entry_at(s1, j1),
            ) != self.l3_slot(#[trigger] self.l2.entry_at(s2, j2))
        &&& forall|s: int, j: int|
            self.l2.allocated() <= s < self.l2.capacity() && 0 <= j < TABLE_ENTRIES
                ==> !(#[trigger] self.l2.entry_at(s, j)).is_valid()
        &&& forall|s: int, k: int|
            self.l3.allocated() <= s < self.l3.capacity() && 0 <= k < TABLE_ENTRIES
                ==> !(#[trigger] self.l3.entry_at(s, k)).is_valid()
        &&& forall|s: int, k: int|
            0 <= s < self.l3.allocated() && 0 <= k < TABLE_ENTRIES && (#[trigger] self.l3.entry_at(s, k)).is_valid()
                ==> flag(self.l3.entry_at(s, k).0, ACCESS_FLAG_BIT)
    }
}

impl AddressSpace {
    /// An empty address space: a zeroed level-1 table, and pools of `l2_tables`
    /// and `l3_tables` zeroed tables whose first ones live at physical addresses
    /// `l2_base` and `l3_base`.
    pub fn new(l2_base: u64, l2_tables: usize, l3_base: u64, l3_tables: usize) -> (r: Self)
        requires
            l2_base % PAGE_SIZE == 0,
            l3_base % PAGE_SIZE == 0,
            l2_base + l2_tables * PAGE_SIZE <= VA_LIMIT,
            l3_base + l3_tables * PAGE_SIZE <= VA_LIMIT,
        ensures
            r.wf(),
            r.mapping() == Map::<(int, int, int), u32>::empty(),
            r.l2_used() == 0,
            r.l3_used() == 0,
            r.l2_capacity() == l2_tables,
            r.l3_capacity() == l3_tables,
            r.state() == (SpaceView {
                mapping: Map::empty(),
                l2_tables: Set::empty(),
                l3_tables: Set::empty(),
                l2_used: 0,
                l3_used: 0,
                l2_capacity: l2_tables as nat,
                l3_capacity: l3_tables as nat,
            }),
    {
        let l1 = L1TranslationTable::new();
        let b2 = l2_backing(l2_tables);
        let b3 = l3_backing(l3_tables);
        // Reading the lengths records that they fit in a usize.
        let _ = b2.len();
        let _ = b3.len();
        proof {
            vstd::arithmetic::div_mod::lemma_div_by_multiple(l2_tables as int, 8192);
            vstd::arithmetic::div_mod::lemma_div_by_multiple(l3_tables as int, 8192);
            vstd::arithmetic::div_mod::lemma_mod_multiples_basic(l2_tables as int, 8192);
            vstd::arithmetic::div_mod::lemma_mod_multiples_basic(l3_tables as int, 8192);
        }
        let l2 = AddressedSlots::new(b2, l2_base);
        let l3 = AddressedSlots::new(b3, l3_base);
        let r = AddressSpace { l1, l2, l3 };
        proof {
            lemma_zero_invalid();
            assert forall|i: int| 0 <= i < L1_ENTRIES implies !(#[trigger] r.l1e(i)).is_valid() by {
                assert(r.l1.spec_entries()[i] == TableDescriptor(0));
            }
            assert forall|key: (int, int, int)| !r.mapping().contains_key(key) by {
                if key_in_range(key) {
                    assert(!r.l1e(key.0).is_valid());
                }
            }
            assert forall|s: int, j: int|
                r.l2.allocated() <= s < r.l2.capacity() && 0 <= j < TABLE_ENTRIES
                    implies !(#[trigger] r.l2.entry_at(s, j)).is_valid() by {
                crate::slots::lemma_position_bounds(s, j, l2_tables as int);
                lemma_zero_invalid();
            }
            assert forall|s: int, k: int|
                r.l3.allocated() <= s < r.l3.capacity() && 0 <= k < TABLE_ENTRIES
                    implies !(#[trigger] r.l3.entry_at(s, k)).is_valid() by {
                crate::slots::lemma_position_bounds(s, k, l3_tables as int);
                lemma_zero_invalid();
            }
            assert(r.mapping() =~= Map::<(int, int, int), u32>::empty());
            assert(r.state().l2_tables =~= Set::<int>::empty());
            assert(r.state().l3_tables =~= Set::<(int, int)>::empty());
        }
        r
    }
}

impl AddressSpace {
    /// The level-2 table under level-1 entry `i`, created from the pool when the
    /// entry is invalid.
    fn l2_table_for(&mut self, i: usize) -> (r: Result<usize, BringUpError>)
        requires
            old(self).wf(),
            i < L1_ENTRIES,
        ensures
            final(self).wf(),
            final(self).mapping() == old(self).mapping(),
            final(self).l3 == old(self).l3,
            final(self).l2.capacity() == old(self).l2.capacity(),
            final(self).l2.base() == old(self).l2.base(),
            forall|i2: int| 0 <= i2 < L1_ENTRIES && i2 != i ==> #[trigger] final(self).l1e(i2) == old(self).l1e(i2),
            old(self).has_l2_table(i as int) ==> *final(self) == *old(self),
            match r {
                Ok(s) => {
                    &&& final(self).l1e(i as int).is_valid()
                    &&& final(self).l2_slot(i as int) == s
                    &&& s < final(self).l2.allocated()
                    &&& !old(self).has_l2_table(i as int) ==> {
                        &&& final(self).l2.allocated() == old(self).l2.allocated() + 1
                        &&& forall|j: int|
                            0 <= j < TABLE_ENTRIES ==> !(#[trigger] final(self).l2.entry_at(s as int, j)).is_valid()
                    }
                },
                Err(e) => {
                    &&& e == BringUpError::OutOfSlots
                    &&& *final(self) == *old(self)
                },
            },
            r is Err <==> (!old(self).has_l2_table(i as int) && old(self).l2_used() == old(self).l2_capacity()),
            final(self).state() == if old(self).has_l2_table(i as int) || r is Err {
                old(self).state()
            } else {
                with_l2_table(old(self).state(), i as int)
            },
            old(self).keeps_valid(*final(self)),
            forall|s2: int, j: int| #[trigger] final(self).l2.entry_at(s2, j) == old(self).l2.entry_at(s2, j),
    {
        let d = self.l1.entries[i];
        proof {
            self.l2.lemma_allocated_bounded();
        }
        if d.valid() {
            let na = d.next_address();
            proof {
                assert(na as int * 65536 < 0x1_0000_0000_0000) by (nonlinear_arith)
                    requires
                        na < 0x1_0000_0000,
                ;
                self.l2.lemma_slot_page(self.l2_slot(i as int));
            }
            let addr: u64 = (na as u64) * PAGE_SIZE;
            match self.l2.fetch_for_address(addr) {
                Some(s) => {
                    proof {
                        self.l2.lemma_slot_page(s as int);
                        assert(self.l2.slot_page(s as int) == na as int) by (nonlinear_arith)
                            requires
                                self.l2.slot_page(s as int) * 65536 == na as int * 65536,
                        ;
                    }
                    Ok(s)
                },
                None => {
                    proof {
                        assert(self.l2.slot_address(self.l2_slot(i as int)) == addr);
                    }
                    Err(BringUpError::PoolInconsistency)
                },
            }
        } else {
            let ghost prev = *self;
            match self.l2.new_slot() {
                Ok((addr, s)) => {
                    proof {
                        assert(s as int == prev.l2.allocated());
                        assert(s < prev.l2.capacity());
                        prev.l2.lemma_slot_page(s as int);
                        assert(addr as int == prev.l2.slot_address(s as int));
                        vstd::arithmetic::div_mod::lemma_div_by_multiple(prev.l2.slot_page(s as int), 65536);
                    }
                    assert(addr as int / 65536 == prev.l2.slot_page(s as int));
                    let page = (addr / PAGE_SIZE) as u32;
                    let mut nd = d;
                    nd.set_next_address(page);
                    nd.set_valid();
                    proof {
                        lemma_table_link(d.0, page);
                    }
                    self.l1.entries.set(i, nd);
                    proof {
                        assert(self.l2_slot(i as int) == s);
                        assert forall|j: int|
                            0 <= j < TABLE_ENTRIES implies !(#[trigger] self.l2.entry_at(s as int, j)).is_valid() by {
                            assert(self.l2.entry_at(s as int, j) == prev.l2.entry_at(s as int, j));
                        }
                        assert forall|i2: int| 0 <= i2 < L1_ENTRIES && i2 != i implies #[trigger] self.l2_slot(i2) == prev.l2_slot(i2) by {
                            assert(self.l1e(i2) == prev.l1e(i2));
                        }
                        assert forall|s2: int, j: int| #[trigger] self.l2.entry_at(s2, j) == prev.l2.entry_at(s2, j) by {}
                        assert forall|key: (int, int, int)|
                            #[trigger] self.mapping().contains_key(key) == prev.mapping().contains_key(key)
                            && (self.mapping().contains_key(key) ==> self.mapping()[key] == prev.mapping()[key]) by {
                            if key_in_range(key) && key.0 != i {
                                assert(self.l1e(key.0) == prev.l1e(key.0));
                                assert(self.l2_slot(key.0) == prev.l2_slot(key.0));
                            }
                        }
                        assert(self.mapping() =~= prev.mapping());
                        assert(s < self.l2.allocated());
                        assert(self.state().l2_tables =~= prev.state().l2_tables.insert(i as int)) by {
                            assert forall|i2: int| 0 <= i2 < L1_ENTRIES && i2 != i implies #[trigger] self.l1e(i2) == prev.l1e(i2) by {}
                        }
                        assert(self.state().l3_tables =~= prev.state().l3_tables) by {
                            assert forall|p: (int, int)| #[trigger] self.state().l3_tables.contains(p) == prev.state().l3_tables.contains(p) by {
                                if 0 <= p.0 < L1_ENTRIES && 0 <= p.1 < TABLE_ENTRIES {
                                    if p.0 != i {
                                        assert(self.l1e(p.0) == prev.l1e(p.0));
                                        assert(self.l2e(p.0, p.1) == prev.l2e(p.0, p.1));
                                    } else {
                                        assert(!self.l2e(p.0, p.1).is_valid());
                                    }
                                }
                            }
                        }
                        assert(self.state() == with_l2_table(prev.state(), i as int));
                        assert forall|i2: int| 0 <= i2 < L1_ENTRIES && (#[trigger] prev.l1e(i2)).is_valid() implies self.l1e(i2) == prev.l1e(i2) by {}
                        assert forall|i1: int|
                            0 <= i1 < L1_ENTRIES && (#[trigger] self.l1e(i1)).is_valid() implies 0 <= self.l2_slot(i1)
                                < self.l2.allocated() by {
                            if i1 != i {
                                assert(self.l1e(i1) == prev.l1e(i1));
                            }
                        }
                        assert forall|i1: int, i2: int|
                            0 <= i1 < L1_ENTRIES && 0 <= i2 < L1_ENTRIES && i1 != i2 && self.l1e(i1).is_valid()
                                && self.l1e(i2).is_valid() implies #[trigger] self.l2_slot(i1) != #[trigger] self.l2_slot(i2) by {
                            if i1 != i {
                                assert(self.l1e(i1) == prev.l1e(i1));
                            }
                            if i2 != i {
                                assert(self.l1e(i2) == prev.l1e(i2));
                            }
                        }
                        assert forall|s1: int, j: int|
                            0 <= s1 < self.l2.allocated() && 0 <= j < TABLE_ENTRIES && (#[trigger] self.l2.entry_at(
                                s1,
                                j,
                            )).is_valid() implies 0 <= self.l3_slot(self.l2.entry_at(s1, j)) < self.l3.allocated() by {
                            assert(self.l2.entry_at(s1, j) == prev.l2.entry_at(s1, j));
                        }
                        assert forall|s1: int, j1: int, s2: int, j2: int|
                            0 <= s1 < self.l2.allocated() && 0 <= j1 < TABLE_ENTRIES && 0 <= s2 < self.l2.allocated()
                                && 0 <= j2 < TABLE_ENTRIES && (s1 != s2 || j1 != j2) && self.l2.entry_at(s1, j1).is_valid()
                                && self.l2.entry_at(s2, j2).is_valid() implies self.l3_slot(
                                #[trigger] self.l2.entry_at(s1, j1),
                            ) != self.l3_slot(#[trigger] self.l2.entry_at(s2, j2)) by {
                            assert(self.l2.entry_at(s1, j1) == prev.l2.entry_at(s1, j1));
                            assert(self.l2.entry_at(s2, j2) == prev.l2.entry_at(s2, j2));
                        }
                        assert forall|s1: int, j: int|
                            self.l2.allocated() <= s1 < self.l2.capacity() && 0 <= j < TABLE_ENTRIES
                                implies !(#[trigger] self.l2.entry_at(s1, j)).is_valid() by {
                            assert(self.l2.entry_at(s1, j) == prev.l2.entry_at(s1, j));
                        }
                    }
                    Ok(s)
                },
                Err(e) => Err(e),
            }
        }
    }
}

impl AddressSpace {
    /// The level-3 table under entry `j` of the level-2 table in slot `s2`, which
    /// level-1 entry `i` points at; created from the pool when the entry is invalid.
    fn l3_table_for(&mut self, i: usize, j: usize, s2: usize) -> (r: Result<usize, BringUpError>)
        requires
            old(self).wf(),
            i < L1_ENTRIES,
            j < TABLE_ENTRIES,
            old(self).l1e(i as int).is_valid(),
            old(self).l2_slot(i as int) == s2,
        ensures
            final(self).wf(),
            final(self).mapping() == old(self).mapping(),
            final(self).l1 == old(self).l1,
            final(self).l2.allocated() == old(self).l2.allocated(),
            final(self).l2.capacity() == old(self).l2.capacity(),
            final(self).l2.base() == old(self).l2.base(),
            final(self).l3.capacity() == old(self).l3.capacity(),
            final(self).l3.base() == old(self).l3.base(),
            old(self).has_l3_table(i as int, j as int) ==> *final(self) == *old(self),
            match r {
                Ok(t) => {
                    &&& final(self).l2e(i as int, j as int).is_valid()
                    &&& final(self).l3_slot(final(self).l2e(i as int, j as int)) == t
                    &&& t < final(self).l3.allocated()
                    &&& !old(self).has_l3_table(i as int, j as int) ==> {
                        &&& final(self).l3.allocated() == old(self).l3.allocated() + 1
                        &&& forall|k: int|
                            0 <= k < TABLE_ENTRIES ==> !(#[trigger] final(self).l3.entry_at(t as int, k)).is_valid()
                    }
                },
                Err(e) => {
                    &&& e == BringUpError::OutOfSlots
                    &&& *final(self) == *old(self)
                },
            },
            r is Err <==> (!old(self).has_l3_table(i as int, j as int) && old(self).l3_used()
                == old(self).l3_capacity()),
            final(self).state() == if old(self).has_l3_table(i as int, j as int) || r is Err {
                old(self).state()
            } else {
                with_l3_table(old(self).state(), i as int, j as int)
            },
            old(self).keeps_valid(*final(self)),
    {
        proof {
            self.l2.lemma_allocated_bounded();
            self.l3.lemma_allocated_bounded();
        }
        let d = self.l2.get_entry(s2, j);
        if d.valid() {
            let na = d.next_address();
            proof {
                assert(na as int * 65536 < 0x1_0000_0000_0000) by (nonlinear_arith)
                    requires
                        na < 0x1_0000_0000,
                ;
                self.l3.lemma_slot_page(self.l3_slot(d));
            }
            let addr: u64 = (na as u64) * PAGE_SIZE;
            match self.l3.fetch_for_address(addr) {
                Some(t) => {
                    proof {
                        self.l3.lemma_slot_page(t as int);
                        assert(self.l3.slot_page(t as int) == na as int) by (nonlinear_arith)
                            requires
                                self.l3.slot_page(t as int) * 65536 == na as int * 65536,
                        ;
                    }
                    Ok(t)
                },
                None => {
                    proof {
                        assert(self.l3.slot_address(self.l3_slot(d)) == addr);
                    }
                    Err(BringUpError::PoolInconsistency)
                },
            }
        } else {
            let ghost prev = *self;
            match self.l3.new_slot() {
                Ok((addr, t)) => {
                    proof {
                        assert(t as int == prev.l3.allocated());
                        prev.l3.lemma_slot_page(t as int);
                        assert(addr as int == prev.l3.slot_address(t as int));
                        vstd::arithmetic::div_mod::lemma_div_by_multiple(prev.l3.slot_page(t as int), 65536);
                    }
                    assert(addr as int / 65536 == prev.l3.slot_page(t as int));
                    let page = (addr / PAGE_SIZE) as u32;
                    let mut nd = d;
                    nd.set_next_address(page);
                    nd.set_valid();
                    proof {
                        lemma_table_link(d.0, page);
                    }
                    self.l2.set_entry(s2, j, nd);
                    proof {
                        assert(self.l2e(i as int, j as int) == nd);
                        assert(self.l3_slot(nd) == t);
                        assert forall|k: int|
                            0 <= k < TABLE_ENTRIES implies !(#[trigger] self.l3.entry_at(t as int, k)).is_valid() by {
                            assert(self.l3.entry_at(t as int, k) == prev.l3.entry_at(t as int, k));
                        }
                        // Entries other than (s2, j) are unchanged.
                        assert forall|s1: int, j1: int|
                            0 <= s1 < self.l2.capacity() && 0 <= j1 < TABLE_ENTRIES && (s1 != s2 || j1 != j)
                                implies #[trigger] self.l2.entry_at(s1, j1) == prev.l2.entry_at(s1, j1) by {}
                        assert forall|s1: int, k: int| #[trigger] self.l3.entry_at(s1, k) == prev.l3.entry_at(s1, k) by {}
                        assert forall|key: (int, int, int)|
                            #[trigger] self.mapping().contains_key(key) == prev.mapping().contains_key(key)
                            && (self.mapping().contains_key(key) ==> self.mapping()[key] == prev.mapping()[key]) by {
                            if key_in_range(key) && self.l1e(key.0).is_valid() {
                                assert(self.l1e(key.0) == prev.l1e(key.0));
                                assert(self.l2_slot(key.0) == prev.l2_slot(key.0));
                                if key.0 != i {
                                    assert(self.l2_slot(key.0) != s2);
                                    assert(self.l2e(key.0, key.1) == prev.l2e(key.0, key.1));
                                } else if key.1 != j {
                                    assert(self.l2e(key.0, key.1) == prev.l2e(key.0, key.1));
                                } else {
                                    assert(!self.leaf(key.0, key.1, key.2).is_valid());
                                }
                            }
                        }
                        assert(self.mapping() =~= prev.mapping());
                        assert(self.state().l2_tables =~= prev.state().l2_tables);
                        assert(self.state().l3_tables =~= prev.state().l3_tables.insert((i as int, j as int))) by {
                            assert forall|p: (int, int)| #[trigger] self.state().l3_tables.contains(p)
                                == prev.state().l3_tables.insert((i as int, j as int)).contains(p) by {
                                if 0 <= p.0 < L1_ENTRIES && 0 <= p.1 < TABLE_ENTRIES && self.l1e(p.0).is_valid()
                                    && p != (i as int, j as int) {
                                    assert(self.l1e(p.0) == prev.l1e(p.0));
                                    assert(self.l2_slot(p.0) == prev.l2_slot(p.0));
                                    if p.0 != i {
                                        assert(self.l2_slot(p.0) != s2);
                                    }
                                    assert(self.l2e(p.0, p.1) == prev.l2e(p.0, p.1));
                                }
                            }
                        }
                        assert(self.state() == with_l3_table(prev.state(), i as int, j as int));
                        assert forall|s1: int, j1: int|
                            0 <= s1 < prev.l2_used() && 0 <= j1 < TABLE_ENTRIES && (#[trigger] prev.l2_pool().entry_at(
                                s1,
                                j1,
                            )).is_valid() implies self.l2_pool().entry_at(s1, j1) == prev.l2_pool().entry_at(s1, j1) by {
                            assert(s1 != s2 || j1 != j);
                        }
                        assert forall|i1: int|
                            0 <= i1 < L1_ENTRIES && (#[trigger] self.l1e(i1)).is_valid() implies 0 <= self.l2_slot(i1)
                                < self.l2.allocated() by {
                            assert(self.l1e(i1) == prev.l1e(i1));
                        }
                        assert forall|i1: int, i2: int|
                            0 <= i1 < L1_ENTRIES && 0 <= i2 < L1_ENTRIES && i1 != i2 && self.l1e(i1).is_valid()
                                && self.l1e(i2).is_valid() implies #[trigger] self.l2_slot(i1) != #[trigger] self.l2_slot(i2) by {
                            assert(self.l1e(i1) == prev.l1e(i1));
                            assert(self.l1e(i2) == prev.l1e(i2));
                        }
                        assert forall|s1: int, j1: int|
                            0 <= s1 < self.l2.allocated() && 0 <= j1 < TABLE_ENTRIES && (#[trigger] self.l2.entry_at(
                                s1,
                                j1,
                            )).is_valid() implies 0 <= self.l3_slot(self.l2.entry_at(s1, j1)) < self.l3.allocated() by {
                            if s1 != s2 || j1 != j {
                                assert(self.l2.entry_at(s1, j1) == prev.l2.entry_at(s1, j1));
                            }
                        }
                        assert forall|s1: int, j1: int, s3: int, j3: int|
                            0 <= s1 < self.l2.allocated() && 0 <= j1 < TABLE_ENTRIES && 0 <= s3 < self.l2.allocated()
                                && 0 <= j3 < TABLE_ENTRIES && (s1 != s3 || j1 != j3) && self.l2.entry_at(s1, j1).is_valid()
                                && self.l2.entry_at(s3, j3).is_valid() implies self.l3_slot(
                                #[trigger] self.l2.entry_at(s1, j1),
                            ) != self.l3_slot(#[trigger] self.l2.entry_at(s3, j3)) by {
                            if s1 != s2 || j1 != j {
                                assert(self.l2.entry_at(s1, j1) == prev.l2.entry_at(s1, j1));
                            }
                            if s3 != s2 || j3 != j {
                                assert(self.l2.entry_at(s3, j3) == prev.l2.entry_at(s3, j3));
                            }
                        }
                        assert forall|s1: int, j1: int|
                            self.l2.allocated() <= s1 < self.l2.capacity() && 0 <= j1 < TABLE_ENTRIES
                                implies !(#[trigger] self.l2.entry_at(s1, j1)).is_valid() by {
                            assert(self.l2.entry_at(s1, j1) == prev.l2.entry_at(s1, j1));
                        }
                        assert forall|s1: int, k: int|
                            self.l3.allocated() <= s1 < self.l3.capacity() && 0 <= k < TABLE_ENTRIES
                                implies !(#[trigger] self.l3.entry_at(s1, k)).is_valid() by {
                            assert(self.l3.entry_at(s1, k) == prev.l3.entry_at(s1, k));
                        }
                    }
                    Ok(t)
                },
                Err(e) => Err(e),
            }
        }
    }
}

impl AddressSpace {
    /// Maps the page that holds `virt` to the page that holds `phys`, creating the
    /// level-2 and level-3 tables on the way when they are missing.
    ///
    /// A page that is already mapped to the same physical page is left as it is; one
    /// mapped to another physical page is a `MappingConflict` and is never
    /// overwritten. `OutOfSlots` comes exactly when a table is needed from a full
    /// pool. On every error the mapping is left as it was. The step is exactly
    /// `page_step` on `state()`, and every descriptor valid before keeps its value;
    /// a new leaf has its access flag set (see `lemma_walk`).
    pub fn map_page(&mut self, virt: TranslationAddress, phys: u64) -> (r: Result<(), BringUpError>)
        requires
            old(self).wf(),
        ensures
            final(self).wf(),
            final(self).l2_capacity() == old(self).l2_capacity(),
            final(self).l3_capacity() == old(self).l3_capacity(),
            ({
                let key = page_key(virt.0);
                let page = address_of(phys);
                let before = old(self).mapping();
                &&& before.contains_key(key) && before[key] == page ==> r == Ok::<(), BringUpError>(())
                    && *final(self) == *old(self)
                &&& before.contains_key(key) && before[key] != page ==> r == Err::<(), BringUpError>(
                    BringUpError::MappingConflict,
                ) && *final(self) == *old(self)
                &&& !before.contains_key(key) && old(self).lacks_table(key) ==> r == Err::<(), BringUpError>(
                    BringUpError::OutOfSlots,
                ) && final(self).mapping() == before
                &&& !before.contains_key(key) && !old(self).lacks_table(key) ==> r == Ok::<(), BringUpError>(())
                    && final(self).mapping() == before.insert(key, page)
                &&& final(self).l2_used() == old(self).l2_used() + if !old(self).has_l2_table(key.0)
                    && old(self).l2_used() < old(self).l2_capacity() {
                    1int
                } else {
                    0int
                }
                &&& final(self).l3_used() == old(self).l3_used() + if !old(self).lacks_table(key)
                    && !old(self).has_l3_table(key.0, key.1) {
                    1int
                } else {
                    0int
                }
            }),
            r == Err::<(), BringUpError>(BringUpError::OutOfSlots) ==> final(self).l2_used() == final(self).l2_capacity()
                || final(self).l3_used() == final(self).l3_capacity(),
            (r, final(self).mapping()) == map_step(
                old(self).mapping(),
                page_key(virt.0),
                address_of(phys),
                old(self).lacks_table(page_key(virt.0)),
            ),
            (r, final(self).state()) == page_step(old(self).state(), page_key(virt.0), address_of(phys)),
            old(self).keeps_valid(*final(self)),
    {
        let ghost key = page_key(virt.0);
        let i = virt.l1_index() as usize;
        let j = virt.l2_index() as usize;
        let k = virt.l3_index() as usize;
        let v = (phys >> 16) & 0xffff_ffff;
        proof {
            assert((phys >> 16u64) & 0xffff_ffffu64 <= 0xffff_ffffu64) by (bit_vector);
        }
        let page = v as u32;
        let ghost start = *self;
        proof {
            assert(key == (i as int, j as int, k as int));
            assert(start.state().l2_tables.contains(i as int) == start.has_l2_table(i as int));
            assert(start.state().l3_tables.contains((i as int, j as int)) == start.has_l3_table(i as int, j as int));
            start.l2.lemma_allocated_bounded();
            start.l3.lemma_allocated_bounded();
        }
        let s2 = match self.l2_table_for(i) {
            Ok(s) => s,
            Err(e) => {
                proof {
                    assert(!start.mapping().contains_key(key));
                }
                return Err(e);
            },
        };
        let ghost mid = *self;
        proof {
            assert(mid.state().l3_tables.contains((i as int, j as int)) == mid.has_l3_table(i as int, j as int));
            if !start.has_l2_table(i as int) {
                assert(!mid.l2e(i as int, j as int).is_valid());
            }
            start.l2.lemma_allocated_bounded();
            if start.has_l2_table(i as int) {
                assert(mid.l2_used() == start.l2_used());
            } else {
                assert(start.l2_used() < start.l2_capacity());
                assert(mid.l2_used() == start.l2_used() + 1);
            }
        }
        let t = match self.l3_table_for(i, j, s2) {
            Ok(t) => t,
            Err(e) => {
                proof {
                    assert(key.0 == i && key.1 == j);
                    assert(!start.has_l3_table(i as int, j as int));
                    assert(mid.l3 == start.l3);
                    assert(start.lacks_table(key));
                    assert(!start.mapping().contains_key(key));
                    assert(self.mapping() == start.mapping());
                    assert(self.l3_used() == start.l3_used());
                    assert(self.l2_used() == start.l2_used() + if !start.has_l2_table(key.0)
                        && start.l2_used() < start.l2_capacity() {
                        1int
                    } else {
                        0int
                    });
                    lemma_keeps_valid_trans(start, mid, *self);
                }
                return Err(e);
            },
        };
        proof {
            self.l2.lemma_allocated_bounded();
            self.l3.lemma_allocated_bounded();
        }
        let leaf = self.l3.get_entry(t, k);
        assert(leaf == self.leaf(i as int, j as int, k as int));
        if leaf.valid() {
            assert(start.has_l3_table(i as int, j as int));
            assert(self.mapping().contains_key(key));
            proof {
                assert(*self == start);
                lemma_keeps_valid_refl(start);
            }
            if leaf.output_address() != page {
                return Err(BringUpError::MappingConflict);
            }
            return Ok(());
        }
        let ghost prev = *self;
        let mut nd = leaf;
        nd.set_output_address(page);
        nd.set_access_flag(true);
        nd.set_valid();
        proof {
            lemma_page_link(leaf.0, page);
        }
        self.l3.set_entry(t, k, nd);
        proof {
            assert(!prev.mapping().contains_key(key));
            assert forall|s1: int, j1: int| #[trigger] self.l2.entry_at(s1, j1) == prev.l2.entry_at(s1, j1) by {}
            assert forall|a: (int, int, int)|
                #[trigger] self.mapping().contains_key(a) == prev.mapping().insert(key, page).contains_key(a)
                && (self.mapping().contains_key(a) ==> self.mapping()[a] == prev.mapping().insert(key, page)[a]) by {
                if key_in_range(a) && self.l1e(a.0).is_valid() && self.l2e(a.0, a.1).is_valid() && a != key {
                    assert(self.l1e(a.0) == prev.l1e(a.0));
                    assert(self.l2e(a.0, a.1) == prev.l2e(a.0, a.1));
                    if a.0 != key.0 {
                        assert(self.l2_slot(a.0) != self.l2_slot(key.0));
                    }
                    assert(self.l3_slot(self.l2e(a.0, a.1)) != t || a.2 != k);
                    assert(self.leaf(a.0, a.1, a.2) == prev.leaf(a.0, a.1, a.2));
                }
            }
            assert(self.mapping() =~= prev.mapping().insert(key, page));
            assert(self.l2 == prev.l2);
            assert(self.l1 == prev.l1);
            assert forall|i1: int|
                0 <= i1 < L1_ENTRIES && (#[trigger] self.l1e(i1)).is_valid() implies 0 <= self.l2_slot(i1)
                    < self.l2.allocated() by {
                assert(self.l1e(i1) == prev.l1e(i1));
            }
            assert forall|i1: int, i2: int|
                0 <= i1 < L1_ENTRIES && 0 <= i2 < L1_ENTRIES && i1 != i2 && self.l1e(i1).is_valid()
                    && self.l1e(i2).is_valid() implies #[trigger] self.l2_slot(i1) != #[trigger] self.l2_slot(i2) by {
                assert(self.l1e(i1) == prev.l1e(i1));
                assert(self.l1e(i2) == prev.l1e(i2));
            }
            assert forall|s1: int, j1: int|
                0 <= s1 < self.l2.allocated() && 0 <= j1 < TABLE_ENTRIES && (#[trigger] self.l2.entry_at(
                    s1,
                    j1,
                )).is_valid() implies 0 <= self.l3_slot(self.l2.entry_at(s1, j1)) < self.l3.allocated() by {
                assert(self.l3_slot(self.l2.entry_at(s1, j1)) == prev.l3_slot(prev.l2.entry_at(s1, j1)));
            }
            assert forall|s1: int, j1: int, s3: int, j3: int|
                0 <= s1 < self.l2.allocated() && 0 <= j1 < TABLE_ENTRIES && 0 <= s3 < self.l2.allocated()
                    && 0 <= j3 < TABLE_ENTRIES && (s1 != s3 || j1 != j3) && self.l2.entry_at(s1, j1).is_valid()
                    && self.l2.entry_at(s3, j3).is_valid() implies self.l3_slot(
                    #[trigger] self.l2.entry_at(s1, j1),
                ) != self.l3_slot(#[trigger] self.l2.entry_at(s3, j3)) by {
                assert(self.l3_slot(self.l2.entry_at(s1, j1)) == prev.l3_slot(prev.l2.entry_at(s1, j1)));
                assert(self.l3_slot(self.l2.entry_at(s3, j3)) == prev.l3_slot(prev.l2.entry_at(s3, j3)));
            }
            assert forall|s1: int, k1: int|
                self.l3.allocated() <= s1 < self.l3.capacity() && 0 <= k1 < TABLE_ENTRIES
                    implies !(#[trigger] self.l3.entry_at(s1, k1)).is_valid() by {
                assert(self.l3.entry_at(s1, k1) == prev.l3.entry_at(s1, k1));
            }
            assert(self.state().l2_tables =~= prev.state().l2_tables);
            assert(self.state().l3_tables =~= prev.state().l3_tables);
            assert(self.state() == with_page(prev.state(), key, page));
            assert forall|s1: int, k1: int|
                0 <= s1 < prev.l3_used() && 0 <= k1 < TABLE_ENTRIES && (#[trigger] prev.l3_pool().entry_at(
                    s1,
                    k1,
                )).is_valid() implies self.l3_pool().entry_at(s1, k1) == prev.l3_pool().entry_at(s1, k1) by {
                assert(s1 != t || k1 != k);
            }
            assert(prev.keeps_valid(*self));
            lemma_keeps_valid_trans(start, mid, prev);
            lemma_keeps_valid_trans(start, prev, *self);
        }
        Ok(())
    }

    /// The physical page number that the page holding `virt` is mapped to, found by
    /// walking the three levels.
    pub fn lookup(&self, virt: TranslationAddress) -> (r: Option<u32>)
        requires
            self.wf(),
        ensures
            r == (if self.mapping().contains_key(page_key(virt.0)) {
                Some(self.mapping()[page_key(virt.0)])
            } else {
                None::<u32>
            }),
    {
        proof {
            self.l2.lemma_allocated_bounded();
            self.l3.lemma_allocated_bounded();
        }
        let i = virt.l1_index() as usize;
        let j = virt.l2_index() as usize;
        let k = virt.l3_index() as usize;
        let d1 = self.l1.entries[i];
        if !d1.valid() {
            return None;
        }
        let na = d1.next_address();
        proof {
            assert(na as int * 65536 < 0x1_0000_0000_0000) by (nonlinear_arith)
                requires
                    na < 0x1_0000_0000,
            ;
            self.l2.lemma_slot_page(self.l2_slot(i as int));
        }
        let s2 = match self.l2.fetch_for_address((na as u64) * PAGE_SIZE) {
            Some(s) => s,
            None => {
                return None;
            },
        };
        proof {
            self.l2.lemma_slot_page(s2 as int);
            assert(self.l2.slot_page(s2 as int) == na as int) by (nonlinear_arith)
                requires
                    self.l2.slot_page(s2 as int) * 65536 == na as int * 65536,
            ;
        }
        let d2 = self.l2.get_entry(s2, j);
        if !d2.valid() {
            return None;
        }
        let nb = d2.next_address();
        proof {
            assert(nb as int * 65536 < 0x1_0000_0000_0000) by (nonlinear_arith)
                requires
                    nb < 0x1_0000_0000,
            ;
            self.l3.lemma_slot_page(self.l3_slot(d2));
        }
        let t = match self.l3.fetch_for_address((nb as u64) * PAGE_SIZE) {
            Some(t) => t,
            None => {
                return None;
            },
        };
        proof {
            self.l3.lemma_slot_page(t as int);
            assert(self.l3.slot_page(t as int) == nb as int) by (nonlinear_arith)
                requires
                    self.l3.slot_page(t as int) * 65536 == nb as int * 65536,
            ;
        }
        let leaf = self.l3.get_entry(t, k);
        if leaf.valid() {
            Some(leaf.output_address())
        } else {
            None
        }
    }
}

/// The outcome of mapping page `key` to physical page `page` in a space whose
/// mapping is `m`; `lacks` says whether a table it needs would come from a full pool.
pub open spec fn map_step(m: Map<(int, int, int), u32>, key: (int, int, int), page: u32, lacks: bool) -> (
    Result<(), BringUpError>,
    Map<(int, int, int), u32>,
) {
    if m.contains_key(key) {
        if m[key] == page {
            (Ok(()), m)
        } else {
            (Err(BringUpError::MappingConflict), m)
        }
    } else if lacks {
        (Err(BringUpError::OutOfSlots), m)
    } else {
        (Ok(()), m.insert(key, page))
    }
}

/// Idempotence: once a page is mapped, mapping it again to the same physical page
/// succeeds, whatever the pools hold, and leaves the mapping as it is.
pub proof fn lemma_map_idempotent(
    m: Map<(int, int, int), u32>,
    key: (int, int, int),
    page: u32,
    lacks_first: bool,
    lacks_second: bool,
)
    requires
        map_step(m, key, page, lacks_first).0 is Ok,
    ensures
        map_step(map_step(m, key, page, lacks_first).1, key, page, lacks_second) == (
            Ok::<(), BringUpError>(()),
            map_step(m, key, page, lacks_first).1,
        ),
{
}

/// Conflict detection: once a page is mapped, mapping it to any other physical
/// page fails with `MappingConflict` and leaves the mapping as it is.
pub proof fn lemma_map_conflict(
    m: Map<(int, int, int), u32>,
    key: (int, int, int),
    first: u32,
    second: u32,
    lacks_first: bool,
    lacks_second: bool,
)
    requires
        map_step(m, key, first, lacks_first).0 is Ok,
        first != second,
    ensures
        map_step(map_step(m, key, first, lacks_first).1, key, second, lacks_second) == (
            Err::<(), BringUpError>(BringUpError::MappingConflict),
            map_step(m, key, first, lacks_first).1,
        ),
{
}

pub proof fn lemma_keeps_valid_refl(a: AddressSpace)
    ensures
        a.keeps_valid(a),
{
}

/// Keeping valid descriptors is transitive while the pools only grow.
pub proof fn lemma_keeps_valid_trans(a: AddressSpace, b: AddressSpace, c: AddressSpace)
    requires
        a.keeps_valid(b),
        b.keeps_valid(c),
        a.l2_used() <= b.l2_used(),
        a.l3_used() <= b.l3_used(),
    ensures
        a.keeps_valid(c),
{
    assert forall|s: int, j: int|
        0 <= s < a.l2_used() && 0 <= j < TABLE_ENTRIES && (#[trigger] a.l2_pool().entry_at(s, j)).is_valid()
            implies c.l2_pool().entry_at(s, j) == a.l2_pool().entry_at(s, j) by {
        assert(b.l2_pool().entry_at(s, j) == a.l2_pool().entry_at(s, j));
    }
    assert forall|s: int, k: int|
        0 <= s < a.l3_used() && 0 <= k < TABLE_ENTRIES && (#[trigger] a.l3_pool().entry_at(s, k)).is_valid()
            implies c.l3_pool().entry_at(s, k) == a.l3_pool().entry_at(s, k) by {
        assert(b.l3_pool().entry_at(s, k) == a.l3_pool().entry_at(s, k));
    }
    assert forall|i: int| 0 <= i < L1_ENTRIES && (#[trigger] a.l1e(i)).is_valid() implies c.l1e(i) == a.l1e(i) by {
        assert(b.l1e(i) == a.l1e(i));
    }
}

/// `after` keeps every mapping of `before`, with the same physical page.
pub open spec fn extends(before: Map<(int, int, int), u32>, after: Map<(int, int, int), u32>) -> bool {
    forall|key: (int, int, int)|
        #[trigger] before.contains_key(key) ==> after.contains_key(key) && after[key] == before[key]
}

/// Every page of `region` is mapped in `m` to its physical page.
pub open spec fn covers(m: Map<(int, int, int), u32>, region: MemoryMapDescriptor) -> bool {
    forall|q: int|
        0 <= q < page_count(region.size) ==> m.contains_key(page_key(#[trigger] region.page_virt(q)))
            && m[page_key(region.page_virt(q))] == address_of(region.page_phys(q))
}

/// Growing a mapping keeps what it covered.
pub proof fn lemma_extends_covers(
    m1: Map<(int, int, int), u32>,
    m2: Map<(int, int, int), u32>,
    region: MemoryMapDescriptor,
)
    requires
        extends(m1, m2),
        covers(m1, region),
    ensures
        covers(m2, region),
{
    assert forall|q: int| 0 <= q < page_count(region.size) implies m2.contains_key(
        page_key(#[trigger] region.page_virt(q)),
    ) && m2[page_key(region.page_virt(q))] == address_of(region.page_phys(q)) by {
        assert(m1.contains_key(page_key(region.page_virt(q))));
    }
}

impl AddressSpace {
    /// Maps every page of `region`, in ascending order, stopping at the first error.
    ///
    /// The result and the state after it are exactly those of `run_steps` over the
    /// region's pages: each page is one `page_step`, and no page after an error is
    /// touched. Whatever the outcome, every descriptor valid before keeps its value.
    pub fn map_region(&mut self, region: &MemoryMapDescriptor) -> (r: Result<(), BringUpError>)
        requires
            old(self).wf(),
            region.fits(),
        ensures
            final(self).wf(),
            final(self).l2_capacity() == old(self).l2_capacity(),
            final(self).l3_capacity() == old(self).l3_capacity(),
            extends(old(self).mapping(), final(self).mapping()),
            forall|key: (int, int, int)|
                #[trigger] final(self).mapping().contains_key(key) ==> old(self).mapping().contains_key(key)
                    || exists|q: int| 0 <= q < page_count(region.size) && key == page_key(#[trigger] region.page_virt(q)),
            r is Ok ==> covers(final(self).mapping(), *region),
            r == Err::<(), BringUpError>(BringUpError::MappingConflict) ==> exists|q: int|
                0 <= q < page_count(region.size) && final(self).mapping().contains_key(page_key(#[trigger] region.page_virt(q)))
                    && final(self).mapping()[page_key(region.page_virt(q))] != address_of(region.page_phys(q)),
            r == Err::<(), BringUpError>(BringUpError::OutOfSlots) ==> final(self).l2_used() == final(self).l2_capacity()
                || final(self).l3_used() == final(self).l3_capacity(),
            r != Err::<(), BringUpError>(BringUpError::PoolInconsistency),
            (r, final(self).state()) == run_steps(old(self).state(), region_steps(*region)),
            old(self).keeps_valid(*final(self)),
            old(self).l2_used() <= final(self).l2_used(),
            old(self).l3_used() <= final(self).l3_used(),
    {
        let pages = region.pages();
        let ghost steps = region_steps(*region);
        proof {
            assert(steps.subrange(0, steps.len() as int) =~= steps);
            lemma_keeps_valid_refl(*self);
        }
        let n = pages.len();
        let mut idx: usize = 0;
        while idx < n
            invariant
                self.wf(),
                n == pages@.len(),
                n == page_count(region.size),
                idx <= n,
                forall|q: int|
                    0 <= q < n ==> #[trigger] pages@[q] == (TranslationAddress(region.page_virt(q)), region.page_phys(q)),
                self.l2_capacity() == old(self).l2_capacity(),
                self.l3_capacity() == old(self).l3_capacity(),
                extends(old(self).mapping(), self.mapping()),
                forall|key: (int, int, int)|
                    #[trigger] self.mapping().contains_key(key) ==> old(self).mapping().contains_key(key)
                        || exists|q: int| 0 <= q < page_count(region.size) && key == page_key(#[trigger] region.page_virt(q)),
                forall|q: int|
                    0 <= q < idx ==> self.mapping().contains_key(page_key(#[trigger] region.page_virt(q)))
                        && self.mapping()[page_key(region.page_virt(q))] == address_of(region.page_phys(q)),
                steps == region_steps(*region),
                run_steps(old(self).state(), steps) == run_steps(self.state(), steps.subrange(idx as int, n as int)),
                old(self).keeps_valid(*self),
                old(self).l2_used() <= self.l2_used(),
                old(self).l3_used() <= self.l3_used(),
            decreases n - idx,
        {
            let (virt, phys) = pages[idx];
            proof {
                let sub = steps.subrange(idx as int, n as int);
                assert(sub[0] == steps[idx as int]);
                assert(sub.drop_first() =~= steps.subrange(idx + 1, n as int));
            }
            let ghost before = self.mapping();
            let ghost key = page_key(virt.0);
            let ghost prev = *self;
            proof {
                assert(pages@[idx as int] == (TranslationAddress(region.page_virt(idx as int)), region.page_phys(idx as int)));
            }
            match self.map_page(virt, phys) {
                Ok(()) => {},
                Err(e) => {
                    proof {
                        if e == BringUpError::MappingConflict {
                            assert(self.mapping().contains_key(page_key(region.page_virt(idx as int))));
                        }
                        lemma_keeps_valid_trans(*old(self), prev, *self);
                    }
                    return Err(e);
                },
            }
            proof {
                assert forall|k2: (int, int, int)|
                    #[trigger] self.mapping().contains_key(k2) implies old(self).mapping().contains_key(k2)
                        || exists|q: int| 0 <= q < page_count(region.size) && k2 == page_key(#[trigger] region.page_virt(q)) by {
                    if !before.contains_key(k2) {
                        assert(k2 == page_key(region.page_virt(idx as int)));
                    }
                }
                assert forall|q: int|
                    0 <= q < idx + 1 implies self.mapping().contains_key(page_key(#[trigger] region.page_virt(q)))
                        && self.mapping()[page_key(region.page_virt(q))] == address_of(region.page_phys(q)) by {
                    if q < idx {
                        assert(before.contains_key(page_key(region.page_virt(q))));
                    }
                }
                lemma_keeps_valid_trans(*old(self), prev, *self);
            }
            idx = idx + 1;
        }
        proof {
            assert(steps.subrange(n as int, n as int).len() == 0);
        }
        Ok(())
    }
}

impl AddressSpace {
    /// Maps the regions one after the other, in the order given, stopping at the
    /// first error.
    ///
    /// The result and the state after it are exactly those of `run_regions`.
    /// Whatever the outcome, every descriptor valid before keeps its value.
    pub fn map_regions(&mut self, regions: &Vec<MemoryMapDescriptor>) -> (r: Result<(), BringUpError>)
        requires
            old(self).wf(),
            forall|n: int| 0 <= n < regions@.len() ==> (#[trigger] regions@[n]).fits(),
        ensures
            final(self).wf(),
            final(self).l2_capacity() == old(self).l2_capacity(),
            final(self).l3_capacity() == old(self).l3_capacity(),
            extends(old(self).mapping(), final(self).mapping()),
            forall|key: (int, int, int)|
                #[trigger] final(self).mapping().contains_key(key) ==> old(self).mapping().contains_key(key)
                    || exists|n: int, q: int|
                    0 <= n < regions@.len() && 0 <= q < page_count(regions@[n].size) && key == page_key(
                        #[trigger] regions@[n].page_virt(q),
                    ),
            r is Ok ==> forall|n: int| 0 <= n < regions@.len() ==> covers(final(self).mapping(), #[trigger] regions@[n]),
            r == Err::<(), BringUpError>(BringUpError::MappingConflict) ==> exists|n: int, q: int|
                0 <= n < regions@.len() && 0 <= q < page_count(regions@[n].size) && final(self).mapping().contains_key(
                    page_key(#[trigger] regions@[n].page_virt(q)),
                ) && final(self).mapping()[page_key(regions@[n].page_virt(q))] != address_of(regions@[n].page_phys(q)),
            r == Err::<(), BringUpError>(BringUpError::OutOfSlots) ==> final(self).l2_used() == final(self).l2_capacity()
                || final(self).l3_used() == final(self).l3_capacity(),
            r != Err::<(), BringUpError>(BringUpError::PoolInconsistency),
            (r, final(self).state()) == run_regions(old(self).state(), regions@),
            old(self).keeps_valid(*final(self)),
    {
        let mut n: usize = 0;
        proof {
            assert(regions@.subrange(0, regions@.len() as int) =~= regions@);
            lemma_keeps_valid_refl(*self);
        }
        while n < regions.len()
            invariant
                self.wf(),
                n <= regions@.len(),
                forall|x: int| 0 <= x < regions@.len() ==> (#[trigger] regions@[x]).fits(),
                self.l2_capacity() == old(self).l2_capacity(),
                self.l3_capacity() == old(self).l3_capacity(),
                extends(old(self).mapping(), self.mapping()),
                forall|x: int| 0 <= x < n ==> covers(self.mapping(), #[trigger] regions@[x]),
                forall|key: (int, int, int)|
                    #[trigger] self.mapping().contains_key(key) ==> old(self).mapping().contains_key(key)
                        || exists|x: int, q: int|
                        0 <= x < n && 0 <= q < page_count(regions@[x].size) && key == page_key(
                            #[trigger] regions@[x].page_virt(q),
                        ),
                run_regions(old(self).state(), regions@) == run_regions(
                    self.state(),
                    regions@.subrange(n as int, regions@.len() as int),
                ),
                old(self).keeps_valid(*self),
                old(self).l2_used() <= self.l2_used(),
                old(self).l3_used() <= self.l3_used(),
            decreases regions@.len() - n,
        {
            let ghost before = self.mapping();
            let ghost prev = *self;
            proof {
                let sub = regions@.subrange(n as int, regions@.len() as int);
                assert(sub[0] == regions@[n as int]);
                assert(sub.drop_first() =~= regions@.subrange(n + 1, regions@.len() as int));
            }
            let res = self.map_region(&regions[n]);
            proof {
                lemma_keeps_valid_trans(*old(self), prev, *self);
                assert forall|key: (int, int, int)| #[trigger] old(self).mapping().contains_key(key) implies self.mapping().contains_key(key)
                    && self.mapping()[key] == old(self).mapping()[key] by {
                    assert(before.contains_key(key));
                }
                assert forall|x: int| 0 <= x < n implies covers(self.mapping(), #[trigger] regions@[x]) by {
                    lemma_extends_covers(before, self.mapping(), regions@[x]);
                }
                assert forall|key: (int, int, int)| #[trigger] self.mapping().contains_key(key) implies old(
                    self,
                ).mapping().contains_key(key) || exists|x: int, q: int|
                    0 <= x < n + 1 && 0 <= q < page_count(regions@[x].size) && key == page_key(
                        #[trigger] regions@[x].page_virt(q),
                    ) by {
                    if !before.contains_key(key) {
                        let q = choose|q: int|
                            0 <= q < page_count(regions@[n as int].size) && key == page_key(
                                #[trigger] regions@[n as int].page_virt(q),
                            );
                        assert(0 <= n < n + 1 && 0 <= q < page_count(regions@[n as int].size) && key == page_key(
                            regions@[n as int].page_virt(q)));
                    } else if !old(self).mapping().contains_key(key) {
                        let (x, q) = choose|x: int, q: int|
                            0 <= x < n && 0 <= q < page_count(regions@[x].size) && key == page_key(
                                #[trigger] regions@[x].page_virt(q),
                            );
                        assert(0 <= x < n + 1 && 0 <= q < page_count(regions@[x].size) && key == page_key(
                            regions@[x].page_virt(q)));
                    }
                }
            }
            match res {
                Ok(()) => {},
                Err(e) => {
                    proof {
                        if e == BringUpError::MappingConflict {
                            let q = choose|q: int|
                                0 <= q < page_count(regions@[n as int].size) && self.mapping().contains_key(
                                    page_key(#[trigger] regions@[n as int].page_virt(q)),
                                ) && self.mapping()[page_key(regions@[n as int].page_virt(q))] != address_of(
                                    regions@[n as int].page_phys(q),
                                );
                            assert(0 <= n < regions@.len() && 0 <= q < page_count(regions@[n as int].size)
                                && self.mapping().contains_key(page_key(regions@[n as int].page_virt(q)))
                                && self.mapping()[page_key(regions@[n as int].page_virt(q))] != address_of(
                                    regions@[n as int].page_phys(q),
                                ));
                        }
                    }
                    return Err(e);
                },
            }
            n = n + 1;
        }
        proof {
            assert(regions@.subrange(n as int, regions@.len() as int).len() == 0);
        }
        Ok(())
    }

    /// Read access to the pool of level-2 tables.
    pub fn l2_slots(&self) -> (r: &AddressedSlots<TableDescriptor>)
        ensures
            *r == self.l2_pool(),
            r.allocated() == self.l2_used(),
            r.wf() <== self.wf(),
    {
        &self.l2
    }

    /// Read access to the pool of level-3 tables.
    pub fn l3_slots(&self) -> (r: &AddressedSlots<PageDescriptor>)
        ensures
            *r == self.l3_pool(),
            r.allocated() == self.l3_used(),
            r.wf() <== self.wf(),
    {
        &self.l3
    }

    /// Entry `i` of the level-1 table.
    pub fn l1_entry(&self, i: usize) -> (r: TableDescriptor)
        requires
            self.wf(),
            i < L1_ENTRIES,
        ensures
            r == self.l1e(i as int),
    {
        self.l1.entries[i]
    }
}

} // verus!
