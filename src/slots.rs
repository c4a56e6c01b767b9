//! A fixed pool of translation tables, each lent out at most once.
//!
//! Slot `s` keeps its table's entries at positions `[s * TABLE_ENTRIES, (s + 1) * TABLE_ENTRIES)`
//! of one backing vector, and is identified by the physical address `base + s * PAGE_SIZE`.
use vstd::prelude::*;
use crate::translation::{TABLE_ENTRIES, VA_LIMIT};
use crate::PAGE_SIZE;
use crate::error::BringUpError;

verus! {

/// Position of entry `index` of slot `slot` in the backing vector.
pub open spec fn position(slot: int, index: int) -> int {
    slot * TABLE_ENTRIES as int + index
}

pub proof fn lemma_position_bounds(slot: int, index: int, slots: int)
    requires
        0 <= slot < slots,
        0 <= index < TABLE_ENTRIES as int,
    ensures
        0 <= position(slot, index) < slots * TABLE_ENTRIES as int,
        position(slot, index) >= slot * TABLE_ENTRIES as int,
        position(slot, index) < (slot + 1) * TABLE_ENTRIES as int,
{
    assert(slot * TABLE_ENTRIES as int + index < slots * TABLE_ENTRIES as int) by (nonlinear_arith)
        requires
            0 <= slot < slots,
            0 <= index < TABLE_ENTRIES as int,
    ;
    assert(0 <= slot * TABLE_ENTRIES as int) by (nonlinear_arith)
        requires
            0 <= slot,
    ;
    assert((slot + 1) * TABLE_ENTRIES as int == slot * TABLE_ENTRIES as int + TABLE_ENTRIES as int)
        by (nonlinear_arith);
}

/// Distinct (slot, index) pairs sit at distinct positions.
pub proof fn lemma_position_injective(s1: int, i1: int, s2: int, i2: int)
    requires
        0 <= s1,
        0 <= s2,
        0 <= i1 < TABLE_ENTRIES as int,
        0 <= i2 < TABLE_ENTRIES as int,
        position(s1, i1) == position(s2, i2),
    ensures
        s1 == s2,
        i1 == i2,
{
    assert(s1 == s2) by (nonlinear_arith)
        requires
            0 <= s1,
            0 <= s2,
            0 <= i1 < 8192,
            0 <= i2 < 8192,
            s1 * 8192 + i1 == s2 * 8192 + i2,
    ;
}

/// One request for a slot from a pool with `allocated` of `capacity` slots lent
/// out: whether it succeeds, and how many are lent out after it.
pub open spec fn slot_step(allocated: nat, capacity: nat) -> (bool, nat) {
    if allocated < capacity {
        (true, allocated + 1)
    } else {
        (false, allocated)
    }
}

/// Slots lent out after `n` requests to a fresh pool of `capacity` slots.
pub open spec fn allocated_after(capacity: nat, n: nat) -> nat
    decreases n,
{
    if n == 0 {
        0
    } else {
        slot_step(allocated_after(capacity, (n - 1) as nat), capacity).1
    }
}

/// Exhaustion: of the requests to a fresh pool of `capacity` slots, request
/// number `n + 1` succeeds exactly when `n < capacity`: the first failure is
/// request `capacity + 1`, never earlier.
pub proof fn lemma_exhaustion(capacity: nat, n: nat)
    ensures
        slot_step(allocated_after(capacity, n), capacity).0 <==> n < capacity,
        allocated_after(capacity, n) == if n < capacity { n } else { capacity },
    decreases n,
{
    if n > 0 {
        lemma_exhaustion(capacity, (n - 1) as nat);
    }
}

/// A slot's address fits below the top of the pool.
pub proof fn lemma_slot_address_fits(base: u64, s: int, n: int)
    requires
        0 <= s < n,
        base + n * PAGE_SIZE <= VA_LIMIT,
    ensures
        base + s * PAGE_SIZE < VA_LIMIT,
        base + s * PAGE_SIZE == ((base + s * PAGE_SIZE) as u64) as int,
{
    assert(s * PAGE_SIZE < n * PAGE_SIZE) by (nonlinear_arith)
        requires
            0 <= s < n,
    ;
    assert(0 <= s * PAGE_SIZE) by (nonlinear_arith)
        requires
            0 <= s,
    ;
}

/// A pool of `capacity` tables; the first `allocated` of them are lent out, in order.
pub struct AddressedSlots<T> {
    /// Entries of every table, slot after slot.
    backing: Vec<T>,
    /// For each slot, its address once it is lent out.
    slots: Vec<Option<u64>>,
    /// Physical address of slot 0.
    base: u64,
    /// Number of slots lent out so far.
    count: Ghost<nat>,
}

impl<T: Copy> AddressedSlots<T> {
    pub closed spec fn capacity(self) -> nat {
        self.slots@.len()
    }

    pub closed spec fn allocated(self) -> nat {
        self.count@
    }

    pub closed spec fn base(self) -> u64 {
        self.base
    }

    /// Address of slot `s`.
    pub open spec fn slot_address(self, s: int) -> int {
        self.base() + s * PAGE_SIZE as int
    }

    pub proof fn lemma_allocated_bounded(self)
        requires
            self.wf(),
        ensures
            self.allocated() <= self.capacity(),
            self.capacity() <= usize::MAX,
    {
    }

    /// Page number (address divided by the page size) of slot `s`.
    pub open spec fn slot_page(self, s: int) -> int {
        self.base() as int / PAGE_SIZE as int + s
    }

    /// A slot's address is its page number times the page size, and fits the
    /// 32-bit address field of a descriptor.
    pub proof fn lemma_slot_page(self, s: int)
        requires
            self.wf(),
            0 <= s < self.capacity(),
        ensures
            self.slot_address(s) == self.slot_page(s) * PAGE_SIZE as int,
            0 <= self.slot_page(s) < 0x1_0000_0000,
            0 <= self.slot_address(s) < VA_LIMIT,
    {
        let b = self.base as int;
        let q = b / 65536;
        vstd::arithmetic::div_mod::lemma_fundamental_div_mod(b, 65536);
        lemma_slot_address_fits(self.base, s, self.slots@.len() as int);
        assert(b + s * 65536 == (q + s) * 65536) by (nonlinear_arith)
            requires
                b == 65536 * q,
        ;
        assert(0 <= q + s < 0x1_0000_0000) by (nonlinear_arith)
            requires
                (q + s) * 65536 < 0x1_0000_0000_0000,
                0 <= b,
                b == 65536 * q,
                0 <= s,
        ;
    }

    /// Entry `index` of the table in slot `slot`.
    pub closed spec fn entry_at(self, slot: int, index: int) -> T {
        self.backing@[position(slot, index)]
    }

    pub closed spec fn wf(self) -> bool {
        &&& self.backing@.len() == self.slots@.len() * TABLE_ENTRIES as int
        &&& self.backing@.len() <= usize::MAX
        &&& self.slots@.len() <= usize::MAX
        &&& self.count@ <= self.slots@.len()
        &&& self.base % PAGE_SIZE == 0
        &&& self.base + self.slots@.len() * PAGE_SIZE <= VA_LIMIT
        &&& forall|s: int|
            0 <= s < self.count@ ==> #[trigger] self.slots@[s] == Some(
                (self.base + s * PAGE_SIZE) as u64,
            )
        &&& forall|s: int|
            self.count@ <= s < self.slots@.len() ==> (#[trigger] self.slots@[s]).is_none()
    }

    /// A pool over `backing`, which holds `backing.len() / TABLE_ENTRIES` tables
    /// whose first one lives at physical address `base`.
    pub fn new(backing: Vec<T>, base: u64) -> (r: Self)
        requires
            backing@.len() % (TABLE_ENTRIES as nat) == 0,
            base % PAGE_SIZE == 0,
            base + (backing@.len() / (TABLE_ENTRIES as nat)) * PAGE_SIZE <= VA_LIMIT,
        ensures
            r.wf(),
            r.capacity() == backing@.len() / (TABLE_ENTRIES as nat),
            r.allocated() == 0,
            r.base() == base,
            forall|s: int, i: int|
                0 <= s < r.capacity() && 0 <= i < TABLE_ENTRIES ==> #[trigger] r.entry_at(s, i)
                    == backing@[position(s, i)],
    {
        let n: usize = backing.len() / TABLE_ENTRIES;
        let mut slots: Vec<Option<u64>> = Vec::new();
        let mut i: usize = 0;
        while i < n
            invariant
                i <= n,
                slots@.len() == i,
                forall|s: int| 0 <= s < i ==> #[trigger] slots@[s].is_none(),
            decreases n - i,
        {
            slots.push(None);
            i = i + 1;
        }
        assert(backing@.len() == n * TABLE_ENTRIES as int) by (nonlinear_arith)
            requires
                backing@.len() % 8192 == 0,
                n == backing@.len() / 8192,
        ;
        AddressedSlots { backing, slots, base, count: Ghost(0) }
    }

    /// Lends out the first free slot: its address and its index. Fails with
    /// `OutOfSlots` exactly when every slot is already lent out.
    pub fn new_slot(&mut self) -> (r: Result<(u64, usize), BringUpError>)
        requires
            old(self).wf(),
        ensures
            final(self).wf(),
            final(self).capacity() == old(self).capacity(),
            final(self).base() == old(self).base(),
            forall|s: int, i: int| #[trigger] final(self).entry_at(s, i) == old(self).entry_at(s, i),
            old(self).allocated() < old(self).capacity() ==> {
                &&& r == Ok::<(u64, usize), BringUpError>(
                    (old(self).slot_address(old(self).allocated() as int) as u64, old(self).allocated() as usize),
                )
                &&& final(self).allocated() == old(self).allocated() + 1
            },
            (r is Ok, final(self).allocated()) == slot_step(old(self).allocated(), old(self).capacity()),
            old(self).allocated() == old(self).capacity() ==> {
                &&& r == Err::<(u64, usize), BringUpError>(BringUpError::OutOfSlots)
                &&& *final(self) == *old(self)
            },
    {
        let n = self.slots.len();
        let mut i: usize = 0;
        while i < n && self.slots[i].is_some()
            invariant
                self.wf(),
                n == self.slots@.len(),
                i <= n,
                i <= self.count@,
            decreases n - i,
        {
            assert(self.slots@[i as int].is_some());
            i = i + 1;
        }
        if i == n {
            return Err(BringUpError::OutOfSlots);
        }
        assert(i as nat == self.count@);
        proof {
            assert(i * PAGE_SIZE <= n * PAGE_SIZE) by (nonlinear_arith)
                requires
                    i <= n,
            ;
        }
        let addr: u64 = self.base + (i as u64) * PAGE_SIZE;
        self.slots.set(i, Some(addr));
        self.count = Ghost(self.count@ + 1);
        Ok((addr, i))
    }

    /// The slot lent out under `address`, if there is one.
    pub fn fetch_for_address(&self, address: u64) -> (r: Option<usize>)
        requires
            self.wf(),
        ensures
            match r {
                Some(s) => s < self.allocated() && self.slot_address(s as int) == address,
                None => forall|s: int|
                    0 <= s < self.allocated() ==> self.slot_address(s) != address,
            },
    {
        let n = self.slots.len();
        let mut i: usize = 0;
        while i < n
            invariant
                self.wf(),
                n == self.slots@.len(),
                i <= n,
                forall|s: int|
                    0 <= s < i && s < self.count@ ==> self.slot_address(s) != address,
            decreases n - i,
        {
            proof {
                if i < self.count@ {
                    lemma_slot_address_fits(self.base, i as int, n as int);
                }
            }
            match self.slots[i] {
                Some(a) => {
                    if a == address {
                        proof {
                            assert(i < self.count@);
                            lemma_slot_address_fits(self.base, i as int, n as int);
                        }
                        return Some(i);
                    }
                },
                None => {},
            }
            i = i + 1;
        }
        None
    }

    /// Number of slots lent out so far.
    pub fn lent_out(&self) -> (r: usize)
        requires
            self.wf(),
        ensures
            r == self.allocated(),
    {
        let n = self.slots.len();
        let mut i: usize = 0;
        while i < n && self.slots[i].is_some()
            invariant
                self.wf(),
                n == self.slots@.len(),
                i <= n,
                i <= self.count@,
            decreases n - i,
        {
            assert(self.slots@[i as int].is_some());
            i = i + 1;
        }
        i
    }

    /// Number of tables in the pool.
    pub fn capacity_len(&self) -> (r: usize)
        ensures
            r == self.capacity(),
    {
        self.slots.len()
    }

    /// Entry `index` of the table in slot `slot`.
    pub fn get_entry(&self, slot: usize, index: usize) -> (r: T)
        requires
            self.wf(),
            slot < self.capacity(),
            index < TABLE_ENTRIES,
        ensures
            r == self.entry_at(slot as int, index as int),
    {
        proof {
            lemma_position_bounds(slot as int, index as int, self.slots@.len() as int);
            assert(position(slot as int, index as int) < self.backing@.len());
            let len = self.backing@.len() as int;
            assert(slot * TABLE_ENTRIES + index < len);
            assert(slot * TABLE_ENTRIES <= usize::MAX) by (nonlinear_arith)
                requires
                    slot * TABLE_ENTRIES + index < len,
                    len <= usize::MAX,
            ;
        }
        self.backing[slot * TABLE_ENTRIES + index]
    }

    /// Replaces entry `index` of the lent-out table in slot `slot`.
    pub fn set_entry(&mut self, slot: usize, index: usize, value: T)
        requires
            old(self).wf(),
            slot < old(self).allocated(),
            index < TABLE_ENTRIES,
        ensures
            final(self).wf(),
            final(self).capacity() == old(self).capacity(),
            final(self).allocated() == old(self).allocated(),
            final(self).base() == old(self).base(),
            final(self).entry_at(slot as int, index as int) == value,
            forall|s: int, i: int|
                0 <= s < old(self).capacity() && 0 <= i < TABLE_ENTRIES && (s != slot || i != index)
                    ==> #[trigger] final(self).entry_at(s, i) == old(self).entry_at(s, i),
    {
        proof {
            lemma_position_bounds(slot as int, index as int, self.slots@.len() as int);
            assert(position(slot as int, index as int) < self.backing@.len());
            let len = self.backing@.len() as int;
            assert(slot * TABLE_ENTRIES + index < len);
            assert(slot * TABLE_ENTRIES <= usize::MAX) by (nonlinear_arith)
                requires
                    slot * TABLE_ENTRIES + index < len,
                    len <= usize::MAX,
            ;
        }
        self.backing.set(slot * TABLE_ENTRIES + index, value);
        proof {
            assert forall|s: int, i: int|
                0 <= s < old(self).capacity() && 0 <= i < TABLE_ENTRIES && (s != slot || i != index)
                    implies #[trigger] self.entry_at(s, i) == old(self).entry_at(s, i) by {
                lemma_position_bounds(s, i, self.slots@.len() as int);
                if position(s, i) == position(slot as int, index as int) {
                    lemma_position_injective(s, i, slot as int, index as int);
                }
            }
        }
    }
}

} // verus!
