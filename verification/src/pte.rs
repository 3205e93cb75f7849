//! Sv39 page table entries.
use vstd::prelude::*;
use crate::addr::PhysAddr;

verus! {

/// The entry maps or points to something.
pub const PTE_VALID: u64 = 1;

/// Read, write and execute permission bits; any of them makes a leaf.
pub const PTE_RWX: u64 = 0xE;

/// The mapping is accessible from user mode.
pub const PTE_USER: u64 = 16;

/// Sv39 translation mode number in `satp`.
pub const MODE_SV39: u64 = 8;

/// Largest physical page number an entry can hold (44 bits).
pub const PPN_MASK: u64 = 0xFFF_FFFF_FFFF;

/// A raw Sv39 page table entry.
#[derive(Clone, Copy, PartialEq, Eq, Debug, Structural)]
pub struct PageTableEntry(pub u64);

pub open spec fn spec_is_valid(e: u64) -> bool {
    e & PTE_VALID != 0
}

pub open spec fn spec_is_leaf(e: u64) -> bool {
    e & PTE_RWX != 0
}

pub open spec fn spec_is_user(e: u64) -> bool {
    e & PTE_USER != 0
}

/// Physical page number stored in an entry.
pub open spec fn spec_ppn(e: u64) -> u64 {
    (e >> 10u64) & PPN_MASK
}

/// An entry that points to a next-level table.
pub open spec fn spec_is_table(e: u64) -> bool {
    spec_is_valid(e) && !spec_is_leaf(e)
}

/// Physical address of the page that an entry points to.
pub open spec fn spec_target(e: u64) -> u64 {
    (spec_ppn(e) * 4096) as u64
}

/// The raw value of a pointer entry for physical page `ppn`.
pub open spec fn spec_for_ppn(ppn: u64) -> u64 {
    (ppn << 10u64) | PTE_VALID
}

impl PageTableEntry {
    /// A valid, non-leaf entry for physical page `ppn`.
    pub fn for_ppn(ppn: u64) -> (e: PageTableEntry)
        ensures
            e.0 == spec_for_ppn(ppn),
            spec_is_valid(e.0),
            !spec_is_leaf(e.0),
            !spec_is_user(e.0),
            ppn < 0x1000_0000_0000 ==> spec_ppn(e.0) == ppn,
    {
        let p = ppn;
        assert(((p << 10u64) | 1u64) & 1u64 != 0) by (bit_vector);
        assert(((p << 10u64) | 1u64) & 0xEu64 == 0) by (bit_vector);
        assert(((p << 10u64) | 1u64) & 16u64 == 0) by (bit_vector);
        assert(p < 0x1000_0000_0000 ==> ((((p << 10u64) | 1u64) >> 10u64) & 0xFFF_FFFF_FFFFu64)
            == p) by (bit_vector);
        PageTableEntry((p << 10) | PTE_VALID)
    }

    /// A valid, non-leaf entry for the page at `phys`, which must be page aligned.
    pub fn for_phys(phys: PhysAddr) -> (e: PageTableEntry)
        requires
            phys.0 % 4096 == 0,
        ensures
            e.0 == spec_for_ppn(phys.0 / 4096),
            spec_is_table(e.0),
            !spec_is_user(e.0),
            phys.0 < 0x100_0000_0000_0000 ==> spec_target(e.0) == phys.0,
    {
        let ppn = phys.ppn();
        let e = PageTableEntry::for_ppn(ppn);
        assert(ppn * 4096 == phys.0);
        e
    }

    /// Whether the entry is valid.
    pub fn is_valid(self) -> (r: bool)
        ensures
            r == spec_is_valid(self.0),
    {
        (self.0 & PTE_VALID) != 0
    }

    /// Whether the entry is a leaf, that is, has any of the R, W, X bits.
    pub fn is_leaf(self) -> (r: bool)
        ensures
            r == spec_is_leaf(self.0),
    {
        (self.0 & PTE_RWX) != 0
    }

    /// The same entry, accessible from user mode.
    pub fn make_user(self) -> (r: Self)
        ensures
            r.0 == self.0 | PTE_USER,
            spec_is_user(r.0),
            spec_is_valid(r.0) == spec_is_valid(self.0),
            spec_is_leaf(r.0) == spec_is_leaf(self.0),
            spec_ppn(r.0) == spec_ppn(self.0),
    {
        let v = self.0;
        assert((v | 16u64) & 16u64 != 0) by (bit_vector);
        assert(((v | 16u64) & 1u64 != 0) == (v & 1u64 != 0)) by (bit_vector);
        assert(((v | 16u64) & 0xEu64 != 0) == (v & 0xEu64 != 0)) by (bit_vector);
        assert(((v | 16u64) >> 10u64) & 0xFFF_FFFF_FFFFu64 == (v >> 10u64) & 0xFFF_FFFF_FFFFu64)
            by (bit_vector);
        let mut r = self;
        r.0 = r.0 | PTE_USER;
        r
    }

    /// The same entry, readable, writable and executable (hence a leaf).
    pub fn make_rwx(self) -> (r: Self)
        ensures
            r.0 == self.0 | PTE_RWX,
            spec_is_leaf(r.0),
            spec_is_valid(r.0) == spec_is_valid(self.0),
            spec_is_user(r.0) == spec_is_user(self.0),
            spec_ppn(r.0) == spec_ppn(self.0),
    {
        let v = self.0;
        assert((v | 0xEu64) & 0xEu64 != 0) by (bit_vector);
        assert(((v | 0xEu64) & 1u64 != 0) == (v & 1u64 != 0)) by (bit_vector);
        assert(((v | 0xEu64) & 16u64 != 0) == (v & 16u64 != 0)) by (bit_vector);
        assert(((v | 0xEu64) >> 10u64) & 0xFFF_FFFF_FFFFu64 == (v >> 10u64) & 0xFFF_FFFF_FFFFu64)
            by (bit_vector);
        let mut r = self;
        r.0 = r.0 | PTE_RWX;
        r
    }

    /// Physical page number held by the entry.
    pub fn ppn(self) -> (r: u64)
        ensures
            r == spec_ppn(self.0),
            r < 0x1000_0000_0000,
    {
        let v = self.0;
        assert((v >> 10u64) & 0xFFF_FFFF_FFFFu64 < 0x1000_0000_0000u64) by (bit_vector);
        (self.0 >> 10) & PPN_MASK
    }

    /// Physical address of the page the entry refers to.
    pub fn descending_page(self) -> (r: PhysAddr)
        ensures
            r.0 == spec_target(self.0),
            r.0 % 4096 == 0,
            r.0 < 0x100_0000_0000_0000,
    {
        PhysAddr::from_ppn_offset(self.ppn(), 0)
    }
}

/// A pointer entry made for a page-aligned physical address points back to
/// that address.
pub proof fn lemma_for_phys_round_trip(phys: u64)
    requires
        phys % 4096 == 0,
        phys < 0x100_0000_0000_0000,
    ensures
        spec_target(spec_for_ppn(phys / 4096)) == phys,
        spec_is_table(spec_for_ppn(phys / 4096)),
{
    let p = phys / 4096;
    assert(p < 0x1000_0000_0000);
    assert(p < 0x1000_0000_0000 ==> ((((p << 10u64) | 1u64) >> 10u64) & 0xFFF_FFFF_FFFFu64)
        == p) by (bit_vector);
    assert(((p << 10u64) | 1u64) & 1u64 != 0) by (bit_vector);
    assert(((p << 10u64) | 1u64) & 0xEu64 == 0) by (bit_vector);
}

} // verus!
