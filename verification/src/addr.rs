//! Physical and virtual addresses of the Sv39 paging scheme, and the fixed
//! memory layout of the enclave runtime.
use vstd::prelude::*;

verus! {

/// Size of a base page.
pub const PAGE_SIZE: usize = 0x1000;

/// Virtual base of the runtime kernel image.
pub const KERNEL_BASE: u64 = 0xFFFF_FFFF_C000_0000;

/// Size of the region reserved for the runtime's boot page tables.
pub const KERNEL_PAGE_TABLE_PREALLOC: usize = 0x10_000;

/// Virtual base of the mirror mapping of the whole enclave private memory.
pub const KERNEL_MIRROR_BASE: u64 = 0xFFFF_FFFF_0000_0000;

/// Virtual base of the untrusted shared memory.
pub const KERNEL_UTM_BASE: u64 = 0xFFFF_FFFF_8000_0000;

/// Virtual base of the user program.
pub const USER_BASE: u64 = 0x40_0000;

/// Size of the enclave private memory.
pub const EPM_SIZE: usize = 0x100_000;

/// Size of the untrusted shared memory.
pub const UTM_SIZE: usize = 0x1_000;

/// Offset of the runtime image inside the enclave private memory.
pub const KERNEL_EPM_OFFSET: usize = 0x4_000;

/// A physical address.
#[derive(Clone, Copy, PartialEq, Eq, Hash, Debug, Structural)]
pub struct PhysAddr(pub u64);

/// A virtual address.
#[derive(Clone, Copy, PartialEq, Eq, Hash, Debug, Structural)]
pub struct VirtAddr(pub u64);

/// Index into the top-level (1 GiB) table.
pub open spec fn vpn2_of(va: u64) -> int {
    ((va / 0x4000_0000) % 512) as int
}

/// Index into the middle (2 MiB) table.
pub open spec fn vpn1_of(va: u64) -> int {
    ((va / 0x20_0000) % 512) as int
}

/// Index into the last (4 KiB) table.
pub open spec fn vpn0_of(va: u64) -> int {
    ((va / 0x1000) % 512) as int
}

impl PhysAddr {
    /// Offset of the address inside its page.
    pub fn page_offset(self) -> (r: u64)
        ensures
            r == self.0 % 4096,
    {
        let a = self.0;
        assert(a & 0xFFF == a % 4096) by (bit_vector);
        a & 0xFFF
    }

    /// Physical page number of the address.
    pub fn ppn(self) -> (r: u64)
        ensures
            r == self.0 / 4096,
    {
        let a = self.0;
        assert(a >> 12u64 == a / 4096) by (bit_vector);
        a >> 12
    }

    /// The address at `offset` inside physical page `ppn`.
    pub fn from_ppn_offset(ppn: u64, offset: u64) -> (r: PhysAddr)
        requires
            ppn < 0x10_0000_0000_0000,
            offset < 4096,
        ensures
            r.0 == ppn * 4096 + offset,
    {
        assert(((ppn << 12) | offset) == ppn * 4096 + offset) by (bit_vector)
            requires
                ppn < 0x10_0000_0000_0000,
                offset < 4096,
        ;
        PhysAddr((ppn << 12) | offset)
    }
}

impl VirtAddr {
    /// Offset of the address inside its page.
    pub fn page_offset(self) -> (r: u64)
        ensures
            r == self.0 % 4096,
    {
        let a = self.0;
        assert(a & 0xFFF == a % 4096) by (bit_vector);
        a & 0xFFF
    }

    /// Index of the address in the top-level table.
    pub fn vpn2(self) -> (r: usize)
        ensures
            r == vpn2_of(self.0),
            r < 512,
    {
        let a = self.0;
        assert((a >> 30u64) & 0x1FF == (a / 0x4000_0000) % 512) by (bit_vector);
        ((a >> 30u64) & 0x1FF) as usize
    }

    /// Index of the address in the middle table.
    pub fn vpn1(self) -> (r: usize)
        ensures
            r == vpn1_of(self.0),
            r < 512,
    {
        let a = self.0;
        assert((a >> 21u64) & 0x1FF == (a / 0x20_0000) % 512) by (bit_vector);
        ((a >> 21u64) & 0x1FF) as usize
    }

    /// Index of the address in the last-level table.
    pub fn vpn0(self) -> (r: usize)
        ensures
            r == vpn0_of(self.0),
            r < 512,
    {
        let a = self.0;
        assert((a >> 12u64) & 0x1FF == (a / 0x1000) % 512) by (bit_vector);
        ((a >> 12u64) & 0x1FF) as usize
    }
}

/// Splitting a physical address into its page number and offset and
/// joining them again gives the address back.
pub proof fn lemma_phys_addr_split(a: u64)
    requires
        a < 0x100_0000_0000_0000,
    ensures
        a / 4096 < 0x10_0000_0000_0000,
        a % 4096 < 4096,
        (a / 4096) * 4096 + a % 4096 == a,
{
}

} // verus!
