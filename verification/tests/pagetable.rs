use new_tee_os::addr::{PhysAddr, VirtAddr, KERNEL_BASE, KERNEL_MIRROR_BASE, KERNEL_UTM_BASE, USER_BASE};
use new_tee_os::linear_mm::LinearMemoryManager;
use new_tee_os::pagetable::{MapError, PageManager, RootPageTable};
use new_tee_os::pte::PageTableEntry;
use new_tee_os::region::map_region;
use new_tee_os::runtime::{handle_page_fault_at, map_user_segment, vm_init, FreeMem, HeapPageManager};

const BASE: u64 = 0x8000_0000;

fn walk_4k(m: &LinearMemoryManager, root: PhysAddr, va: VirtAddr) -> Option<u64> {
    let e2 = m.read_entry(root, va.vpn2());
    if !e2.is_valid() || e2.is_leaf() {
        return None;
    }
    let e1 = m.read_entry(e2.descending_page(), va.vpn1());
    if !e1.is_valid() || e1.is_leaf() {
        return None;
    }
    let e0 = m.read_entry(e1.descending_page(), va.vpn0());
    if e0.is_valid() && e0.is_leaf() {
        Some(e0.0)
    } else {
        None
    }
}

#[test]
fn it_works() {
    let mut manager = LinearMemoryManager::new(PhysAddr(BASE), PhysAddr(BASE + 4 * 4096));
    assert_eq!(BASE & 0xFFF, 0);
    let rpt_phys = manager.alloc_physical_page();
    let mut rpt = RootPageTable::new(rpt_phys, manager);
    rpt.map_2m(VirtAddr(KERNEL_BASE), PageTableEntry::for_ppn(42).make_rwx());

    let manager = rpt.into_manager();
    assert_eq!(manager.allocated_pages(), 2);
    // internal node
    let addr = BASE + 4096;
    assert_eq!(manager.read_entry(PhysAddr(BASE), 0x1FF).0, (addr >> 12 << 10) | 1);
    // leaf node
    assert_eq!(manager.read_entry(PhysAddr(BASE + 4096), 0).0, (42 << 10) | 15);
}

#[test]
fn pte_bits() {
    let e = PageTableEntry::for_ppn(0x1234);
    assert!(e.is_valid());
    assert!(!e.is_leaf());
    assert_eq!(e.ppn(), 0x1234);
    assert_eq!(e.0, (0x1234 << 10) | 1);
    let u = e.make_user();
    assert_eq!(u.0, e.0 | 16);
    assert_eq!(u.ppn(), 0x1234);
    let r = u.make_rwx();
    assert!(r.is_leaf());
    assert!(r.is_valid());
    assert_eq!(r.0, (0x1234 << 10) | 31);
    assert!(!PageTableEntry(0).is_valid());
}

#[test]
fn pte_phys_round_trip() {
    let p = PhysAddr(0x8020_3000);
    let e = PageTableEntry::for_phys(p);
    assert_eq!(e.descending_page(), p);
    assert_eq!(e.descending_page_table().0, p);
    assert_eq!(p.ppn(), 0x80203);
    assert_eq!(p.page_offset(), 0);
    assert_eq!(PhysAddr::from_ppn_offset(0x80203, 0x12).0, 0x8020_3012);
}

#[test]
fn virt_addr_indices() {
    let va = VirtAddr(KERNEL_BASE);
    assert_eq!(va.vpn2(), 0x1FF);
    assert_eq!(va.vpn1(), 0);
    assert_eq!(va.vpn0(), 0);
    let va = VirtAddr(0x4000_0000 * 3 + 0x20_0000 * 5 + 0x1000 * 7 + 9);
    assert_eq!((va.vpn2(), va.vpn1(), va.vpn0(), va.page_offset()), (3, 5, 7, 9));
}

#[test]
fn map_4k_then_walk() {
    let mut m = LinearMemoryManager::new(PhysAddr(BASE), PhysAddr(BASE + 8 * 4096));
    let root = m.alloc_physical_page();
    let mut rpt = RootPageTable::new(root, m);
    let e1 = PageTableEntry::for_ppn(0x100).make_rwx();
    let e2 = PageTableEntry::for_ppn(0x200).make_user().make_rwx();
    rpt.map_4k(VirtAddr(0x40_0000), e1);
    rpt.map_4k(VirtAddr(0x40_1000), e2);
    let m = rpt.into_manager();
    // one second-level and one last-level table besides the root
    assert_eq!(m.allocated_pages(), 3);
    assert_eq!(walk_4k(&m, root, VirtAddr(0x40_0000)), Some(e1.0));
    assert_eq!(walk_4k(&m, root, VirtAddr(0x40_1000)), Some(e2.0));
    assert_eq!(walk_4k(&m, root, VirtAddr(0x40_2000)), None);
}

#[test]
fn try_map_4k_errors() {
    let mut m = LinearMemoryManager::new(PhysAddr(BASE), PhysAddr(BASE + 2 * 4096));
    let root = m.alloc_physical_page();
    let mut rpt = RootPageTable::new(root, m);
    // only one free page left, two are needed
    let e = PageTableEntry::for_ppn(1).make_rwx();
    assert_eq!(rpt.try_map_4k(VirtAddr(0x1000), e), Err(MapError::OutOfTablePages));
    assert_eq!(rpt.pages_needed_4k(VirtAddr(0x1000)), Some(2));

    let mut m = LinearMemoryManager::new(PhysAddr(BASE), PhysAddr(BASE + 4 * 4096));
    let root = m.alloc_physical_page();
    let mut rpt = RootPageTable::new(root, m);
    rpt.map_2m(VirtAddr(0x20_0000), e);
    assert_eq!(rpt.pages_needed_4k(VirtAddr(0x20_1000)), None);
    assert_eq!(rpt.try_map_4k(VirtAddr(0x20_1000), e), Err(MapError::HugePageInTheWay));
    assert_eq!(rpt.try_map_4k(VirtAddr(0x40_0000), e), Ok(()));
}

#[test]
fn allocate_from_zeroes_root() {
    let m = LinearMemoryManager::new(PhysAddr(BASE), PhysAddr(BASE + 3 * 4096));
    let rpt = RootPageTable::allocate_from(m);
    let root = rpt.root_table().0;
    assert_eq!(root, PhysAddr(BASE));
    let m = rpt.into_manager();
    assert_eq!(m.allocated_pages(), 1);
    assert_eq!(m.free_page_count(), 2);
    for i in 0..512 {
        assert_eq!(m.read_entry(root, i).0, 0);
    }
}

#[test]
fn region_and_boot_layout() {
    let m = LinearMemoryManager::new(PhysAddr(BASE), PhysAddr(BASE + 16 * 4096));
    let epm_base = 0x8010_0000;
    let epm_size = 0x10_0000;
    let runtime_phys = epm_base + 0x4000;
    let user_phys = runtime_phys + 0x3000;
    let free_phys = user_phys + 0x2000;
    let utm_phys = 0x9000_0000;
    let utm_size = 0x1000;
    let (rpt, free) = vm_init(m, epm_base, epm_size, runtime_phys, user_phys, free_phys, utm_phys, utm_size)
        .unwrap();
    assert_eq!(free, FreeMem(free_phys - epm_base + KERNEL_MIRROR_BASE, epm_base + epm_size - free_phys));
    let root = rpt.root_table().0;
    let m = rpt.into_manager();
    let k = PageTableEntry::for_phys(PhysAddr(runtime_phys + 0x2000)).make_rwx();
    assert_eq!(walk_4k(&m, root, VirtAddr(KERNEL_BASE + 0x2000)), Some(k.0));
    assert_eq!(walk_4k(&m, root, VirtAddr(KERNEL_BASE + 0x3000)), None);
    let u = PageTableEntry::for_phys(PhysAddr(user_phys + 0x1000)).make_user().make_rwx();
    assert_eq!(walk_4k(&m, root, VirtAddr(USER_BASE + 0x1000)), Some(u.0));
    let mir = PageTableEntry::for_phys(PhysAddr(epm_base + 0xFF000)).make_rwx();
    assert_eq!(walk_4k(&m, root, VirtAddr(KERNEL_MIRROR_BASE + 0xFF000)), Some(mir.0));
    let t = PageTableEntry::for_phys(PhysAddr(utm_phys)).make_rwx();
    assert_eq!(walk_4k(&m, root, VirtAddr(KERNEL_UTM_BASE)), Some(t.0));
}

#[test]
fn boot_layout_runs_out_of_tables() {
    let m = LinearMemoryManager::new(PhysAddr(BASE), PhysAddr(BASE + 2 * 4096));
    let r = vm_init(m, 0x8010_0000, 0x10_0000, 0x8010_4000, 0x8010_5000, 0x8010_6000, 0x9000_0000, 0x1000);
    assert_eq!(r.err(), Some(MapError::OutOfTablePages));
    let m = LinearMemoryManager::new(PhysAddr(BASE), PhysAddr(BASE));
    let r = vm_init(m, 0x8010_0000, 0x10_0000, 0x8010_4000, 0x8010_5000, 0x8010_6000, 0x9000_0000, 0x1000);
    assert_eq!(r.err(), Some(MapError::OutOfTablePages));
}

#[test]
fn map_region_maps_consecutive_pages() {
    let m = LinearMemoryManager::new(PhysAddr(BASE), PhysAddr(BASE + 8 * 4096));
    let mut rpt = RootPageTable::allocate_from(m);
    assert_eq!(map_region(&mut rpt, VirtAddr(0x1F_F000), PhysAddr(0x5000_0000), 3, false), Ok(()));
    let root = rpt.root_table().0;
    let m = rpt.into_manager();
    for n in 0..3u64 {
        let e = PageTableEntry::for_phys(PhysAddr(0x5000_0000 + n * 4096)).make_rwx();
        assert_eq!(walk_4k(&m, root, VirtAddr(0x1F_F000 + n * 4096)), Some(e.0));
    }
    // the region crosses a 2 MiB boundary: root, one middle table, two last-level tables
    assert_eq!(m.allocated_pages(), 4);
}

#[test]
fn mirror_translation() {
    let h = HeapPageManager::new(0x8000_0000);
    let v = h.phys2virt(PhysAddr(0x8000_5000));
    assert_eq!(v, VirtAddr(KERNEL_MIRROR_BASE + 0x5000));
    assert_eq!(h.virt2phys(v), PhysAddr(0x8000_5000));
}

#[test]
fn page_fault_maps_fresh_page() {
    let m = LinearMemoryManager::new(PhysAddr(BASE), PhysAddr(BASE + 8 * 4096));
    let mut rpt = RootPageTable::allocate_from(m);
    let h = HeapPageManager::new(0x8000_0000);
    let new_page = VirtAddr(KERNEL_MIRROR_BASE + 0x7000);
    assert_eq!(handle_page_fault_at(&mut rpt, &h, 0x40_0123, new_page), Ok(()));
    let root = rpt.root_table().0;
    let m = rpt.into_manager();
    let e = PageTableEntry::for_phys(PhysAddr(0x8000_7000)).make_user().make_rwx();
    assert_eq!(walk_4k(&m, root, VirtAddr(0x40_0000)), Some(e.0));
}

#[test]
fn user_segment_rounds_up() {
    let m = LinearMemoryManager::new(PhysAddr(BASE), PhysAddr(BASE + 8 * 4096));
    let mut rpt = RootPageTable::allocate_from(m);
    let h = HeapPageManager::new(0x8000_0000);
    let from = KERNEL_MIRROR_BASE + 0x10_0000;
    assert_eq!(map_user_segment(&mut rpt, &h, from, 0x1001, 0x10000), Ok(()));
    let root = rpt.root_table().0;
    let m = rpt.into_manager();
    let e = PageTableEntry::for_phys(PhysAddr(0x8010_1000)).make_user().make_rwx();
    assert_eq!(walk_4k(&m, root, VirtAddr(0x11000)), Some(e.0));
    assert_eq!(walk_4k(&m, root, VirtAddr(0x12000)), None);
}

#[test]
fn remapping_a_page_keeps_the_later_entry() {
    let m = LinearMemoryManager::new(PhysAddr(BASE), PhysAddr(BASE + 8 * 4096));
    let mut rpt = RootPageTable::allocate_from(m);
    let e1 = PageTableEntry::for_ppn(0x100).make_rwx();
    let e2 = PageTableEntry::for_ppn(0x200).make_rwx();
    rpt.map_4k(VirtAddr(0x40_0000), e1);
    rpt.map_4k(VirtAddr(0x40_1000), e1);
    rpt.map_4k(VirtAddr(0x40_0000), e2);
    let root = rpt.root_table().0;
    let m = rpt.into_manager();
    assert_eq!(walk_4k(&m, root, VirtAddr(0x40_0000)), Some(e2.0));
    assert_eq!(walk_4k(&m, root, VirtAddr(0x40_1000)), Some(e1.0));
    // the second mapping of the page needs no new tables
    assert_eq!(m.allocated_pages(), 3);
}

#[test]
fn linear_manager_hands_out_pages_in_order() {
    let mut m = LinearMemoryManager::new(PhysAddr(BASE), PhysAddr(BASE + 3 * 4096));
    assert_eq!(m.alloc_physical_page(), PhysAddr(BASE));
    assert_eq!(m.alloc_physical_page(), PhysAddr(BASE + 4096));
    assert_eq!(m.allocated_pages(), 2);
    assert_eq!(m.free_page_count(), 1);
    for i in 0..512 {
        assert_eq!(m.read_entry(PhysAddr(BASE + 4096), i).0, 0);
    }
}

#[test]
fn region_needs_tables_only_per_boundary() {
    // eight pages in one 2 MiB slot need one middle and one last-level table
    let m = LinearMemoryManager::new(PhysAddr(BASE), PhysAddr(BASE + 3 * 4096));
    let mut rpt = RootPageTable::allocate_from(m);
    assert_eq!(map_region(&mut rpt, VirtAddr(KERNEL_BASE), PhysAddr(0x8000_4000), 8, false), Ok(()));
    let m = rpt.into_manager();
    assert_eq!(m.free_page_count(), 0);
    // with one page fewer the second table cannot be had
    let m = LinearMemoryManager::new(PhysAddr(BASE), PhysAddr(BASE + 2 * 4096));
    let mut rpt = RootPageTable::allocate_from(m);
    assert_eq!(
        map_region(&mut rpt, VirtAddr(KERNEL_BASE), PhysAddr(0x8000_4000), 8, false),
        Err(MapError::OutOfTablePages)
    );
}

#[test]
fn boot_layout_fits_in_nine_table_pages() {
    let run = |n: u64| {
        let m = LinearMemoryManager::new(PhysAddr(BASE), PhysAddr(BASE + n * 4096));
        vm_init(m, 0x8000_0000, 0x10_0000, 0x8000_4000, 0x8000_8000, 0x8000_A000, 0x8200_0000, 0x1000)
    };
    let (_, free) = run(9).unwrap();
    assert_eq!(free, FreeMem(0xFFFF_FFFF_0000_A000, 0xF_6000));
    assert_eq!(run(8).err(), Some(MapError::OutOfTablePages));
}

#[test]
fn second_lookup_of_a_slot_reuses_its_table() {
    let m = LinearMemoryManager::new(PhysAddr(BASE), PhysAddr(BASE + 4 * 4096));
    let mut rpt = RootPageTable::allocate_from(m);
    let t1 = rpt.lookup_1g(VirtAddr(KERNEL_BASE));
    let t2 = rpt.lookup_1g(VirtAddr(KERNEL_BASE + 0x20_0000));
    assert_eq!(t1, t2);
    assert_eq!(t1.0, PhysAddr(BASE + 4096));
    let m = rpt.into_manager();
    assert_eq!(m.allocated_pages(), 2);
}

#[test]
fn boot_tables_are_fresh_pages() {
    let mut m = LinearMemoryManager::new(PhysAddr(BASE), PhysAddr(BASE + 12 * 4096));
    // a page the manager already held stays out of the tree
    let held = m.alloc_physical_page();
    let (rpt, _) =
        vm_init(m, 0x8000_0000, 0x10_0000, 0x8000_4000, 0x8000_8000, 0x8000_A000, 0x8200_0000, 0x1000)
            .unwrap();
    let root = rpt.root_table().0;
    assert_ne!(root, held);
    let m = rpt.into_manager();
    for i in 0..512 {
        let e = m.read_entry(root, i);
        if e.is_valid() {
            assert_ne!(e.descending_page(), held);
        }
    }
}
