//! The page-table layout the enclave runtime sets up at boot, and the
//! runtime's translation between physical addresses and its mirror mapping.
use vstd::prelude::*;
use crate::addr::{
    PhysAddr, VirtAddr, vpn2_of, vpn1_of, vpn0_of, KERNEL_BASE, KERNEL_MIRROR_BASE, KERNEL_UTM_BASE, USER_BASE,
};
use crate::pagetable::{
    PageManager, RootPageTable, MapError, is_idx, mapping_1g, mapping_2m, mapping_4k, leaf_of,
    can_descend_2m, pages_needed_2m, maps_4k, translate, sv39_canonical, tree_outside,
    lemma_tables_from_trans, lemma_grown_tree_outside,
};
use crate::pte::{PageTableEntry, spec_is_user};
use crate::region::{
    map_region, flat_index, page_slot, slot_offset, region_entry, no_huge_page_over, region_step,
    SV39_PAGES, lemma_slot_of_offset, lemma_region_translation, region_tables, lemma_region_entry_user, lemma_region_tables_nonneg,
};

verus! {

/// The free memory left after boot: its virtual base and its size.
#[derive(Clone, Copy, PartialEq, Eq, Debug, Structural)]
pub struct FreeMem(pub u64, pub u64);

/// Slot `f` is one of the `count` slots from `start` on.
pub open spec fn covers(start: int, count: int, f: int) -> bool {
    slot_offset(f, start) < count
}

/// The 4 KiB leaf the boot layout puts at slot `f`: kernel image, user
/// program, mirror of the enclave memory and untrusted memory, later
/// regions taking precedence where they meet.
pub open spec fn boot_entry(
    f: int,
    epm_base: u64,
    epm_size: u64,
    runtime_phys: u64,
    user_phys: u64,
    free_phys: u64,
    utm_phys: u64,
    utm_size: u64,
) -> Option<u64> {
    let kp = (user_phys - runtime_phys) / 4096;
    let up = (free_phys - user_phys) / 4096;
    let mp = (epm_size / 4096) as int;
    let tp = (utm_size / 4096) as int;
    let (ks, us, ms, ts) = (
        page_slot(KERNEL_BASE),
        page_slot(USER_BASE),
        page_slot(KERNEL_MIRROR_BASE),
        page_slot(KERNEL_UTM_BASE),
    );
    if covers(ts, tp, f) {
        Some(region_entry(utm_phys, slot_offset(f, ts), false))
    } else if covers(ms, mp, f) {
        Some(region_entry(epm_base, slot_offset(f, ms), false))
    } else if covers(us, up, f) {
        Some(region_entry(user_phys, slot_offset(f, us), true))
    } else if covers(ks, kp, f) {
        Some(region_entry(runtime_phys, slot_offset(f, ks), false))
    } else {
        None
    }
}

/// The 4 KiB mappings of the boot layout built by `vm_init`, over the
/// tables `pages` rooted at `root`.
pub open spec fn boot_layout(
    pages: Map<u64, Seq<u64>>,
    root: u64,
    epm_base: u64,
    epm_size: u64,
    runtime_phys: u64,
    user_phys: u64,
    free_phys: u64,
    utm_phys: u64,
    utm_size: u64,
) -> bool {
    &&& forall|a: int| #[trigger] is_idx(a) ==> mapping_1g(pages, root, a) is None
    &&& forall|a: int, b: int| is_idx(a) && is_idx(b) ==> #[trigger] mapping_2m(pages, root, a, b) is None
    &&& forall|a: int, b: int, c: int|
        is_idx(a) && is_idx(b) && is_idx(c) ==> #[trigger] mapping_4k(pages, root, a, b, c)
            == boot_entry(
            flat_index(a, b, c),
            epm_base,
            epm_size,
            runtime_phys,
            user_phys,
            free_phys,
            utm_phys,
            utm_size,
        )
}

proof fn lemma_shr12(x: u64)
    ensures
        x >> 12u64 == x / 4096,
{
    assert(x >> 12u64 == x / 4096) by (bit_vector);
}

/// A fresh table tree has no huge page anywhere.
proof fn lemma_no_huge_pages(pages: Map<u64, Seq<u64>>, root: u64, start: int, count: int)
    requires
        forall|i: int| #[trigger] is_idx(i) ==> mapping_1g(pages, root, i) is None,
        forall|i: int, j: int| is_idx(i) && is_idx(j) ==> #[trigger] mapping_2m(pages, root, i, j) is None,
    ensures
        no_huge_page_over(pages, root, start, count),
{
    assert forall|a: int, b: int, c: int|
        #![trigger slot_offset(flat_index(a, b, c), start)]
        is_idx(a) && is_idx(b) && is_idx(c) && slot_offset(flat_index(a, b, c), start) < count
        implies mapping_1g(pages, root, a) is None && mapping_2m(pages, root, a, b) is None by {
        assert(mapping_1g(pages, root, a) is None);
        assert(mapping_2m(pages, root, a, b) is None);
    }
}

/// Composes the four region mappings of the boot layout.
proof fn lemma_boot_layout(
    p0: Map<u64, Seq<u64>>,
    p1: Map<u64, Seq<u64>>,
    p2: Map<u64, Seq<u64>>,
    p3: Map<u64, Seq<u64>>,
    p4: Map<u64, Seq<u64>>,
    rt: u64,
    epm_base: u64,
    epm_size: u64,
    runtime_phys: u64,
    user_phys: u64,
    free_phys: u64,
    utm_phys: u64,
    utm_size: u64,
)
    requires
        runtime_phys <= user_phys <= free_phys,
        forall|i: int| #[trigger] is_idx(i) ==> mapping_1g(p0, rt, i) is None,
        forall|i: int, j: int| is_idx(i) ==> #[trigger] mapping_2m(p0, rt, i, j) is None,
        forall|i: int, j: int, k: int| is_idx(i) ==> #[trigger] mapping_4k(p0, rt, i, j, k) is None,
        region_step(p0, p1, rt, KERNEL_BASE, runtime_phys, (user_phys - runtime_phys) / 4096, false),
        region_step(p1, p2, rt, USER_BASE, user_phys, (free_phys - user_phys) / 4096, true),
        region_step(p2, p3, rt, KERNEL_MIRROR_BASE, epm_base, (epm_size / 4096) as int, false),
        region_step(p3, p4, rt, KERNEL_UTM_BASE, utm_phys, (utm_size / 4096) as int, false),
    ensures
        boot_layout(p4, rt, epm_base, epm_size, runtime_phys, user_phys, free_phys, utm_phys, utm_size),
{
    assert forall|a: int, b: int, c: int|
        is_idx(a) && is_idx(b) && is_idx(c) implies #[trigger] mapping_4k(p4, rt, a, b, c)
        == boot_entry(
        flat_index(a, b, c),
        epm_base,
        epm_size,
        runtime_phys,
        user_phys,
        free_phys,
        utm_phys,
        utm_size,
    ) by {
        assert(mapping_4k(p0, rt, a, b, c) is None);
        assert(mapping_4k(p1, rt, a, b, c) == mapping_4k(p1, rt, a, b, c));
        assert(mapping_4k(p2, rt, a, b, c) == mapping_4k(p2, rt, a, b, c));
        assert(mapping_4k(p3, rt, a, b, c) == mapping_4k(p3, rt, a, b, c));
    }
    assert forall|a: int, b: int| is_idx(a) && is_idx(b) implies #[trigger] mapping_2m(
        p4,
        rt,
        a,
        b,
    ) is None by {
        assert(mapping_2m(p0, rt, a, b) is None);
        assert(mapping_2m(p1, rt, a, b) == mapping_2m(p0, rt, a, b));
        assert(mapping_2m(p2, rt, a, b) == mapping_2m(p1, rt, a, b));
        assert(mapping_2m(p3, rt, a, b) == mapping_2m(p2, rt, a, b));
    }
    assert forall|a: int| #[trigger] is_idx(a) implies mapping_1g(p4, rt, a) is None by {
        assert(mapping_1g(p0, rt, a) is None);
        assert(mapping_1g(p1, rt, a) == mapping_1g(p0, rt, a));
        assert(mapping_1g(p2, rt, a) == mapping_1g(p1, rt, a));
        assert(mapping_1g(p3, rt, a) == mapping_1g(p2, rt, a));
    }
}

#[verifier::rlimit(40)]
/// Builds the runtime's page table from `mem_mgr`: the kernel image at
/// `KERNEL_BASE`, the user program at `USER_BASE`, the whole enclave memory
/// at `KERNEL_MIRROR_BASE` and the untrusted memory at `KERNEL_UTM_BASE`.
/// Returns the table and the free memory that is left, as seen through the
/// mirror mapping.
pub fn vm_init<M: PageManager>(
    mem_mgr: M,
    epm_base: u64,
    epm_size: u64,
    runtime_phys: u64,
    user_phys: u64,
    free_phys: u64,
    utm_phys: u64,
    utm_size: u64,
) -> (r: Result<(RootPageTable<M>, FreeMem), MapError>)
    requires
        runtime_phys <= user_phys <= free_phys,
        epm_base <= free_phys <= epm_base + epm_size <= u64::MAX,
        free_phys - epm_base + KERNEL_MIRROR_BASE <= u64::MAX,
        utm_phys + utm_size <= u64::MAX,
        user_phys - runtime_phys >= 4096 ==> runtime_phys % 4096 == 0,
        free_phys - user_phys >= 4096 ==> user_phys % 4096 == 0,
        epm_size >= 4096 ==> epm_base % 4096 == 0,
        utm_size >= 4096 ==> utm_phys % 4096 == 0,
        KERNEL_BASE + (user_phys - runtime_phys) / 4096 * 4096 <= 0x1_0000_0000_0000_0000,
        USER_BASE + (free_phys - user_phys) / 4096 * 4096 <= 0x1_0000_0000_0000_0000,
        KERNEL_MIRROR_BASE + epm_size / 4096 * 4096 <= 0x1_0000_0000_0000_0000,
        KERNEL_UTM_BASE + utm_size / 4096 * 4096 <= 0x1_0000_0000_0000_0000,
        (free_phys - user_phys) / 4096 <= SV39_PAGES,
    ensures
        match r {
            Ok((rpt, free)) => {
                &&& rpt.wf()
                &&& tree_outside(rpt.pages(), rpt.root(), mem_mgr.pages())
                &&& forall|a: u64| mem_mgr.pages().contains_key(a) ==> #[trigger] rpt.pages().contains_key(a)
                &&& free == FreeMem(
                    (free_phys - epm_base + KERNEL_MIRROR_BASE) as u64,
                    (epm_base + epm_size - free_phys) as u64,
                )
                &&& boot_layout(
                    rpt.pages(),
                    rpt.root(),
                    epm_base,
                    epm_size,
                    runtime_phys,
                    user_phys,
                    free_phys,
                    utm_phys,
                    utm_size,
                )
            },
            Err(e) => e == MapError::OutOfTablePages,
        },
        mem_mgr.free_pages() >= 1 + region_tables(page_slot(KERNEL_BASE), (user_phys - runtime_phys) / 4096)
            + region_tables(page_slot(USER_BASE), (free_phys - user_phys) / 4096) + region_tables(
            page_slot(KERNEL_MIRROR_BASE),
            (epm_size / 4096) as int,
        ) + region_tables(page_slot(KERNEL_UTM_BASE), (utm_size / 4096) as int) ==> r is Ok,
{
    proof {
        lemma_region_tables_nonneg(page_slot(KERNEL_BASE), (user_phys - runtime_phys) / 4096);
        lemma_region_tables_nonneg(page_slot(USER_BASE), (free_phys - user_phys) / 4096);
        lemma_region_tables_nonneg(page_slot(KERNEL_MIRROR_BASE), (epm_size / 4096) as int);
        lemma_region_tables_nonneg(page_slot(KERNEL_UTM_BASE), (utm_size / 4096) as int);
    }
    if mem_mgr.free_page_count() == 0 {
        return Err(MapError::OutOfTablePages);
    }
    let mut rpt = RootPageTable::allocate_from(mem_mgr);
    let ghost rt = rpt.root();
    let ghost p0 = rpt.pages();
    let ghost free0 = rpt.free_pages();
    proof {
        lemma_shr12((user_phys - runtime_phys) as u64);
        lemma_shr12((free_phys - user_phys) as u64);
        lemma_shr12(epm_size);
        lemma_shr12(utm_size);
    }
    let kernel_pages = (user_phys - runtime_phys) >> 12;
    let user_pages = (free_phys - user_phys) >> 12;
    let mirror_pages = epm_size >> 12;
    let utm_pages = utm_size >> 12;
    let ghost (ks, us, ms, ts) = (
        page_slot(KERNEL_BASE),
        page_slot(USER_BASE),
        page_slot(KERNEL_MIRROR_BASE),
        page_slot(KERNEL_UTM_BASE),
    );

    // map kernel code and data
    proof {
        lemma_no_huge_pages(rpt.pages(), rt, ks, kernel_pages as int);
    }
    let res = map_region(&mut rpt, VirtAddr(KERNEL_BASE), PhysAddr(runtime_phys), kernel_pages, false);
    if res.is_err() {
        return Err(res.unwrap_err());
    }
    let ghost p1 = rpt.pages();
    // map user code & stack
    proof {
        lemma_no_huge_pages(rpt.pages(), rt, us, user_pages as int);
    }
    let res = map_region(&mut rpt, VirtAddr(USER_BASE), PhysAddr(user_phys), user_pages, true);
    if res.is_err() {
        return Err(res.unwrap_err());
    }
    let ghost p2 = rpt.pages();
    // map the mirror of the enclave memory
    proof {
        lemma_no_huge_pages(rpt.pages(), rt, ms, mirror_pages as int);
    }
    let res = map_region(&mut rpt, VirtAddr(KERNEL_MIRROR_BASE), PhysAddr(epm_base), mirror_pages, false);
    if res.is_err() {
        return Err(res.unwrap_err());
    }
    let ghost p3 = rpt.pages();
    // map untrusted memory
    proof {
        lemma_no_huge_pages(rpt.pages(), rt, ts, utm_pages as int);
    }
    let res = map_region(&mut rpt, VirtAddr(KERNEL_UTM_BASE), PhysAddr(utm_phys), utm_pages, false);
    if res.is_err() {
        return Err(res.unwrap_err());
    }
    proof {
        lemma_tables_from_trans(p0, p1, p2, rt);
        lemma_tables_from_trans(p0, p2, p3, rt);
        lemma_tables_from_trans(p0, p3, rpt.pages(), rt);
        lemma_grown_tree_outside(mem_mgr.pages(), p0, rpt.pages(), rt);
        lemma_boot_layout(
            p0, p1, p2, p3, rpt.pages(), rt,
            epm_base, epm_size, runtime_phys, user_phys, free_phys, utm_phys, utm_size,
        );
    }
    let free = FreeMem(
        free_phys - epm_base + KERNEL_MIRROR_BASE,  // virtual base address of free memory
        epm_base + epm_size - free_phys,  // size of free memory
    );
    Ok((rpt, free))
}

/// An address `x` bytes into a region at `base` whose slot holds page
/// `x / 4096` of the region at `phys` translates to `phys + x`.
proof fn lemma_boot_region_translation(
    pages: Map<u64, Seq<u64>>,
    root: u64,
    epm_base: u64,
    epm_size: u64,
    runtime_phys: u64,
    user_phys: u64,
    free_phys: u64,
    utm_phys: u64,
    utm_size: u64,
    base: u64,
    phys: u64,
    user: bool,
    x: int,
)
    requires
        boot_layout(pages, root, epm_base, epm_size, runtime_phys, user_phys, free_phys, utm_phys, utm_size),
        base % 4096 == 0,
        phys % 4096 == 0,
        0 <= x,
        base + x < 0x1_0000_0000_0000_0000,
        phys + x < 0x100_0000_0000_0000,
        sv39_canonical((base + x) as u64),
        page_slot(base) + x / 4096 < 0x800_0000,
        boot_entry(page_slot(base) + x / 4096, epm_base, epm_size, runtime_phys, user_phys, free_phys, utm_phys, utm_size)
            == Some(region_entry(phys, x / 4096, user)),
    ensures
        translate(pages, root, (base + x) as u64) == Some(phys + x),
        ({
            let va = (base + x) as u64;
            mapping_4k(pages, root, vpn2_of(va), vpn1_of(va), vpn0_of(va)) == Some(region_entry(phys, x / 4096, user))
        }),
{
    let va = (base + x) as u64;
    let n = x / 4096;
    lemma_slot_of_offset(base, x);
    assert(page_slot(va) == page_slot(base) + n) by {
        assert(0 <= page_slot(va) < 0x800_0000);
    }
    let (i, j, k) = (vpn2_of(va), vpn1_of(va), vpn0_of(va));
    assert(is_idx(i) && is_idx(j) && is_idx(k));
    assert(mapping_1g(pages, root, i) is None);
    assert(mapping_2m(pages, root, i, j) is None);
    assert(mapping_4k(pages, root, i, j, k) == Some(region_entry(phys, n, user)));
    lemma_region_translation(pages, root, base, phys, user, x);
}

/// The slots at which the four regions of the boot layout start.
proof fn lemma_layout_slots()
    ensures
        page_slot(KERNEL_BASE) == 511 * 0x40000,
        page_slot(KERNEL_UTM_BASE) == 510 * 0x40000,
        page_slot(KERNEL_MIRROR_BASE) == 508 * 0x40000,
        page_slot(USER_BASE) == 1024,
{
}

/// Slot `n` pages into the kernel image is covered by no later region of
/// the boot layout, so it holds page `n` of the image.
proof fn lemma_boot_entry_in_kernel(
    n: int,
    epm_base: u64,
    epm_size: u64,
    runtime_phys: u64,
    user_phys: u64,
    free_phys: u64,
    utm_phys: u64,
    utm_size: u64,
)
    requires
        runtime_phys <= user_phys <= free_phys,
        0 <= n < (user_phys - runtime_phys) / 4096,
        n < 0x40000,
        (free_phys - user_phys) / 4096 <= 0x40000 - 1024,
        epm_size / 4096 <= 0x40000,
        utm_size / 4096 <= 0x40000,
    ensures
        page_slot(KERNEL_BASE) == 511 * 0x40000,
        boot_entry(511 * 0x40000 + n, epm_base, epm_size, runtime_phys, user_phys, free_phys, utm_phys, utm_size)
            == Some(region_entry(runtime_phys, n, false)),
{
    let f = 511 * 0x40000 + n;
    lemma_layout_slots();
    assert(slot_offset(f, 510 * 0x40000int) == 0x40000 + n);
    assert(slot_offset(f, 508 * 0x40000int) == 3 * 0x40000 + n);
    assert(slot_offset(f, 1024) == f - 1024);
    assert(slot_offset(f, 511 * 0x40000int) == n);
}

/// Slot `n` pages into the user program is covered by neither the mirror
/// nor the untrusted memory, so it holds page `n` of the program.
proof fn lemma_boot_entry_in_user(
    n: int,
    epm_base: u64,
    epm_size: u64,
    runtime_phys: u64,
    user_phys: u64,
    free_phys: u64,
    utm_phys: u64,
    utm_size: u64,
)
    requires
        user_phys <= free_phys,
        0 <= n < (free_phys - user_phys) / 4096,
        n < 0x400_0000,
        epm_size / 4096 <= 0x10_0000,
        utm_size / 4096 <= 0x8_0000,
    ensures
        page_slot(USER_BASE) == 1024,
        boot_entry(1024 + n, epm_base, epm_size, runtime_phys, user_phys, free_phys, utm_phys, utm_size)
            == Some(region_entry(user_phys, n, true)),
{
    let f = 1024 + n;
    lemma_layout_slots();
    assert(slot_offset(f, 510 * 0x40000int) == 2 * 0x40000 + f);
    assert(slot_offset(f, 508 * 0x40000int) == 4 * 0x40000 + f);
    assert(slot_offset(f, 1024) == n);
}

/// Slot `n` pages into the mirror of the enclave memory is not covered by
/// the untrusted memory, so it holds page `n` of the enclave memory.
proof fn lemma_boot_entry_in_mirror(
    n: int,
    epm_base: u64,
    epm_size: u64,
    runtime_phys: u64,
    user_phys: u64,
    free_phys: u64,
    utm_phys: u64,
    utm_size: u64,
)
    requires
        0 <= n < epm_size / 4096,
        n < 0x8_0000,
        utm_size / 4096 <= 0x8_0000,
    ensures
        page_slot(KERNEL_MIRROR_BASE) == 508 * 0x40000,
        boot_entry(508 * 0x40000 + n, epm_base, epm_size, runtime_phys, user_phys, free_phys, utm_phys, utm_size)
            == Some(region_entry(epm_base, n, false)),
{
    let f = 508 * 0x40000 + n;
    lemma_layout_slots();
    assert(slot_offset(f, 510 * 0x40000int) == 0x800_0000 - 2 * 0x40000 + n);
    assert(slot_offset(f, 508 * 0x40000int) == n);
}

/// Once the boot layout is built, the runtime image at `KERNEL_BASE` runs
/// from where it was loaded: each of its addresses translates to the same
/// offset from `runtime_phys`, as long as the user program, the mirror and
/// the untrusted memory each stay within their 1 GiB slot.
#[verifier::spinoff_prover]
pub proof fn lemma_boot_kernel_translation(
    pages: Map<u64, Seq<u64>>,
    root: u64,
    epm_base: u64,
    epm_size: u64,
    runtime_phys: u64,
    user_phys: u64,
    free_phys: u64,
    utm_phys: u64,
    utm_size: u64,
    x: int,
)
    requires
        boot_layout(pages, root, epm_base, epm_size, runtime_phys, user_phys, free_phys, utm_phys, utm_size),
        runtime_phys <= user_phys <= free_phys,
        runtime_phys % 4096 == 0,
        0 <= x < (user_phys - runtime_phys) / 4096 * 4096,
        KERNEL_BASE + (user_phys - runtime_phys) / 4096 * 4096 <= 0x1_0000_0000_0000_0000,
        runtime_phys + x < 0x100_0000_0000_0000,
        (free_phys - user_phys) / 4096 <= 0x40000 - 1024,
        epm_size / 4096 <= 0x40000,
        utm_size / 4096 <= 0x40000,
    ensures
        translate(pages, root, (KERNEL_BASE + x) as u64) == Some(runtime_phys + x),
        spec_is_user(mapping_4k(pages, root, vpn2_of((KERNEL_BASE + x) as u64), vpn1_of((KERNEL_BASE + x) as u64), vpn0_of((KERNEL_BASE + x) as u64))->0) == false,
{
    assert(x / 4096 < (user_phys - runtime_phys) / 4096);
    assert(x < 0x4000_0000);
    lemma_boot_entry_in_kernel(x / 4096, epm_base, epm_size, runtime_phys, user_phys, free_phys, utm_phys, utm_size);
    lemma_boot_region_translation(
        pages, root, epm_base, epm_size, runtime_phys, user_phys, free_phys, utm_phys, utm_size,
        KERNEL_BASE, runtime_phys, false, x,
    );
    lemma_region_entry_user(runtime_phys, x / 4096, false);
}

/// Once the boot layout is built, the user program at `USER_BASE` is seen
/// where it was loaded: each of its addresses translates to the same offset
/// from `user_phys`. The mirror and the untrusted memory, as large as
/// `vm_init` allows them, never cover it.
#[verifier::spinoff_prover]
pub proof fn lemma_boot_user_translation(
    pages: Map<u64, Seq<u64>>,
    root: u64,
    epm_base: u64,
    epm_size: u64,
    runtime_phys: u64,
    user_phys: u64,
    free_phys: u64,
    utm_phys: u64,
    utm_size: u64,
    x: int,
)
    requires
        boot_layout(pages, root, epm_base, epm_size, runtime_phys, user_phys, free_phys, utm_phys, utm_size),
        user_phys <= free_phys,
        user_phys % 4096 == 0,
        0 <= x < (free_phys - user_phys) / 4096 * 4096,
        USER_BASE + x < 0x40_0000_0000,
        user_phys + x < 0x100_0000_0000_0000,
        KERNEL_MIRROR_BASE + epm_size / 4096 * 4096 <= 0x1_0000_0000_0000_0000,
        KERNEL_UTM_BASE + utm_size / 4096 * 4096 <= 0x1_0000_0000_0000_0000,
    ensures
        translate(pages, root, (USER_BASE + x) as u64) == Some(user_phys + x),
        spec_is_user(mapping_4k(pages, root, vpn2_of((USER_BASE + x) as u64), vpn1_of((USER_BASE + x) as u64), vpn0_of((USER_BASE + x) as u64))->0) == true,
{
    assert(x / 4096 < (free_phys - user_phys) / 4096);
    assert(x / 4096 < 0x400_0000);
    lemma_boot_entry_in_user(x / 4096, epm_base, epm_size, runtime_phys, user_phys, free_phys, utm_phys, utm_size);
    lemma_boot_region_translation(
        pages, root, epm_base, epm_size, runtime_phys, user_phys, free_phys, utm_phys, utm_size,
        USER_BASE, user_phys, true, x,
    );
    lemma_region_entry_user(user_phys, x / 4096, true);
}

/// Once the boot layout is built, the mirror mapping shows the enclave
/// memory: an address `phys` of its first 2 GiB, taken to the mirror by
/// [`HeapPageManager::phys2virt`], translates back to `phys`. The untrusted
/// memory, as large as `vm_init` allows it, never covers that part.
#[verifier::spinoff_prover]
pub proof fn lemma_boot_mirror_translation(
    pages: Map<u64, Seq<u64>>,
    root: u64,
    epm_base: u64,
    epm_size: u64,
    runtime_phys: u64,
    user_phys: u64,
    free_phys: u64,
    utm_phys: u64,
    utm_size: u64,
    phys: u64,
)
    requires
        boot_layout(pages, root, epm_base, epm_size, runtime_phys, user_phys, free_phys, utm_phys, utm_size),
        epm_base % 4096 == 0,
        epm_base <= phys < epm_base + epm_size / 4096 * 4096,
        phys - epm_base < 0x8000_0000,
        phys < 0x100_0000_0000_0000,
        KERNEL_UTM_BASE + utm_size / 4096 * 4096 <= 0x1_0000_0000_0000_0000,
    ensures
        translate(pages, root, (phys - epm_base + KERNEL_MIRROR_BASE) as u64) == Some(phys as int),
        spec_is_user(mapping_4k(pages, root, vpn2_of((phys - epm_base + KERNEL_MIRROR_BASE) as u64), vpn1_of((phys - epm_base + KERNEL_MIRROR_BASE) as u64), vpn0_of((phys - epm_base + KERNEL_MIRROR_BASE) as u64))->0) == false,
{
    let x = phys - epm_base;
    assert(x / 4096 < epm_size / 4096);
    lemma_boot_entry_in_mirror(x / 4096, epm_base, epm_size, runtime_phys, user_phys, free_phys, utm_phys, utm_size);
    assert((KERNEL_MIRROR_BASE + x) as u64 == (phys - epm_base + KERNEL_MIRROR_BASE) as u64);
    lemma_boot_region_translation(
        pages, root, epm_base, epm_size, runtime_phys, user_phys, free_phys, utm_phys, utm_size,
        KERNEL_MIRROR_BASE, epm_base, false, x,
    );
    lemma_region_entry_user(epm_base, x / 4096, false);
}

/// Translates between physical addresses of the enclave memory and the
/// runtime's mirror mapping of it.
#[derive(Clone, Copy, PartialEq, Eq, Debug, Structural)]
pub struct HeapPageManager {
    epm_base: u64,
}

impl HeapPageManager {
    pub closed spec fn base(&self) -> u64 {
        self.epm_base
    }

    /// A translator for enclave memory starting at physical address `epm_base`.
    pub fn new(epm_base: u64) -> (r: HeapPageManager)
        ensures
            r.base() == epm_base,
    {
        HeapPageManager { epm_base }
    }

    /// Where the mirror mapping shows physical address `phys`.
    pub fn phys2virt(&self, phys: PhysAddr) -> (v: VirtAddr)
        requires
            self.base() <= phys.0,
            phys.0 - self.base() + KERNEL_MIRROR_BASE <= u64::MAX,
        ensures
            v.0 == phys.0 - self.base() + KERNEL_MIRROR_BASE,
    {
        VirtAddr(phys.0 - self.epm_base + KERNEL_MIRROR_BASE)
    }

    /// The physical address behind `virt` in the mirror mapping.
    pub fn virt2phys(&self, virt: VirtAddr) -> (p: PhysAddr)
        requires
            KERNEL_MIRROR_BASE <= virt.0,
            virt.0 - KERNEL_MIRROR_BASE + self.base() <= u64::MAX,
        ensures
            p.0 == virt.0 - KERNEL_MIRROR_BASE + self.base(),
    {
        PhysAddr(virt.0 - KERNEL_MIRROR_BASE + self.epm_base)
    }
}

/// Going into the mirror mapping and back gives the same physical address,
/// and the other way round.
pub proof fn lemma_mirror_round_trip(base: u64, phys: u64, virt: u64)
    ensures
        base <= phys && phys - base + KERNEL_MIRROR_BASE <= u64::MAX ==> (phys - base
            + KERNEL_MIRROR_BASE) - KERNEL_MIRROR_BASE + base == phys,
        KERNEL_MIRROR_BASE <= virt && virt - KERNEL_MIRROR_BASE + base <= u64::MAX ==> (virt
            - KERNEL_MIRROR_BASE + base) - base + KERNEL_MIRROR_BASE == virt,
{
}

proof fn lemma_page_floor(a: u64)
    ensures
        a & !0xFFFu64 == a - a % 4096,
        (a & !0xFFFu64) % 4096 == 0,
{
    assert(a & !0xFFFu64 == a - a % 4096) by (bit_vector);
    assert((a & !0xFFFu64) % 4096 == 0) by (bit_vector);
}

/// Maps a fresh page, given by its address `new_page` in the mirror
/// mapping, user-accessible and read-write-execute, at the page containing
/// the faulting address `addr`.
pub fn handle_page_fault_at<M: PageManager>(
    rpt: &mut RootPageTable<M>,
    mem_mgr: &HeapPageManager,
    addr: u64,
    new_page: VirtAddr,
) -> (r: Result<(), MapError>)
    requires
        old(rpt).wf(),
        KERNEL_MIRROR_BASE <= new_page.0,
        new_page.0 - KERNEL_MIRROR_BASE + mem_mgr.base() <= u64::MAX,
        (new_page.0 - KERNEL_MIRROR_BASE + mem_mgr.base()) % 4096 == 0,
    ensures
        final(rpt).wf(),
        final(rpt).root() == old(rpt).root(),
        ({
            let (p0, p1, rt, i, j, k) = (
                old(rpt).pages(),
                final(rpt).pages(),
                old(rpt).root(),
                vpn2_of(addr),
                vpn1_of(addr),
                vpn0_of(addr),
            );
            match r {
                Ok(()) => maps_4k(
                    p0,
                    p1,
                    rt,
                    i,
                    j,
                    k,
                    region_entry((new_page.0 - KERNEL_MIRROR_BASE + mem_mgr.base()) as u64, 0, true),
                ) && leaf_of(
                    region_entry((new_page.0 - KERNEL_MIRROR_BASE + mem_mgr.base()) as u64, 0, true),
                ) is Some,
                Err(MapError::HugePageInTheWay) => !can_descend_2m(p0, rt, i, j) && p1 == p0,
                Err(MapError::OutOfTablePages) => {
                    &&& can_descend_2m(p0, rt, i, j)
                    &&& old(rpt).free_pages() < pages_needed_2m(p0, rt, i, j)
                    &&& p1 == p0
                },
            }
        }),
{
    proof {
        lemma_page_floor(addr);
        assert(((addr & !0xFFFu64) / 0x4000_0000) % 512 == (addr / 0x4000_0000) % 512) by (bit_vector);
        assert(((addr & !0xFFFu64) / 0x20_0000) % 512 == (addr / 0x20_0000) % 512) by (bit_vector);
        assert(((addr & !0xFFFu64) / 0x1000) % 512 == (addr / 0x1000) % 512) by (bit_vector);
    }
    let phys = mem_mgr.virt2phys(new_page);
    let pte = PageTableEntry::for_phys(phys).make_user().make_rwx();
    proof {
        assert(pte.0 == region_entry(phys.0, 0, true));
        assert(leaf_of(pte.0) == Some(pte.0));
    }
    rpt.try_map_4k(VirtAddr(addr & !0xFFF), pte)
}

/// Maps the pages of a loaded program segment, which the runtime holds at
/// `from` in its mirror mapping, at user address `to`, user-accessible and
/// read-write-execute: `size` bytes, rounded up to whole pages.
pub fn map_user_segment<M: PageManager>(
    rpt: &mut RootPageTable<M>,
    mem_mgr: &HeapPageManager,
    from: u64,
    size: u64,
    to: u64,
) -> (r: Result<(), MapError>)
    requires
        old(rpt).wf(),
        size <= u64::MAX - 0xFFF,
        KERNEL_MIRROR_BASE <= from,
        from - KERNEL_MIRROR_BASE + mem_mgr.base() + (size + 0xFFF) / 4096 * 4096 <= 0x1_0000_0000_0000_0000,
        to + (size + 0xFFF) / 4096 * 4096 <= 0x1_0000_0000_0000_0000,
        size > 0 ==> to % 4096 == 0 && (from - KERNEL_MIRROR_BASE + mem_mgr.base()) % 4096 == 0,
        (size + 0xFFF) / 4096 <= SV39_PAGES,
    ensures
        final(rpt).wf(),
        final(rpt).root() == old(rpt).root(),
        r is Ok ==> region_step(
            old(rpt).pages(),
            final(rpt).pages(),
            old(rpt).root(),
            to,
            (from - KERNEL_MIRROR_BASE + mem_mgr.base()) as u64,
            ((size + 0xFFF) / 4096) as int,
            true,
        ),
        old(rpt).free_pages() >= region_tables(page_slot(to), (size + 0xFFF) / 4096) && no_huge_page_over(
            old(rpt).pages(),
            old(rpt).root(),
            page_slot(to),
            ((size + 0xFFF) / 4096) as int,
        ) ==> r is Ok,
{
    proof {
        lemma_shr12((size + 0xFFF) as u64);
    }
    let pages = (size + 0xFFF) >> 12;
    if pages == 0 {
        proof {
            let p0 = rpt.pages();
            assert(region_step(p0, p0, rpt.root(), to, (from - KERNEL_MIRROR_BASE + mem_mgr.base()) as u64, 0, true));
        }
        return Ok(());
    }
    let phys = mem_mgr.virt2phys(VirtAddr(from));
    map_region(rpt, VirtAddr(to), phys, pages, true)
}

} // verus!
