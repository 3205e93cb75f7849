//! Mapping contiguous regions of 4 KiB pages, and the page-table layout the
//! enclave runtime builds at boot.
use vstd::prelude::*;
use crate::addr::{PhysAddr, VirtAddr, vpn2_of, vpn1_of, vpn0_of};
use crate::pagetable::{
    PageManager, RootPageTable, MapError, is_idx, mapping_1g, mapping_2m, mapping_4k,
    can_descend_2m, pages_needed_2m, spec_is_leaf_entry, translate, sv39_canonical, l1_table, l0_table,
    tables_from, lemma_tables_from_refl, lemma_tables_from_trans,
};
use crate::pte::{PageTableEntry, spec_for_ppn, spec_is_valid, spec_is_leaf, spec_is_user, spec_target, PTE_RWX, PTE_USER};

verus! {

/// Number of 4 KiB pages an Sv39 table tree can map.
pub const SV39_PAGES: u64 = 0x800_0000;

/// Position of a 4 KiB page in the table tree, counted in pages.
pub open spec fn flat_index(i: int, j: int, k: int) -> int {
    i * 0x40000 + j * 512 + k
}

/// Position in the table tree of the page containing `va`.
pub open spec fn page_slot(va: u64) -> int {
    ((va / 0x1000) % 0x800_0000) as int
}

/// How many pages after slot `start` slot `f` comes, going around the tree.
pub open spec fn slot_offset(f: int, start: int) -> int {
    (f - start) % 0x800_0000
}

/// The leaf entry for the `n`-th page of a region at `phys_base`.
pub open spec fn region_entry(phys_base: u64, n: int, user: bool) -> u64 {
    let base = spec_for_ppn(((phys_base + n * 4096) / 4096) as u64);
    if user {
        (base | PTE_USER) | PTE_RWX
    } else {
        base | PTE_RWX
    }
}

/// The entry for the `n`-th page of a region is a valid leaf for the
/// frame `n` pages after `phys_base`.
pub proof fn lemma_region_entry_target(phys_base: u64, n: int, user: bool)
    requires
        phys_base % 4096 == 0,
        0 <= n,
        phys_base + n * 4096 < 0x100_0000_0000_0000,
    ensures
        spec_is_valid(region_entry(phys_base, n, user)),
        spec_is_leaf(region_entry(phys_base, n, user)),
        spec_target(region_entry(phys_base, n, user)) == phys_base + n * 4096,
{
    let p = ((phys_base + n * 4096) / 4096) as u64;
    assert(p < 0x1000_0000_0000);
    assert((phys_base + n * 4096) / 4096 * 4096 == phys_base + n * 4096);
    let b = (p << 10u64) | 1u64;
    assert(((b | 16u64) | 14u64) & 1u64 != 0 && ((b | 16u64) | 14u64) & 14u64 != 0) by (bit_vector)
        requires
            b == (p << 10u64) | 1u64,
    ;
    assert((b | 14u64) & 1u64 != 0 && (b | 14u64) & 14u64 != 0) by (bit_vector)
        requires
            b == (p << 10u64) | 1u64,
    ;
    assert((((b | 16u64) | 14u64) >> 10u64) & 0xFFF_FFFF_FFFFu64 == p) by (bit_vector)
        requires
            b == (p << 10u64) | 1u64,
            p < 0x1000_0000_0000u64,
    ;
    assert(((b | 14u64) >> 10u64) & 0xFFF_FFFF_FFFFu64 == p) by (bit_vector)
        requires
            b == (p << 10u64) | 1u64,
            p < 0x1000_0000_0000u64,
    ;
}

/// The entry for every page of a region is user-accessible exactly when the
/// region is mapped for user mode.
pub proof fn lemma_region_entry_user(phys_base: u64, n: int, user: bool)
    ensures
        spec_is_user(region_entry(phys_base, n, user)) == user,
{
    let p = ((phys_base + n * 4096) / 4096) as u64;
    let b = (p << 10u64) | 1u64;
    assert(((b | 16u64) | 14u64) & 16u64 != 0) by (bit_vector);
    assert((b | 14u64) & 16u64 == 0) by (bit_vector)
        requires
            b == (p << 10u64) | 1u64,
    ;
}

/// `p1` is `p0` with `pages` pages from `virt_base` mapped to `phys_base`
/// and nothing else changed.
pub open spec fn region_step(
    p0: Map<u64, Seq<u64>>,
    p1: Map<u64, Seq<u64>>,
    rt: u64,
    virt_base: u64,
    phys_base: u64,
    pages: int,
    user: bool,
) -> bool {
    let start = page_slot(virt_base);
    &&& forall|a: int, b: int|
        is_idx(a) && is_idx(b) ==> #[trigger] mapping_2m(p1, rt, a, b) == mapping_2m(p0, rt, a, b)
    &&& forall|a: int| #[trigger] is_idx(a) ==> mapping_1g(p1, rt, a) == mapping_1g(p0, rt, a)
    &&& forall|a: int, b: int, c: int|
        is_idx(a) && is_idx(b) && is_idx(c) ==> #[trigger] mapping_4k(p1, rt, a, b, c) == (
        if slot_offset(flat_index(a, b, c), start) < pages {
            Some(region_entry(phys_base, slot_offset(flat_index(a, b, c), start), user))
        } else {
            mapping_4k(p0, rt, a, b, c)
        })
}

/// The page holding `base + x` sits `x / 4096` slots after `base`, at the
/// same offset in its page as `x`.
pub proof fn lemma_slot_of_offset(base: u64, x: int)
    requires
        base % 4096 == 0,
        0 <= x,
        x / 4096 < 0x800_0000,
        base + x < 0x1_0000_0000_0000_0000,
    ensures
        slot_offset(page_slot((base + x) as u64), page_slot(base)) == x / 4096,
        ((base + x) as u64) % 4096 == x % 4096,
        page_slot((base + x) as u64) == flat_index(
            vpn2_of((base + x) as u64),
            vpn1_of((base + x) as u64),
            vpn0_of((base + x) as u64),
        ),
{
    let n = x / 4096;
    let v = (base + n * 4096) as u64;
    let va = (base + x) as u64;
    lemma_slot_step(base, n);
    assert(va / 4096 == v / 4096);
    assert(page_slot(va) == page_slot(v));
    lemma_slot_of_indices(va);
}

/// Where the 4 KiB slot of `virt_base + x` holds the entry of page
/// `x / 4096` of a region at `phys_base`, and no huge page covers it, the
/// address translates to `phys_base + x`.
pub proof fn lemma_region_translation(
    pages: Map<u64, Seq<u64>>,
    root: u64,
    virt_base: u64,
    phys_base: u64,
    user: bool,
    x: int,
)
    requires
        virt_base % 4096 == 0,
        phys_base % 4096 == 0,
        0 <= x,
        virt_base + x < 0x1_0000_0000_0000_0000,
        phys_base + x < 0x100_0000_0000_0000,
        sv39_canonical((virt_base + x) as u64),
        ({
            let va = (virt_base + x) as u64;
            &&& mapping_1g(pages, root, vpn2_of(va)) is None
            &&& mapping_2m(pages, root, vpn2_of(va), vpn1_of(va)) is None
            &&& mapping_4k(pages, root, vpn2_of(va), vpn1_of(va), vpn0_of(va)) == Some(
                region_entry(phys_base, x / 4096, user),
            )
        }),
    ensures
        translate(pages, root, (virt_base + x) as u64) == Some(phys_base + x),
{
    let va = (virt_base + x) as u64;
    let n = x / 4096;
    assert(phys_base + n * 4096 <= phys_base + x);
    lemma_region_entry_target(phys_base, n, user);
    assert(va % 4096 == x % 4096);
    assert(phys_base + n * 4096 + x % 4096 == phys_base + x);
}

/// After a region of `pages` pages is mapped from `virt_base` to
/// `phys_base`, page `n` of it is held by a valid 4 KiB leaf for the frame
/// `n` pages after `phys_base`, which is user-accessible exactly when the
/// region was mapped for user mode.
pub proof fn lemma_region_page_leaf(
    p0: Map<u64, Seq<u64>>,
    p1: Map<u64, Seq<u64>>,
    rt: u64,
    virt_base: u64,
    phys_base: u64,
    pages: int,
    user: bool,
    n: int,
)
    requires
        region_step(p0, p1, rt, virt_base, phys_base, pages, user),
        virt_base % 4096 == 0,
        phys_base % 4096 == 0,
        0 <= n < pages,
        pages <= 0x800_0000,
        virt_base + pages * 4096 <= 0x1_0000_0000_0000_0000,
        phys_base + pages * 4096 <= 0x100_0000_0000_0000,
    ensures
        ({
            let va = (virt_base + n * 4096) as u64;
            let m = mapping_4k(p1, rt, vpn2_of(va), vpn1_of(va), vpn0_of(va));
            &&& m is Some
            &&& spec_is_valid(m->0)
            &&& spec_is_leaf(m->0)
            &&& spec_is_user(m->0) == user
            &&& spec_target(m->0) == phys_base + n * 4096
        }),
{
    let va = (virt_base + n * 4096) as u64;
    lemma_slot_step(virt_base, n);
    lemma_slot_of_indices(va);
    let (i, j, k) = (vpn2_of(va), vpn1_of(va), vpn0_of(va));
    assert(is_idx(i) && is_idx(j) && is_idx(k));
    assert(slot_offset(flat_index(i, j, k), page_slot(virt_base)) == n);
    assert(mapping_4k(p1, rt, i, j, k) == Some(region_entry(phys_base, n, user)));
    lemma_region_entry_target(phys_base, n, user);
    lemma_region_entry_user(phys_base, n, user);
}

/// No 1 GiB or 2 MiB leaf covers any of the `count` slots from `start` on.
pub open spec fn no_huge_page_over(
    pages: Map<u64, Seq<u64>>,
    root: u64,
    start: int,
    count: int,
) -> bool {
    forall|a: int, b: int, c: int|
        #![trigger slot_offset(flat_index(a, b, c), start)]
        is_idx(a) && is_idx(b) && is_idx(c) && slot_offset(flat_index(a, b, c), start) < count
            ==> mapping_1g(pages, root, a) is None && mapping_2m(pages, root, a, b) is None
}

proof fn lemma_slot_of_indices(va: u64)
    ensures
        page_slot(va) == flat_index(vpn2_of(va), vpn1_of(va), vpn0_of(va)),
{
    assert((va / 0x1000) % 0x800_0000 == ((va / 0x4000_0000) % 512) * 0x40000 + ((va / 0x20_0000)
        % 512) * 512 + (va / 0x1000) % 512) by (bit_vector);
}

proof fn lemma_flat_injective(i: int, j: int, k: int, a: int, b: int, c: int)
    requires
        is_idx(i) && is_idx(j) && is_idx(k) && is_idx(a) && is_idx(b) && is_idx(c),
        flat_index(i, j, k) == flat_index(a, b, c),
    ensures
        i == a && j == b && k == c,
{
    assert(i == a && j == b && k == c) by (nonlinear_arith)
        requires
            0 <= i < 512 && 0 <= j < 512 && 0 <= k < 512,
            0 <= a < 512 && 0 <= b < 512 && 0 <= c < 512,
            i * 0x40000 + j * 512 + k == a * 0x40000 + b * 512 + c,
    {}
}

proof fn lemma_flat_range(i: int, j: int, k: int)
    requires
        is_idx(i) && is_idx(j) && is_idx(k),
    ensures
        0 <= flat_index(i, j, k) < 0x800_0000,
{
}

/// The `n`-th page after `base` sits `n` slots after `base`.
proof fn lemma_slot_step(base: u64, n: int)
    requires
        base % 4096 == 0,
        0 <= n < 0x800_0000,
        base + n * 4096 < 0x1_0000_0000_0000_0000,
    ensures
        slot_offset(page_slot((base + n * 4096) as u64), page_slot(base)) == n,
{
    let v = (base + n * 4096) as u64;
    let q: int = (base / 4096) as int;
    assert(v / 4096 == q + n);
    let s = page_slot(base);
    let m = 0x800_0000int;
    assert(page_slot(v) == (q + n) % m);
    assert(s == q % m);
    assert(((q + n) % m - s) % m == n) by {
        vstd::arithmetic::div_mod::lemma_sub_mod_noop(q + n, q, m);
        vstd::arithmetic::div_mod::lemma_sub_mod_noop((q + n) % m, s, m);
        vstd::arithmetic::div_mod::lemma_mod_twice(q + n, m);
        vstd::arithmetic::div_mod::lemma_mod_twice(q, m);
        vstd::arithmetic::div_mod::lemma_small_mod(n as nat, m as nat);
    }
}

/// The slot at a given offset from `start` is unique.
proof fn lemma_offset_determines_slot(f: int, g: int, start: int)
    requires
        0 <= f < 0x800_0000,
        0 <= g < 0x800_0000,
        slot_offset(f, start) == slot_offset(g, start),
    ensures
        f == g,
{
    let m = 0x800_0000int;
    assert(f == g) by (nonlinear_arith)
        requires
            0 <= f < m,
            0 <= g < m,
            (f - start) % m == (g - start) % m,
            m == 0x800_0000,
    {
        vstd::arithmetic::div_mod::lemma_fundamental_div_mod(f - start, m);
        vstd::arithmetic::div_mod::lemma_fundamental_div_mod(g - start, m);
    }
}

/// How many 2 MiB and 1 GiB boundaries the slots after `s` up to
/// `s + m - 1` cross.
#[verifier::opaque]
pub open spec fn table_crossings(s: int, m: int) -> int {
    (s % 512 + m - 1) / 512 + (s % 0x40000 + m - 1) / 0x40000
}

/// The most table pages that mapping `count` pages from slot `start` into
/// a tree can take: two for the first page, and one for each 2 MiB and each
/// 1 GiB boundary the run crosses.
pub open spec fn region_tables(start: int, count: int) -> int {
    if count <= 0 {
        0
    } else {
        2 + table_crossings(start, count)
    }
}

/// The table pages a run may take are never negative.
pub proof fn lemma_region_tables_nonneg(start: int, count: int)
    requires
        0 <= start,
    ensures
        region_tables(start, count) >= 0,
{
    reveal(table_crossings);
}

/// The page after `v` sits in the next slot.
proof fn lemma_slot_succ(v: u64)
    requires
        v + 4096 < 0x1_0000_0000_0000_0000,
    ensures
        page_slot((v + 4096) as u64) == (page_slot(v) + 1) % 0x800_0000,
{
    let q = (v / 4096) as int;
    assert(((v + 4096) as u64) / 4096 == q + 1);
    vstd::arithmetic::div_mod::lemma_add_mod_noop(q, 1, 0x800_0000);
    vstd::arithmetic::div_mod::lemma_small_mod(1, 0x800_0000);
}

/// Going one slot further removes the boundary that slot sits on, if any.
proof fn lemma_crossings_step(ps: int, m: int)
    requires
        0 <= ps < 0x800_0000,
        m >= 2,
    ensures
        ({
            let s = (ps + 1) % 0x800_0000;
            &&& table_crossings(ps, m) == table_crossings(s, m - 1) + (if s % 512 == 0 {
                1int
            } else {
                0int
            }) + (if s % 0x40000 == 0 {
                1int
            } else {
                0int
            })
            &&& table_crossings(s, m - 1) >= 0
        }),
{
    reveal(table_crossings);
    let s = (ps + 1) % 0x800_0000;
    if ps + 1 < 0x800_0000 {
        assert(s == ps + 1);
    } else {
        assert(s == 0);
        assert(ps % 512 == 511);
        assert(ps % 0x40000 == 0x3FFFF);
    }
    if ps % 512 == 511 {
        assert(s % 512 == 0);
        assert((ps % 512 + m - 1) / 512 == (m - 2) / 512 + 1);
    } else {
        assert(s % 512 == ps % 512 + 1);
    }
    if ps % 0x40000 == 0x3FFFF {
        assert(s % 0x40000 == 0);
        assert((ps % 0x40000 + m - 1) / 0x40000 == (m - 2) / 0x40000 + 1);
    } else {
        assert(s % 0x40000 == ps % 0x40000 + 1);
    }
}

/// The slot after `(pi, pj, pk)` shares its 2 MiB table unless it starts a
/// new one, and its 1 GiB table unless it starts a new one.
proof fn lemma_next_slot_tables(pi: int, pj: int, pk: int, i: int, j: int, k: int)
    requires
        is_idx(pi) && is_idx(pj) && is_idx(pk) && is_idx(i) && is_idx(j) && is_idx(k),
        flat_index(i, j, k) == (flat_index(pi, pj, pk) + 1) % 0x800_0000,
    ensures
        flat_index(i, j, k) % 512 != 0 ==> i == pi && j == pj,
        flat_index(i, j, k) % 0x40000 != 0 ==> i == pi,
{
    let ps = flat_index(pi, pj, pk);
    let s = flat_index(i, j, k);
    lemma_flat_range(pi, pj, pk);
    if s % 512 != 0 {
        assert(s == ps + 1);
        assert(pk < 511);
        lemma_flat_injective(i, j, k, pi, pj, pk + 1);
    }
    if s % 0x40000 != 0 {
        assert(s == ps + 1);
        assert(pj * 512 + pk < 0x3FFFF);
        assert(i == pi) by (nonlinear_arith)
            requires
                is_idx(pi) && is_idx(pj) && is_idx(pk) && is_idx(i) && is_idx(j) && is_idx(k),
                i * 0x40000 + j * 512 + k == pi * 0x40000 + pj * 512 + pk + 1,
                pj * 512 + pk < 0x3FFFF,
        {
        }
    }
}

/// The table pages a 4 KiB mapping needs: none where its last-level table
/// exists, at most one where its middle table exists, at most two anyway.
proof fn lemma_pages_needed_bound(p: Map<u64, Seq<u64>>, rt: u64, i: int, j: int)
    ensures
        pages_needed_2m(p, rt, i, j) <= 2,
        l1_table(p, rt, i) is Some ==> pages_needed_2m(p, rt, i, j) <= 1,
        l0_table(p, rt, i, j) is Some ==> l1_table(p, rt, i) is Some && pages_needed_2m(p, rt, i, j) == 0,
{
}

/// Mapping page `n` of a run takes no more table pages than the budget
/// left for it, minus what the rest of the run may still take.
proof fn lemma_budget_step(
    p1: Map<u64, Seq<u64>>,
    rt: u64,
    n: int,
    pages: int,
    start: int,
    ps: int,
    pi: int,
    pj: int,
    pk: int,
    i: int,
    j: int,
    k: int,
)
    requires
        0 <= n < pages,
        is_idx(i) && is_idx(j) && is_idx(k),
        n == 0 ==> flat_index(i, j, k) == start,
        n > 0 ==> {
            &&& is_idx(pi) && is_idx(pj) && is_idx(pk)
            &&& flat_index(pi, pj, pk) == ps
            &&& flat_index(i, j, k) == (ps + 1) % 0x800_0000
            &&& l0_table(p1, rt, pi, pj) is Some
        },
    ensures
        pages_needed_2m(p1, rt, i, j) <= 2,
        table_crossings(flat_index(i, j, k), pages - n) >= 0,
        pages_needed_2m(p1, rt, i, j) + table_crossings(flat_index(i, j, k), pages - n) <= (if n == 0 {
            region_tables(start, pages)
        } else {
            table_crossings(ps, pages - n + 1)
        }),
{
    lemma_flat_range(i, j, k);
    lemma_pages_needed_bound(p1, rt, i, j);
    if n == 0 {
        reveal(table_crossings);
    } else {
        lemma_flat_range(pi, pj, pk);
        lemma_crossings_step(ps, pages - n + 1);
        lemma_next_slot_tables(pi, pj, pk, i, j, k);
        lemma_pages_needed_bound(p1, rt, pi, pj);
    }
}

/// Maps `pages` consecutive 4 KiB pages from `virt_base` to `phys_base`,
/// read-write-execute, and user-accessible when `user` is set.
///
/// Stops at the first page that cannot be mapped, because a huge page covers
/// it or the manager has too few table pages left.
#[verifier::spinoff_prover]
pub fn map_region<M: PageManager>(
    rpt: &mut RootPageTable<M>,
    virt_base: VirtAddr,
    phys_base: PhysAddr,
    pages: u64,
    user: bool,
) -> (r: Result<(), MapError>)
    requires
        old(rpt).wf(),
        pages <= SV39_PAGES,
        pages > 0 ==> virt_base.0 % 4096 == 0,
        pages > 0 ==> phys_base.0 % 4096 == 0,
        virt_base.0 + pages * 4096 <= 0x1_0000_0000_0000_0000,
        phys_base.0 + pages * 4096 <= 0x1_0000_0000_0000_0000,
    ensures
        final(rpt).wf(),
        final(rpt).root() == old(rpt).root(),
        old(rpt).free_pages() - final(rpt).free_pages() <= region_tables(page_slot(virt_base.0), pages as int),
        r == Err::<(), MapError>(MapError::OutOfTablePages) ==> final(rpt).free_pages() < 2,
        tables_from(old(rpt).pages(), final(rpt).pages(), old(rpt).root()),
        ({
            let (p0, p1, rt, start) = (
                old(rpt).pages(),
                final(rpt).pages(),
                old(rpt).root(),
                page_slot(virt_base.0),
            );
            &&& forall|a: int, b: int|
                is_idx(a) && is_idx(b) ==> #[trigger] mapping_2m(p1, rt, a, b) == mapping_2m(p0, rt, a, b)
            &&& forall|a: int| #[trigger] is_idx(a) ==> mapping_1g(p1, rt, a) == mapping_1g(p0, rt, a)
            &&& r is Ok ==> region_step(p0, p1, rt, virt_base.0, phys_base.0, pages as int, user)
            &&& r is Err ==> exists|done: int|
                0 <= done < pages && region_step(p0, p1, rt, virt_base.0, phys_base.0, done, user)
            &&& no_huge_page_over(p0, rt, start, pages as int) ==> r != Err::<(), MapError>(
                MapError::HugePageInTheWay,
            )
            &&& (old(rpt).free_pages() >= region_tables(start, pages as int) && no_huge_page_over(
                p0,
                rt,
                start,
                pages as int,
            )) ==> r is Ok
        }),
{
    let ghost p0 = rpt.pages();
    let ghost rt = rpt.root();
    let ghost start = page_slot(virt_base.0);
    let ghost free0 = rpt.free_pages();
    let ghost hyp = free0 >= region_tables(start, pages as int) && no_huge_page_over(p0, rt, start, pages as int);
    let ghost mut ps: int = 0;
    let ghost mut pi: int = 0;
    let ghost mut pj: int = 0;
    let ghost mut pk: int = 0;
    let ghost nohuge = no_huge_page_over(p0, rt, start, pages as int);
    proof {
        lemma_tables_from_refl(p0, rt);
    }
    let mut n: u64 = 0;
    while n < pages
        invariant
            0 <= n <= pages,
            pages <= SV39_PAGES,
            pages > 0 ==> virt_base.0 % 4096 == 0,
            pages > 0 ==> phys_base.0 % 4096 == 0,
            virt_base.0 + pages * 4096 <= 0x1_0000_0000_0000_0000,
            phys_base.0 + pages * 4096 <= 0x1_0000_0000_0000_0000,
            rpt.wf(),
            rpt.root() == rt,
            rt == old(rpt).root(),
            p0 == old(rpt).pages(),
            free0 == old(rpt).free_pages(),
            start == page_slot(virt_base.0),
            free0 - rpt.free_pages() + (if n == 0 {
                region_tables(start, pages as int)
            } else {
                table_crossings(ps, pages - n + 1)
            }) <= region_tables(start, pages as int),
            n > 0 ==> table_crossings(ps, pages - n + 1) >= 0,
            tables_from(p0, rpt.pages(), rt),
            n > 0 ==> {
                &&& is_idx(pi) && is_idx(pj) && is_idx(pk)
                &&& flat_index(pi, pj, pk) == ps
                &&& ps == page_slot((virt_base.0 + (n - 1) * 4096) as u64)
                &&& l0_table(rpt.pages(), rt, pi, pj) is Some
            },
            hyp == (free0 >= region_tables(start, pages as int) && no_huge_page_over(p0, rt, start, pages as int)),
            nohuge == no_huge_page_over(p0, rt, start, pages as int),
            forall|a: int, b: int|
                is_idx(a) && is_idx(b) ==> #[trigger] mapping_2m(rpt.pages(), rt, a, b) == mapping_2m(
                    p0,
                    rt,
                    a,
                    b,
                ),
            forall|a: int| #[trigger] is_idx(a) ==> mapping_1g(rpt.pages(), rt, a) == mapping_1g(p0, rt, a),
            forall|a: int, b: int, c: int|
                is_idx(a) && is_idx(b) && is_idx(c) ==> #[trigger] mapping_4k(rpt.pages(), rt, a, b, c)
                    == (if slot_offset(flat_index(a, b, c), start) < n {
                    Some(region_entry(phys_base.0, slot_offset(flat_index(a, b, c), start), user))
                } else {
                    mapping_4k(p0, rt, a, b, c)
                }),
        decreases pages - n,
    {
        let va = VirtAddr(virt_base.0 + n * 4096);
        let mut pte = PageTableEntry::for_phys(PhysAddr(phys_base.0 + n * 4096));
        if user {
            pte = pte.make_user();
        }
        pte = pte.make_rwx();
        let ghost p1 = rpt.pages();
        let ghost (i, j, k) = (vpn2_of(va.0), vpn1_of(va.0), vpn0_of(va.0));
        proof {
            lemma_slot_of_indices(va.0);
            lemma_slot_step(virt_base.0, n as int);
            assert(slot_offset(flat_index(i, j, k), start) == n);
            assert(pte.0 == region_entry(phys_base.0, n as int, user));
        }
        proof {
            assert(is_idx(i) && is_idx(j) && is_idx(k));
            if n > 0 {
                lemma_slot_succ((virt_base.0 + (n - 1) * 4096) as u64);
                assert((virt_base.0 + (n - 1) * 4096) as u64 + 4096 == va.0);
            }
            lemma_budget_step(p1, rt, n as int, pages as int, start, ps, pi, pj, pk, i, j, k);
        }
        let res = rpt.try_map_4k(va, pte);
        match res {
            Ok(()) => {
                proof {
                    assert(spec_is_leaf_entry(pte.0));
                    let p2 = rpt.pages();
                    assert forall|a: int, b: int, c: int|
                        is_idx(a) && is_idx(b) && is_idx(c) implies #[trigger] mapping_4k(
                        p2,
                        rt,
                        a,
                        b,
                        c,
                    ) == (if slot_offset(flat_index(a, b, c), start) < n + 1 {
                        Some(region_entry(phys_base.0, slot_offset(flat_index(a, b, c), start), user))
                    } else {
                        mapping_4k(p0, rt, a, b, c)
                    }) by {
                        if a == i && b == j && c == k {
                        } else {
                            assert(mapping_4k(p2, rt, a, b, c) == mapping_4k(p1, rt, a, b, c));
                            if slot_offset(flat_index(a, b, c), start) == n {
                                lemma_flat_range(a, b, c);
                                lemma_flat_range(i, j, k);
                                lemma_offset_determines_slot(
                                    flat_index(a, b, c),
                                    flat_index(i, j, k),
                                    start,
                                );
                                lemma_flat_injective(a, b, c, i, j, k);
                            }
                        }
                    }
                    assert forall|a: int, b: int|
                        is_idx(a) && is_idx(b) implies #[trigger] mapping_2m(p2, rt, a, b)
                        == mapping_2m(p0, rt, a, b) by {
                        assert(mapping_2m(p2, rt, a, b) == mapping_2m(p1, rt, a, b));
                    }
                    assert forall|a: int| #[trigger] is_idx(a) implies mapping_1g(p2, rt, a)
                        == mapping_1g(p0, rt, a) by {
                        assert(mapping_1g(p2, rt, a) == mapping_1g(p1, rt, a));
                    }
                    lemma_tables_from_trans(p0, p1, p2, rt);
                    ps = flat_index(i, j, k);
                    pi = i;
                    pj = j;
                    pk = k;
                }
            },
            Err(e) => {
                proof {
                    if nohuge {
                        assert(is_idx(i) && is_idx(j) && is_idx(k));
                        assert(mapping_1g(p0, rt, i) is None && mapping_2m(p0, rt, i, j) is None);
                        assert(mapping_1g(p1, rt, i) is None && mapping_2m(p1, rt, i, j) is None);
                        crate::pagetable::lemma_can_descend_2m(p1, rt, i, j);
                    }
                    if hyp {
                        assert(is_idx(i) && is_idx(j) && is_idx(k));
                        assert(mapping_1g(p0, rt, i) is None && mapping_2m(p0, rt, i, j) is None);
                        assert(mapping_1g(p1, rt, i) is None && mapping_2m(p1, rt, i, j) is None);
                        crate::pagetable::lemma_can_descend_2m(p1, rt, i, j);
                        assert(pages_needed_2m(p1, rt, i, j) <= 2);
                    }
                    assert(rpt.pages() == p1);
                    assert(region_step(p0, p1, rt, virt_base.0, phys_base.0, n as int, user));
                }
                return Err(e);
            },
        }
        n = n + 1;
    }
    Ok(())
}

} // verus!
