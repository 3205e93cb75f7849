//! Three-level Sv39 page tables.
//!
//! Table pages live in memory that a [`PageManager`] hands out and gives
//! access to. The contracts speak of that memory as a map from page-aligned
//! physical addresses to 512-entry tables, and of the mappings that the
//! hardware walk sees in it: 1 GiB, 2 MiB and 4 KiB leaves.
use vstd::prelude::*;
use crate::addr::{PhysAddr, VirtAddr, vpn2_of, vpn1_of, vpn0_of};
use crate::pte::{PageTableEntry, spec_is_valid, spec_is_leaf, spec_is_table, spec_target, spec_for_ppn};

verus! {

/// Memory that page tables are allocated from and written to.
pub trait PageManager {
    /// The table pages this manager gives access to, by physical address.
    spec fn pages(&self) -> Map<u64, Seq<u64>>;

    /// How many more pages can be allocated.
    spec fn free_pages(&self) -> nat;

    /// Allocates a fresh physical page for a page table.
    fn alloc_physical_page(&mut self) -> (phys: PhysAddr)
        requires
            old(self).free_pages() > 0,
        ensures
            phys.0 % 4096 == 0,
            phys.0 < 0x100_0000_0000_0000,
            !old(self).pages().contains_key(phys.0),
            final(self).pages() == old(self).pages().insert(phys.0, final(self).pages()[phys.0]),
            final(self).pages()[phys.0].len() == 512,
            final(self).free_pages() == old(self).free_pages() - 1,
    ;

    /// How many more pages can be allocated.
    fn free_page_count(&self) -> (n: u64)
        ensures
            n as nat == self.free_pages(),
    ;

    /// Reads entry `index` of the table at `table`.
    fn read_entry(&self, table: PhysAddr, index: usize) -> (e: PageTableEntry)
        requires
            self.pages().contains_key(table.0),
            index < self.pages()[table.0].len(),
        ensures
            e.0 == self.pages()[table.0][index as int],
    ;

    /// Writes entry `index` of the table at `table`.
    fn write_entry(&mut self, table: PhysAddr, index: usize, e: PageTableEntry)
        requires
            old(self).pages().contains_key(table.0),
            index < old(self).pages()[table.0].len(),
        ensures
            final(self).pages() == old(self).pages().insert(
                table.0,
                old(self).pages()[table.0].update(index as int, e.0),
            ),
            final(self).free_pages() == old(self).free_pages(),
    ;
}

/// Why a mapping could not be made.
#[derive(Clone, Copy, PartialEq, Eq, Debug, Structural)]
pub enum MapError {
    /// A 1 GiB or 2 MiB leaf covers the address.
    HugePageInTheWay,
    /// The memory manager has too few pages left for the tables needed.
    OutOfTablePages,
}

/// A page table, given by the physical address of its page.
#[derive(Clone, Copy, PartialEq, Eq, Debug, Structural)]
pub struct PageTable(pub PhysAddr);

/// The root of a page table tree together with the memory it lives in.
pub struct RootPageTable<M: PageManager> {
    inner: PageTable,
    manager: M,
}

pub open spec fn is_idx(i: int) -> bool {
    0 <= i < 512
}

/// A table of all-zero (invalid) entries.
pub open spec fn zero_table() -> Seq<u64> {
    Seq::new(512, |k: int| 0u64)
}

pub open spec fn table_ok(pages: Map<u64, Seq<u64>>, t: u64) -> bool {
    pages.contains_key(t) && pages[t].len() == 512
}

/// The second-level table that entry `i` of the root points to.
pub open spec fn l1_table(pages: Map<u64, Seq<u64>>, root: u64, i: int) -> Option<u64> {
    if spec_is_table(pages[root][i]) {
        Some(spec_target(pages[root][i]))
    } else {
        None
    }
}

/// The last-level table reached through entries `i` and `j`.
pub open spec fn l0_table(pages: Map<u64, Seq<u64>>, root: u64, i: int, j: int) -> Option<u64> {
    match l1_table(pages, root, i) {
        Some(t) => if spec_is_table(pages[t][j]) {
            Some(spec_target(pages[t][j]))
        } else {
            None
        },
        None => None,
    }
}

/// The entry, if it is a valid leaf.
pub open spec fn leaf_of(e: u64) -> Option<u64> {
    if spec_is_valid(e) && spec_is_leaf(e) {
        Some(e)
    } else {
        None
    }
}

/// The 1 GiB leaf at root index `i`.
pub open spec fn mapping_1g(pages: Map<u64, Seq<u64>>, root: u64, i: int) -> Option<u64> {
    leaf_of(pages[root][i])
}

/// The 2 MiB leaf at indices `i`, `j`.
pub open spec fn mapping_2m(pages: Map<u64, Seq<u64>>, root: u64, i: int, j: int) -> Option<u64> {
    match l1_table(pages, root, i) {
        Some(t) => leaf_of(pages[t][j]),
        None => None,
    }
}

/// The 4 KiB leaf at indices `i`, `j`, `k`.
pub open spec fn mapping_4k(pages: Map<u64, Seq<u64>>, root: u64, i: int, j: int, k: int) -> Option<
    u64,
> {
    match l0_table(pages, root, i, j) {
        Some(t) => leaf_of(pages[t][k]),
        None => None,
    }
}

/// Well-formed tree: every table reached from the root is present, and no two
/// positions in the tree share a table page.
pub open spec fn tables_wf(pages: Map<u64, Seq<u64>>, root: u64) -> bool {
    &&& table_ok(pages, root)
    &&& forall|i: int|
        #![trigger l1_table(pages, root, i)]
        is_idx(i) && l1_table(pages, root, i) is Some ==> table_ok(
            pages,
            l1_table(pages, root, i)->0,
        ) && l1_table(pages, root, i)->0 != root
    &&& forall|i: int, i2: int|
        #![trigger l1_table(pages, root, i), l1_table(pages, root, i2)]
        is_idx(i) && is_idx(i2) && i != i2 && l1_table(pages, root, i) is Some && l1_table(
            pages,
            root,
            i2,
        ) is Some ==> l1_table(pages, root, i)->0 != l1_table(pages, root, i2)->0
    &&& forall|i: int, j: int|
        #![trigger l0_table(pages, root, i, j)]
        is_idx(i) && is_idx(j) && l0_table(pages, root, i, j) is Some ==> table_ok(
            pages,
            l0_table(pages, root, i, j)->0,
        ) && l0_table(pages, root, i, j)->0 != root
    &&& forall|i: int, j: int, k: int|
        #![trigger l0_table(pages, root, i, j), l1_table(pages, root, k)]
        is_idx(i) && is_idx(j) && is_idx(k) && l0_table(pages, root, i, j) is Some && l1_table(
            pages,
            root,
            k,
        ) is Some ==> l0_table(pages, root, i, j)->0 != l1_table(pages, root, k)->0
    &&& forall|i: int, j: int, i2: int, j2: int|
        #![trigger l0_table(pages, root, i, j), l0_table(pages, root, i2, j2)]
        is_idx(i) && is_idx(j) && is_idx(i2) && is_idx(j2) && (i != i2 || j != j2) && l0_table(
            pages,
            root,
            i,
            j,
        ) is Some && l0_table(pages, root, i2, j2) is Some ==> l0_table(pages, root, i, j)->0
            != l0_table(pages, root, i2, j2)->0
}

/// Two memories (with their roots) give the same leaves everywhere.
pub open spec fn same_mappings(
    p1: Map<u64, Seq<u64>>,
    r1: u64,
    p2: Map<u64, Seq<u64>>,
    r2: u64,
) -> bool {
    &&& forall|i: int| #[trigger] is_idx(i) ==> mapping_1g(p2, r2, i) == mapping_1g(p1, r1, i)
    &&& forall|i: int, j: int|
        is_idx(i) && is_idx(j) ==> #[trigger] mapping_2m(p2, r2, i, j) == mapping_2m(p1, r1, i, j)
    &&& forall|i: int, j: int, k: int|
        is_idx(i) && is_idx(j) && is_idx(k) ==> #[trigger] mapping_4k(p2, r2, i, j, k)
            == mapping_4k(p1, r1, i, j, k)
}

/// No table of the tree lives at `p`.
pub open spec fn not_in_tree(pages: Map<u64, Seq<u64>>, root: u64, p: u64) -> bool {
    &&& p != root
    &&& forall|i: int|
        #![trigger l1_table(pages, root, i)]
        is_idx(i) && l1_table(pages, root, i) is Some ==> l1_table(pages, root, i)->0 != p
    &&& forall|i: int, j: int|
        #![trigger l0_table(pages, root, i, j)]
        is_idx(i) && is_idx(j) && l0_table(pages, root, i, j) is Some ==> l0_table(
            pages,
            root,
            i,
            j,
        )->0 != p
}

proof fn lemma_zero_entry()
    ensures
        !spec_is_valid(0u64),
        !spec_is_table(0u64),
        leaf_of(0u64) is None,
{
    assert(0u64 & 1u64 == 0) by (bit_vector);
}

/// Two memories that agree on every table of the tree have the same tree.
proof fn lemma_tables_agree(p1: Map<u64, Seq<u64>>, p2: Map<u64, Seq<u64>>, root: u64)
    requires
        tables_wf(p1, root),
        p2.contains_key(root),
        p2[root] == p1[root],
        forall|i: int|
            #![trigger l1_table(p1, root, i)]
            is_idx(i) && l1_table(p1, root, i) is Some ==> p2.contains_key(
                l1_table(p1, root, i)->0,
            ) && p2[l1_table(p1, root, i)->0] == p1[l1_table(p1, root, i)->0],
        forall|i: int, j: int|
            #![trigger l0_table(p1, root, i, j)]
            is_idx(i) && is_idx(j) && l0_table(p1, root, i, j) is Some ==> p2.contains_key(
                l0_table(p1, root, i, j)->0,
            ) && p2[l0_table(p1, root, i, j)->0] == p1[l0_table(p1, root, i, j)->0],
    ensures
        tables_wf(p2, root),
        forall|i: int| #[trigger] l1_table(p2, root, i) == l1_table(p1, root, i),
        forall|i: int, j: int| is_idx(i) ==> #[trigger] l0_table(p2, root, i, j) == l0_table(p1, root, i, j),
        same_mappings(p1, root, p2, root),
{
    assert forall|i: int| #[trigger] l1_table(p2, root, i) == l1_table(p1, root, i) by {}
    assert forall|i: int, j: int| is_idx(i) implies #[trigger] l0_table(p2, root, i, j) == l0_table(
        p1,
        root,
        i,
        j,
    ) by {
        assert(l1_table(p2, root, i) == l1_table(p1, root, i));
        if l1_table(p1, root, i) is Some {
            let t = l1_table(p1, root, i)->0;
            assert(p2[t] == p1[t]);
        }
    }
    assert forall|i: int, j: int, k: int|
        is_idx(i) && is_idx(j) && is_idx(k) implies #[trigger] mapping_4k(p2, root, i, j, k)
        == mapping_4k(p1, root, i, j, k) by {
        assert(l0_table(p2, root, i, j) == l0_table(p1, root, i, j));
    }
    assert forall|i: int, j: int| is_idx(i) && is_idx(j) implies #[trigger] mapping_2m(
        p2,
        root,
        i,
        j,
    ) == mapping_2m(p1, root, i, j) by {
        assert(l1_table(p2, root, i) == l1_table(p1, root, i));
    }
}


/// Adding a page that was not in memory changes nothing in the tree.
proof fn lemma_fresh_page(p0: Map<u64, Seq<u64>>, root: u64, p: u64, s: Seq<u64>)
    requires
        tables_wf(p0, root),
        !p0.contains_key(p),
    ensures
        tables_wf(p0.insert(p, s), root),
        forall|i: int| #[trigger] l1_table(p0.insert(p, s), root, i) == l1_table(p0, root, i),
        forall|i: int, j: int|
            is_idx(i) ==> #[trigger] l0_table(p0.insert(p, s), root, i, j) == l0_table(
                p0,
                root,
                i,
                j,
            ),
        same_mappings(p0, root, p0.insert(p, s), root),
        not_in_tree(p0.insert(p, s), root, p),
{
    let p1 = p0.insert(p, s);
    lemma_tables_agree(p0, p1, root);
    assert forall|i: int|
        #![trigger l1_table(p1, root, i)]
        is_idx(i) && l1_table(p1, root, i) is Some implies l1_table(p1, root, i)->0 != p by {
        assert(l1_table(p1, root, i) == l1_table(p0, root, i));
    }
    assert forall|i: int, j: int|
        #![trigger l0_table(p1, root, i, j)]
        is_idx(i) && is_idx(j) && l0_table(p1, root, i, j) is Some implies l0_table(
            p1,
            root,
            i,
            j,
        )->0 != p by {
        assert(l0_table(p1, root, i, j) == l0_table(p0, root, i, j));
    }
}

/// Linking a zeroed, unused page as the second-level table under root entry `i`.
proof fn lemma_link_l1(p1: Map<u64, Seq<u64>>, root: u64, i: int, p: u64, e: u64)
    requires
        tables_wf(p1, root),
        is_idx(i),
        !spec_is_valid(p1[root][i]),
        table_ok(p1, p),
        not_in_tree(p1, root, p),
        p1[p] == zero_table(),
        spec_is_table(e),
        spec_target(e) == p,
    ensures
        ({
            let p2 = p1.insert(root, p1[root].update(i, e));
            &&& tables_wf(p2, root)
            &&& l1_table(p2, root, i) == Some(p)
            &&& forall|k: int| is_idx(k) && k != i ==> #[trigger] l1_table(p2, root, k) == l1_table(p1, root, k)
            &&& forall|k: int, j: int|
                is_idx(k) && k != i ==> #[trigger] l0_table(p2, root, k, j) == l0_table(p1, root, k, j)
            &&& forall|j: int| is_idx(j) ==> #[trigger] l0_table(p2, root, i, j) is None
            &&& same_mappings(p1, root, p2, root)
        }),
{
    let p2 = p1.insert(root, p1[root].update(i, e));
    lemma_zero_entry();
    assert(p2[p] == zero_table());
    assert forall|k: int| is_idx(k) && k != i implies #[trigger] l1_table(p2, root, k) == l1_table(
        p1,
        root,
        k,
    ) by {
        assert(p2[root][k] == p1[root][k]);
    }
    assert(l1_table(p2, root, i) == Some(p));
    assert forall|k: int, j: int| is_idx(k) && k != i implies #[trigger] l0_table(
        p2,
        root,
        k,
        j,
    ) == l0_table(p1, root, k, j) by {
        assert(l1_table(p2, root, k) == l1_table(p1, root, k));
        if l1_table(p1, root, k) is Some {
            let t = l1_table(p1, root, k)->0;
            assert(p2[t] == p1[t]);
        }
    }
    assert forall|j: int| is_idx(j) implies #[trigger] l0_table(p2, root, i, j) is None by {
        assert(p2[p][j] == 0u64);
    }
    // well-formedness
    assert(table_ok(p2, root));
    assert forall|k: int|
        #![trigger l1_table(p2, root, k)]
        is_idx(k) && l1_table(p2, root, k) is Some implies table_ok(
            p2,
            l1_table(p2, root, k)->0,
        ) && l1_table(p2, root, k)->0 != root by {
        if k != i {
            assert(l1_table(p1, root, k) is Some);
        }
    }
    assert forall|k: int, k2: int|
        #![trigger l1_table(p2, root, k), l1_table(p2, root, k2)]
        is_idx(k) && is_idx(k2) && k != k2 && l1_table(p2, root, k) is Some && l1_table(
            p2,
            root,
            k2,
        ) is Some implies l1_table(p2, root, k)->0 != l1_table(p2, root, k2)->0 by {
        if k == i {
            assert(l1_table(p1, root, k2) is Some);
        } else if k2 == i {
            assert(l1_table(p1, root, k) is Some);
        } else {
            assert(l1_table(p1, root, k) is Some && l1_table(p1, root, k2) is Some);
        }
    }
    assert forall|k: int, j: int|
        #![trigger l0_table(p2, root, k, j)]
        is_idx(k) && is_idx(j) && l0_table(p2, root, k, j) is Some implies table_ok(
            p2,
            l0_table(p2, root, k, j)->0,
        ) && l0_table(p2, root, k, j)->0 != root by {
        assert(k != i);
        assert(l0_table(p1, root, k, j) is Some);
    }
    assert forall|k: int, j: int, k2: int|
        #![trigger l0_table(p2, root, k, j), l1_table(p2, root, k2)]
        is_idx(k) && is_idx(j) && is_idx(k2) && l0_table(p2, root, k, j) is Some && l1_table(
            p2,
            root,
            k2,
        ) is Some implies l0_table(p2, root, k, j)->0 != l1_table(p2, root, k2)->0 by {
        assert(k != i);
        assert(l0_table(p1, root, k, j) is Some);
        if k2 != i {
            assert(l1_table(p1, root, k2) is Some);
        }
    }
    assert forall|k: int, j: int, k2: int, j2: int|
        #![trigger l0_table(p2, root, k, j), l0_table(p2, root, k2, j2)]
        is_idx(k) && is_idx(j) && is_idx(k2) && is_idx(j2) && (k != k2 || j != j2) && l0_table(
            p2,
            root,
            k,
            j,
        ) is Some && l0_table(p2, root, k2, j2) is Some implies l0_table(p2, root, k, j)->0
        != l0_table(p2, root, k2, j2)->0 by {
        assert(k != i && k2 != i);
        assert(l0_table(p1, root, k, j) is Some && l0_table(p1, root, k2, j2) is Some);
    }
    // mappings
    assert(spec_is_valid(e) && !spec_is_leaf(e));
    assert forall|k: int| #[trigger] is_idx(k) implies mapping_1g(p2, root, k) == mapping_1g(
        p1,
        root,
        k,
    ) by {
        if k != i {
            assert(p2[root][k] == p1[root][k]);
        }
    }
    assert forall|k: int, j: int| is_idx(k) && is_idx(j) implies #[trigger] mapping_2m(
        p2,
        root,
        k,
        j,
    ) == mapping_2m(p1, root, k, j) by {
        if k != i {
            assert(l1_table(p2, root, k) == l1_table(p1, root, k));
            if l1_table(p1, root, k) is Some {
                let t = l1_table(p1, root, k)->0;
                assert(p2[t] == p1[t]);
            }
        } else {
            assert(p2[p][j] == 0u64);
        }
    }
    assert forall|k: int, j: int, m: int|
        is_idx(k) && is_idx(j) && is_idx(m) implies #[trigger] mapping_4k(p2, root, k, j, m)
        == mapping_4k(p1, root, k, j, m) by {
        if k != i {
            assert(l0_table(p2, root, k, j) == l0_table(p1, root, k, j));
            if l0_table(p1, root, k, j) is Some {
                let t = l0_table(p1, root, k, j)->0;
                assert(t != root);
                assert(p2[t] == p1[t]);
            }
        } else {
            assert(l0_table(p2, root, i, j) is None);
        }
    }
}


/// Linking a zeroed, unused page as the last-level table under entries `i`, `j`.
proof fn lemma_link_l0(p1: Map<u64, Seq<u64>>, root: u64, i: int, j: int, p: u64, e: u64)
    requires
        tables_wf(p1, root),
        is_idx(i),
        is_idx(j),
        l1_table(p1, root, i) is Some,
        !spec_is_valid(p1[l1_table(p1, root, i)->0][j]),
        table_ok(p1, p),
        not_in_tree(p1, root, p),
        p1[p] == zero_table(),
        spec_is_table(e),
        spec_target(e) == p,
    ensures
        ({
            let t1 = l1_table(p1, root, i)->0;
            let p2 = p1.insert(t1, p1[t1].update(j, e));
            &&& tables_wf(p2, root)
            &&& forall|k: int| #[trigger] l1_table(p2, root, k) == l1_table(p1, root, k)
            &&& l0_table(p2, root, i, j) == Some(p)
            &&& forall|k: int, m: int|
                is_idx(k) && is_idx(m) && (k != i || m != j) ==> #[trigger] l0_table(p2, root, k, m) == l0_table(
                    p1,
                    root,
                    k,
                    m,
                )
            &&& same_mappings(p1, root, p2, root)
        }),
{
    let t1 = l1_table(p1, root, i)->0;
    let p2 = p1.insert(t1, p1[t1].update(j, e));
    lemma_zero_entry();
    assert(t1 != root && t1 != p);
    assert(p2[root] == p1[root]);
    assert(p2[p] == zero_table());
    assert forall|k: int| #[trigger] l1_table(p2, root, k) == l1_table(p1, root, k) by {}
    assert forall|k: int, m: int| is_idx(k) && is_idx(m) && (k != i || m != j) implies #[trigger] l0_table(
        p2,
        root,
        k,
        m,
    ) == l0_table(p1, root, k, m) by {
        assert(l1_table(p2, root, k) == l1_table(p1, root, k));
        if l1_table(p1, root, k) is Some {
            let t = l1_table(p1, root, k)->0;
            if k != i {
                assert(t != t1);
                assert(p2[t] == p1[t]);
            } else {
                assert(p2[t1][m] == p1[t1][m]);
            }
        }
    }
    assert(l1_table(p2, root, i) == Some(t1));
    assert(p2[t1][j] == e);
    assert(l0_table(p2, root, i, j) == Some(p));
    // well-formedness
    assert forall|k: int|
        #![trigger l1_table(p2, root, k)]
        is_idx(k) && l1_table(p2, root, k) is Some implies table_ok(
            p2,
            l1_table(p2, root, k)->0,
        ) && l1_table(p2, root, k)->0 != root by {
        assert(l1_table(p1, root, k) is Some);
    }
    assert forall|k: int, k2: int|
        #![trigger l1_table(p2, root, k), l1_table(p2, root, k2)]
        is_idx(k) && is_idx(k2) && k != k2 && l1_table(p2, root, k) is Some && l1_table(
            p2,
            root,
            k2,
        ) is Some implies l1_table(p2, root, k)->0 != l1_table(p2, root, k2)->0 by {
        assert(l1_table(p1, root, k) is Some && l1_table(p1, root, k2) is Some);
    }
    assert forall|k: int, m: int|
        #![trigger l0_table(p2, root, k, m)]
        is_idx(k) && is_idx(m) && l0_table(p2, root, k, m) is Some implies table_ok(
            p2,
            l0_table(p2, root, k, m)->0,
        ) && l0_table(p2, root, k, m)->0 != root by {
        if k != i || m != j {
            assert(l0_table(p1, root, k, m) is Some);
            let t = l0_table(p1, root, k, m)->0;
            assert(t != t1);
        }
    }
    assert forall|k: int, m: int, k2: int|
        #![trigger l0_table(p2, root, k, m), l1_table(p2, root, k2)]
        is_idx(k) && is_idx(m) && is_idx(k2) && l0_table(p2, root, k, m) is Some && l1_table(
            p2,
            root,
            k2,
        ) is Some implies l0_table(p2, root, k, m)->0 != l1_table(p2, root, k2)->0 by {
        assert(l1_table(p1, root, k2) is Some);
        if k != i || m != j {
            assert(l0_table(p1, root, k, m) is Some);
        }
    }
    assert forall|k: int, m: int, k2: int, m2: int|
        #![trigger l0_table(p2, root, k, m), l0_table(p2, root, k2, m2)]
        is_idx(k) && is_idx(m) && is_idx(k2) && is_idx(m2) && (k != k2 || m != m2) && l0_table(
            p2,
            root,
            k,
            m,
        ) is Some && l0_table(p2, root, k2, m2) is Some implies l0_table(p2, root, k, m)->0
        != l0_table(p2, root, k2, m2)->0 by {
        if k != i || m != j {
            assert(l0_table(p1, root, k, m) is Some);
        }
        if k2 != i || m2 != j {
            assert(l0_table(p1, root, k2, m2) is Some);
        }
    }
    // mappings
    assert(spec_is_valid(e) && !spec_is_leaf(e));
    assert forall|k: int| #[trigger] is_idx(k) implies mapping_1g(p2, root, k) == mapping_1g(
        p1,
        root,
        k,
    ) by {}
    assert forall|k: int, m: int| is_idx(k) && is_idx(m) implies #[trigger] mapping_2m(
        p2,
        root,
        k,
        m,
    ) == mapping_2m(p1, root, k, m) by {
        if l1_table(p1, root, k) is Some {
            let t = l1_table(p1, root, k)->0;
            if k != i {
                assert(p2[t] == p1[t]);
            } else if m != j {
                assert(p2[t1][m] == p1[t1][m]);
            }
        }
    }
    assert forall|k: int, m: int, n: int|
        is_idx(k) && is_idx(m) && is_idx(n) implies #[trigger] mapping_4k(p2, root, k, m, n)
        == mapping_4k(p1, root, k, m, n) by {
        if k != i || m != j {
            assert(l0_table(p2, root, k, m) == l0_table(p1, root, k, m));
            if l0_table(p1, root, k, m) is Some {
                let t = l0_table(p1, root, k, m)->0;
                assert(t != t1);
                assert(p2[t] == p1[t]);
            }
        } else {
            assert(p2[p][n] == 0u64);
        }
    }
}

/// Writing a last-level entry changes only that 4 KiB mapping.
proof fn lemma_set_4k(p1: Map<u64, Seq<u64>>, root: u64, i: int, j: int, k: int, e: u64)
    requires
        tables_wf(p1, root),
        is_idx(i),
        is_idx(j),
        is_idx(k),
        l0_table(p1, root, i, j) is Some,
    ensures
        ({
            let t0 = l0_table(p1, root, i, j)->0;
            let p2 = p1.insert(t0, p1[t0].update(k, e));
            &&& tables_wf(p2, root)
            &&& forall|a: int| #[trigger] l1_table(p2, root, a) == l1_table(p1, root, a)
            &&& forall|a: int, b: int|
                is_idx(a) ==> #[trigger] l0_table(p2, root, a, b) == l0_table(p1, root, a, b)
            &&& mapping_4k(p2, root, i, j, k) == leaf_of(e)
            &&& forall|a: int, b: int, c: int|
                is_idx(a) && is_idx(b) && is_idx(c) && (a != i || b != j || c != k)
                    ==> #[trigger] mapping_4k(p2, root, a, b, c) == mapping_4k(p1, root, a, b, c)
            &&& forall|a: int| #[trigger] is_idx(a) ==> mapping_1g(p2, root, a) == mapping_1g(p1, root, a)
            &&& forall|a: int, b: int|
                is_idx(a) && is_idx(b) ==> #[trigger] mapping_2m(p2, root, a, b) == mapping_2m(
                    p1,
                    root,
                    a,
                    b,
                )
        }),
{
    let t0 = l0_table(p1, root, i, j)->0;
    let p2 = p1.insert(t0, p1[t0].update(k, e));
    assert(t0 != root);
    assert(p2[root] == p1[root]);
    assert forall|a: int| #[trigger] l1_table(p2, root, a) == l1_table(p1, root, a) by {}
    assert forall|a: int, b: int| is_idx(a) implies #[trigger] l0_table(p2, root, a, b) == l0_table(
        p1,
        root,
        a,
        b,
    ) by {
        if l1_table(p1, root, a) is Some {
            let t = l1_table(p1, root, a)->0;
            assert(t != t0);
            assert(p2[t] == p1[t]);
        }
    }
    assert(p2[t0][k] == e);
    assert(l0_table(p2, root, i, j) == Some(t0));
    assert forall|a: int, b: int, c: int|
        is_idx(a) && is_idx(b) && is_idx(c) && (a != i || b != j || c != k) implies #[trigger] mapping_4k(
        p2,
        root,
        a,
        b,
        c,
    ) == mapping_4k(p1, root, a, b, c) by {
        assert(l0_table(p2, root, a, b) == l0_table(p1, root, a, b));
        if l0_table(p1, root, a, b) is Some {
            let t = l0_table(p1, root, a, b)->0;
            if a != i || b != j {
                assert(t != t0);
            }
            assert(p2[t][c] == p1[t][c]);
        }
    }
    assert forall|a: int, b: int| is_idx(a) && is_idx(b) implies #[trigger] mapping_2m(
        p2,
        root,
        a,
        b,
    ) == mapping_2m(p1, root, a, b) by {
        if l1_table(p1, root, a) is Some {
            let t = l1_table(p1, root, a)->0;
            assert(t != t0);
            assert(p2[t] == p1[t]);
        }
    }
    assert forall|a: int| #[trigger] is_idx(a) implies mapping_1g(p2, root, a) == mapping_1g(
        p1,
        root,
        a,
    ) by {}
    // well-formedness: every table of the tree keeps its page, only t0 changed in length-preserving way
    assert forall|a: int|
        #![trigger l1_table(p2, root, a)]
        is_idx(a) && l1_table(p2, root, a) is Some implies table_ok(
            p2,
            l1_table(p2, root, a)->0,
        ) && l1_table(p2, root, a)->0 != root by {
        assert(l1_table(p1, root, a) is Some);
    }
    assert forall|a: int, a2: int|
        #![trigger l1_table(p2, root, a), l1_table(p2, root, a2)]
        is_idx(a) && is_idx(a2) && a != a2 && l1_table(p2, root, a) is Some && l1_table(
            p2,
            root,
            a2,
        ) is Some implies l1_table(p2, root, a)->0 != l1_table(p2, root, a2)->0 by {
        assert(l1_table(p1, root, a) is Some && l1_table(p1, root, a2) is Some);
    }
    assert forall|a: int, b: int|
        #![trigger l0_table(p2, root, a, b)]
        is_idx(a) && is_idx(b) && l0_table(p2, root, a, b) is Some implies table_ok(
            p2,
            l0_table(p2, root, a, b)->0,
        ) && l0_table(p2, root, a, b)->0 != root by {
        assert(l0_table(p1, root, a, b) is Some);
    }
    assert forall|a: int, b: int, a2: int|
        #![trigger l0_table(p2, root, a, b), l1_table(p2, root, a2)]
        is_idx(a) && is_idx(b) && is_idx(a2) && l0_table(p2, root, a, b) is Some && l1_table(
            p2,
            root,
            a2,
        ) is Some implies l0_table(p2, root, a, b)->0 != l1_table(p2, root, a2)->0 by {
        assert(l0_table(p1, root, a, b) is Some && l1_table(p1, root, a2) is Some);
    }
    assert forall|a: int, b: int, a2: int, b2: int|
        #![trigger l0_table(p2, root, a, b), l0_table(p2, root, a2, b2)]
        is_idx(a) && is_idx(b) && is_idx(a2) && is_idx(b2) && (a != a2 || b != b2) && l0_table(
            p2,
            root,
            a,
            b,
        ) is Some && l0_table(p2, root, a2, b2) is Some implies l0_table(p2, root, a, b)->0
        != l0_table(p2, root, a2, b2)->0 by {
        assert(l0_table(p1, root, a, b) is Some && l0_table(p1, root, a2, b2) is Some);
    }
}

/// Writing a non-pointer entry into a second-level table changes only that
/// 2 MiB slot; what was below it is no longer reached.
proof fn lemma_set_2m(p1: Map<u64, Seq<u64>>, root: u64, i: int, j: int, e: u64)
    requires
        tables_wf(p1, root),
        is_idx(i),
        is_idx(j),
        l1_table(p1, root, i) is Some,
        !spec_is_table(e),
    ensures
        ({
            let t1 = l1_table(p1, root, i)->0;
            let p2 = p1.insert(t1, p1[t1].update(j, e));
            &&& tables_wf(p2, root)
            &&& forall|a: int| #[trigger] l1_table(p2, root, a) == l1_table(p1, root, a)
            &&& l0_table(p2, root, i, j) is None
            &&& forall|a: int, b: int|
                is_idx(a) && is_idx(b) && (a != i || b != j) ==> #[trigger] l0_table(p2, root, a, b) == l0_table(
                    p1,
                    root,
                    a,
                    b,
                )
            &&& mapping_2m(p2, root, i, j) == leaf_of(e)
            &&& forall|a: int, b: int|
                is_idx(a) && is_idx(b) && (a != i || b != j) ==> #[trigger] mapping_2m(p2, root, a, b)
                    == mapping_2m(p1, root, a, b)
            &&& forall|c: int| #[trigger] mapping_4k(p2, root, i, j, c) is None
            &&& forall|a: int, b: int, c: int|
                is_idx(a) && is_idx(b) && is_idx(c) && (a != i || b != j)
                    ==> #[trigger] mapping_4k(p2, root, a, b, c) == mapping_4k(p1, root, a, b, c)
            &&& forall|a: int| #[trigger] is_idx(a) ==> mapping_1g(p2, root, a) == mapping_1g(p1, root, a)
        }),
{
    let t1 = l1_table(p1, root, i)->0;
    let p2 = p1.insert(t1, p1[t1].update(j, e));
    assert(t1 != root);
    assert(p2[root] == p1[root]);
    assert forall|a: int| #[trigger] l1_table(p2, root, a) == l1_table(p1, root, a) by {}
    assert(p2[t1][j] == e);
    assert(l0_table(p2, root, i, j) is None);
    assert forall|a: int, b: int| is_idx(a) && is_idx(b) && (a != i || b != j) implies #[trigger] l0_table(
        p2,
        root,
        a,
        b,
    ) == l0_table(p1, root, a, b) by {
        if l1_table(p1, root, a) is Some {
            let t = l1_table(p1, root, a)->0;
            if a != i {
                assert(t != t1);
                assert(p2[t] == p1[t]);
            } else {
                assert(p2[t1][b] == p1[t1][b]);
            }
        }
    }
    assert(mapping_2m(p2, root, i, j) == leaf_of(e));
    assert forall|a: int, b: int|
        is_idx(a) && is_idx(b) && (a != i || b != j) implies #[trigger] mapping_2m(p2, root, a, b)
        == mapping_2m(p1, root, a, b) by {
        if l1_table(p1, root, a) is Some {
            let t = l1_table(p1, root, a)->0;
            if a != i {
                assert(t != t1);
                assert(p2[t] == p1[t]);
            } else {
                assert(p2[t1][b] == p1[t1][b]);
            }
        }
    }
    assert forall|c: int| #[trigger] mapping_4k(p2, root, i, j, c) is None by {}
    assert forall|a: int, b: int, c: int|
        is_idx(a) && is_idx(b) && is_idx(c) && (a != i || b != j) implies #[trigger] mapping_4k(
        p2,
        root,
        a,
        b,
        c,
    ) == mapping_4k(p1, root, a, b, c) by {
        assert(l0_table(p2, root, a, b) == l0_table(p1, root, a, b));
        if l0_table(p1, root, a, b) is Some {
            let t = l0_table(p1, root, a, b)->0;
            assert(t != t1);
            assert(p2[t] == p1[t]);
        }
    }
    assert forall|a: int| #[trigger] is_idx(a) implies mapping_1g(p2, root, a) == mapping_1g(
        p1,
        root,
        a,
    ) by {}
    assert forall|a: int|
        #![trigger l1_table(p2, root, a)]
        is_idx(a) && l1_table(p2, root, a) is Some implies table_ok(
            p2,
            l1_table(p2, root, a)->0,
        ) && l1_table(p2, root, a)->0 != root by {
        assert(l1_table(p1, root, a) is Some);
    }
    assert forall|a: int, a2: int|
        #![trigger l1_table(p2, root, a), l1_table(p2, root, a2)]
        is_idx(a) && is_idx(a2) && a != a2 && l1_table(p2, root, a) is Some && l1_table(
            p2,
            root,
            a2,
        ) is Some implies l1_table(p2, root, a)->0 != l1_table(p2, root, a2)->0 by {
        assert(l1_table(p1, root, a) is Some && l1_table(p1, root, a2) is Some);
    }
    assert forall|a: int, b: int|
        #![trigger l0_table(p2, root, a, b)]
        is_idx(a) && is_idx(b) && l0_table(p2, root, a, b) is Some implies table_ok(
            p2,
            l0_table(p2, root, a, b)->0,
        ) && l0_table(p2, root, a, b)->0 != root by {
        assert(l0_table(p1, root, a, b) is Some);
        assert(l0_table(p1, root, a, b)->0 != t1);
    }
    assert forall|a: int, b: int, a2: int|
        #![trigger l0_table(p2, root, a, b), l1_table(p2, root, a2)]
        is_idx(a) && is_idx(b) && is_idx(a2) && l0_table(p2, root, a, b) is Some && l1_table(
            p2,
            root,
            a2,
        ) is Some implies l0_table(p2, root, a, b)->0 != l1_table(p2, root, a2)->0 by {
        assert(l0_table(p1, root, a, b) is Some && l1_table(p1, root, a2) is Some);
    }
    assert forall|a: int, b: int, a2: int, b2: int|
        #![trigger l0_table(p2, root, a, b), l0_table(p2, root, a2, b2)]
        is_idx(a) && is_idx(b) && is_idx(a2) && is_idx(b2) && (a != a2 || b != b2) && l0_table(
            p2,
            root,
            a,
            b,
        ) is Some && l0_table(p2, root, a2, b2) is Some implies l0_table(p2, root, a, b)->0
        != l0_table(p2, root, a2, b2)->0 by {
        assert(l0_table(p1, root, a, b) is Some && l0_table(p1, root, a2, b2) is Some);
    }
}


proof fn lemma_same_mappings_trans(
    p1: Map<u64, Seq<u64>>,
    p2: Map<u64, Seq<u64>>,
    p3: Map<u64, Seq<u64>>,
    root: u64,
)
    requires
        same_mappings(p1, root, p2, root),
        same_mappings(p2, root, p3, root),
    ensures
        same_mappings(p1, root, p3, root),
{
    assert forall|i: int| #[trigger] is_idx(i) implies mapping_1g(p3, root, i) == mapping_1g(
        p1,
        root,
        i,
    ) by {
        assert(mapping_1g(p2, root, i) == mapping_1g(p1, root, i));
    }
    assert forall|i: int, j: int| is_idx(i) && is_idx(j) implies #[trigger] mapping_2m(
        p3,
        root,
        i,
        j,
    ) == mapping_2m(p1, root, i, j) by {
        assert(mapping_2m(p2, root, i, j) == mapping_2m(p1, root, i, j));
    }
    assert forall|i: int, j: int, k: int|
        is_idx(i) && is_idx(j) && is_idx(k) implies #[trigger] mapping_4k(p3, root, i, j, k)
        == mapping_4k(p1, root, i, j, k) by {
        assert(mapping_4k(p2, root, i, j, k) == mapping_4k(p1, root, i, j, k));
    }
}

/// A root table of invalid entries is a well-formed, empty tree.
proof fn lemma_zero_root(pages: Map<u64, Seq<u64>>, root: u64)
    requires
        pages.contains_key(root),
        pages[root] == zero_table(),
    ensures
        tables_wf(pages, root),
        forall|i: int| #[trigger] is_idx(i) ==> l1_table(pages, root, i) is None,
        forall|i: int| #[trigger] is_idx(i) ==> mapping_1g(pages, root, i) is None,
        forall|i: int, j: int| is_idx(i) ==> #[trigger] mapping_2m(pages, root, i, j) is None,
        forall|i: int, j: int, k: int|
            is_idx(i) ==> #[trigger] mapping_4k(pages, root, i, j, k) is None,
{
    lemma_zero_entry();
    assert forall|i: int| is_idx(i) implies #[trigger] l1_table(pages, root, i) is None by {
        assert(pages[root][i] == 0u64);
    }
    assert forall|i: int| #[trigger] is_idx(i) implies mapping_1g(pages, root, i) is None by {
        assert(pages[root][i] == 0u64);
    }
    assert forall|i: int, j: int| is_idx(i) implies #[trigger] mapping_2m(pages, root, i, j) is None by {
        assert(l1_table(pages, root, i) is None);
    }
    assert forall|i: int, j: int, k: int| is_idx(i) implies #[trigger] mapping_4k(
        pages,
        root,
        i,
        j,
        k,
    ) is None by {
        assert(l1_table(pages, root, i) is None);
    }
}

/// The entry is a valid leaf.
pub open spec fn spec_is_leaf_entry(e: u64) -> bool {
    leaf_of(e) == Some(e)
}

/// The walk can go down to the last level exactly when no huge leaf is in
/// the way.
pub proof fn lemma_can_descend_2m(pages: Map<u64, Seq<u64>>, root: u64, i: int, j: int)
    ensures
        can_descend_2m(pages, root, i, j) <==> (mapping_1g(pages, root, i) is None && mapping_2m(
            pages,
            root,
            i,
            j,
        ) is None),
{
}

/// `p1` is `p0` with the 4 KiB slot `i`, `j`, `k` set to entry `e`, and
/// every other mapping unchanged.
pub open spec fn maps_4k(
    p0: Map<u64, Seq<u64>>,
    p1: Map<u64, Seq<u64>>,
    rt: u64,
    i: int,
    j: int,
    k: int,
    e: u64,
) -> bool {
    &&& mapping_4k(p1, rt, i, j, k) == leaf_of(e)
    &&& forall|a: int, b: int, c: int|
        is_idx(a) && is_idx(b) && is_idx(c) && (a != i || b != j || c != k)
            ==> #[trigger] mapping_4k(p1, rt, a, b, c) == mapping_4k(p0, rt, a, b, c)
    &&& forall|a: int, b: int|
        is_idx(a) && is_idx(b) ==> #[trigger] mapping_2m(p1, rt, a, b) == mapping_2m(p0, rt, a, b)
    &&& forall|a: int| #[trigger] is_idx(a) ==> mapping_1g(p1, rt, a) == mapping_1g(p0, rt, a)
}

/// A 4 KiB mapping stays what it was set to when another page is mapped
/// afterwards; when the same page is mapped again, the later entry wins.
pub proof fn lemma_mapping_survives(
    p0: Map<u64, Seq<u64>>,
    p1: Map<u64, Seq<u64>>,
    p2: Map<u64, Seq<u64>>,
    rt: u64,
    va1: u64,
    e1: u64,
    va2: u64,
    e2: u64,
)
    requires
        maps_4k(p0, p1, rt, vpn2_of(va1), vpn1_of(va1), vpn0_of(va1), e1),
        maps_4k(p1, p2, rt, vpn2_of(va2), vpn1_of(va2), vpn0_of(va2), e2),
    ensures
        mapping_4k(p2, rt, vpn2_of(va2), vpn1_of(va2), vpn0_of(va2)) == leaf_of(e2),
        (vpn2_of(va1), vpn1_of(va1), vpn0_of(va1)) != (vpn2_of(va2), vpn1_of(va2), vpn0_of(va2))
            ==> mapping_4k(p2, rt, vpn2_of(va1), vpn1_of(va1), vpn0_of(va1)) == leaf_of(e1),
{
    let (i, j, k) = (vpn2_of(va1), vpn1_of(va1), vpn0_of(va1));
    assert(is_idx(i) && is_idx(j) && is_idx(k));
    assert(mapping_4k(p2, rt, i, j, k) == mapping_4k(p2, rt, i, j, k));
}

/// `va` is an Sv39 address: bits 63 to 39 all copy bit 38.
pub open spec fn sv39_canonical(va: u64) -> bool {
    va < 0x40_0000_0000 || va >= 0xFFFF_FFC0_0000_0000
}

/// The physical address the hardware walk gives for `va`, or `None` for a
/// page fault. A misaligned huge page faults.
pub open spec fn translate(pages: Map<u64, Seq<u64>>, root: u64, va: u64) -> Option<int> {
    let (i, j, k) = (vpn2_of(va), vpn1_of(va), vpn0_of(va));
    if !sv39_canonical(va) {
        None
    } else {
        match mapping_1g(pages, root, i) {
            Some(e) => if spec_target(e) % 0x4000_0000 == 0 {
                Some(spec_target(e) + va % 0x4000_0000)
            } else {
                None
            },
            None => match mapping_2m(pages, root, i, j) {
                Some(e) => if spec_target(e) % 0x20_0000 == 0 {
                    Some(spec_target(e) + va % 0x20_0000)
                } else {
                    None
                },
                None => match mapping_4k(pages, root, i, j, k) {
                    Some(e) => Some(spec_target(e) + va % 0x1000),
                    None => None,
                },
            },
        }
    }
}

/// After a page is mapped with a leaf entry (where no huge page covered
/// it), every address in it translates to the same offset in the entry's
/// frame, and addresses in other pages translate as before.
pub proof fn lemma_translate_after_map_4k(
    p0: Map<u64, Seq<u64>>,
    p1: Map<u64, Seq<u64>>,
    rt: u64,
    va: u64,
    e: u64,
)
    requires
        maps_4k(p0, p1, rt, vpn2_of(va), vpn1_of(va), vpn0_of(va), e),
        can_descend_2m(p0, rt, vpn2_of(va), vpn1_of(va)),
        spec_is_valid(e) && spec_is_leaf(e),
    ensures
        forall|va2: u64|
            #![trigger translate(p1, rt, va2)]
            sv39_canonical(va2) && (vpn2_of(va2), vpn1_of(va2), vpn0_of(va2)) == (
                vpn2_of(va),
                vpn1_of(va),
                vpn0_of(va),
            ) ==> translate(p1, rt, va2) == Some(spec_target(e) + va2 % 0x1000),
        forall|va2: u64|
            #![trigger translate(p1, rt, va2)]
            (vpn2_of(va2), vpn1_of(va2), vpn0_of(va2)) != (vpn2_of(va), vpn1_of(va), vpn0_of(va))
                ==> translate(p1, rt, va2) == translate(p0, rt, va2),
{
    let (i, j, k) = (vpn2_of(va), vpn1_of(va), vpn0_of(va));
    lemma_can_descend_2m(p0, rt, i, j);
    assert(is_idx(i) && is_idx(j) && is_idx(k));
    assert(mapping_1g(p1, rt, i) == mapping_1g(p0, rt, i));
    assert(mapping_2m(p1, rt, i, j) == mapping_2m(p0, rt, i, j));
    assert forall|va2: u64|
        #![trigger translate(p1, rt, va2)]
        (vpn2_of(va2), vpn1_of(va2), vpn0_of(va2)) != (vpn2_of(va), vpn1_of(va), vpn0_of(va))
        implies translate(p1, rt, va2) == translate(p0, rt, va2) by {
        let (a, b, c) = (vpn2_of(va2), vpn1_of(va2), vpn0_of(va2));
        assert(is_idx(a) && is_idx(b) && is_idx(c));
        assert(mapping_1g(p1, rt, a) == mapping_1g(p0, rt, a));
        assert(mapping_2m(p1, rt, a, b) == mapping_2m(p0, rt, a, b));
        assert(mapping_4k(p1, rt, a, b, c) == mapping_4k(p0, rt, a, b, c));
    }
}

/// The table memory `p` once root entry `i`, where it was invalid, points to
/// a fresh zeroed table at `l1`; unchanged where the entry was valid.
pub open spec fn with_path_1g(p: Map<u64, Seq<u64>>, root: u64, i: int, l1: u64) -> Map<u64, Seq<u64>> {
    if spec_is_valid(p[root][i]) {
        p
    } else {
        p.insert(l1, zero_table()).insert(root, p[root].update(i, spec_for_ppn(l1 / 4096)))
    }
}

/// The table memory `p` once the walk for `i`, `j` goes through tables at
/// `l1` and `l0`: each entry on the way that was invalid now points to a
/// fresh zeroed table; nothing else changes.
pub open spec fn with_path_2m(
    p: Map<u64, Seq<u64>>,
    root: u64,
    i: int,
    j: int,
    l1: u64,
    l0: u64,
) -> Map<u64, Seq<u64>> {
    let p1 = with_path_1g(p, root, i, l1);
    if spec_is_valid(p1[l1][j]) {
        p1
    } else {
        p1.insert(l0, zero_table()).insert(l1, p1[l1].update(j, spec_for_ppn(l0 / 4096)))
    }
}

/// Once the walk for root index `i` reaches a table, a second lookup for the
/// same 1 GiB slot needs no page, may descend, changes nothing and gives the
/// same table.
pub proof fn lemma_lookup_1g_again(
    p1: Map<u64, Seq<u64>>,
    p2: Map<u64, Seq<u64>>,
    rt: u64,
    i: int,
    t1: u64,
    t2: u64,
)
    requires
        l1_table(p1, rt, i) == Some(t1),
        p2 == with_path_1g(p1, rt, i, t2),
        l1_table(p2, rt, i) == Some(t2),
    ensures
        pages_needed_1g(p1, rt, i) == 0,
        can_descend_1g(p1, rt, i),
        p2 == p1,
        t2 == t1,
{
}

/// `p1` holds every page `p0` held, and every table of the tree in `p1` is
/// the table at the same place in `p0` or a page that `p0` did not hold.
pub open spec fn tables_from(p0: Map<u64, Seq<u64>>, p1: Map<u64, Seq<u64>>, root: u64) -> bool {
    &&& forall|a: u64| p0.contains_key(a) ==> #[trigger] p1.contains_key(a)
    &&& forall|i: int|
        #![trigger l1_table(p1, root, i)]
        is_idx(i) && l1_table(p1, root, i) is Some ==> l1_table(p1, root, i) == l1_table(p0, root, i)
            || !p0.contains_key(l1_table(p1, root, i)->0)
    &&& forall|i: int, j: int|
        #![trigger l0_table(p1, root, i, j)]
        is_idx(i) && is_idx(j) && l0_table(p1, root, i, j) is Some ==> l0_table(p1, root, i, j)
            == l0_table(p0, root, i, j) || !p0.contains_key(l0_table(p1, root, i, j)->0)
}

/// Neither the root nor any table of the tree in `pages` is a page of `held`.
pub open spec fn tree_outside(pages: Map<u64, Seq<u64>>, root: u64, held: Map<u64, Seq<u64>>) -> bool {
    &&& !held.contains_key(root)
    &&& forall|i: int|
        #![trigger l1_table(pages, root, i)]
        is_idx(i) && l1_table(pages, root, i) is Some ==> !held.contains_key(l1_table(pages, root, i)->0)
    &&& forall|i: int, j: int|
        #![trigger l0_table(pages, root, i, j)]
        is_idx(i) && is_idx(j) && l0_table(pages, root, i, j) is Some ==> !held.contains_key(
            l0_table(pages, root, i, j)->0,
        )
}

/// A tree grown from an empty root that `held` did not hold uses no page of
/// `held`.
pub proof fn lemma_grown_tree_outside(
    held: Map<u64, Seq<u64>>,
    p0: Map<u64, Seq<u64>>,
    p1: Map<u64, Seq<u64>>,
    root: u64,
)
    requires
        !held.contains_key(root),
        p0 == held.insert(root, zero_table()),
        tables_from(p0, p1, root),
    ensures
        tree_outside(p1, root, held),
        forall|a: u64| held.contains_key(a) ==> #[trigger] p1.contains_key(a),
{
    lemma_zero_entry();
    assert forall|i: int| #[trigger] is_idx(i) implies l1_table(p0, root, i) is None by {
        assert(p0[root][i] == 0u64);
    }
    assert forall|i: int|
        #![trigger l1_table(p1, root, i)]
        is_idx(i) && l1_table(p1, root, i) is Some implies !held.contains_key(l1_table(p1, root, i)->0) by {
        assert(l1_table(p0, root, i) is None);
    }
    assert forall|i: int, j: int|
        #![trigger l0_table(p1, root, i, j)]
        is_idx(i) && is_idx(j) && l0_table(p1, root, i, j) is Some implies !held.contains_key(
            l0_table(p1, root, i, j)->0,
        ) by {
        assert(l1_table(p0, root, i) is None);
    }
    assert forall|a: u64| held.contains_key(a) implies #[trigger] p1.contains_key(a) by {
        assert(p0.contains_key(a));
    }
}

/// Nothing changes between a memory and itself.
pub proof fn lemma_tables_from_refl(p: Map<u64, Seq<u64>>, root: u64)
    ensures
        tables_from(p, p, root),
{
}

/// Where each step keeps or adds tables, so does the whole way.
pub proof fn lemma_tables_from_trans(
    p0: Map<u64, Seq<u64>>,
    p1: Map<u64, Seq<u64>>,
    p2: Map<u64, Seq<u64>>,
    root: u64,
)
    requires
        tables_from(p0, p1, root),
        tables_from(p1, p2, root),
    ensures
        tables_from(p0, p2, root),
{
    assert forall|i: int|
        #![trigger l1_table(p2, root, i)]
        is_idx(i) && l1_table(p2, root, i) is Some implies l1_table(p2, root, i) == l1_table(p0, root, i)
        || !p0.contains_key(l1_table(p2, root, i)->0) by {
        if l1_table(p2, root, i) == l1_table(p1, root, i) {
            assert(l1_table(p1, root, i) is Some);
        }
    }
    assert forall|i: int, j: int|
        #![trigger l0_table(p2, root, i, j)]
        is_idx(i) && is_idx(j) && l0_table(p2, root, i, j) is Some implies l0_table(p2, root, i, j)
        == l0_table(p0, root, i, j) || !p0.contains_key(l0_table(p2, root, i, j)->0) by {
        if l0_table(p2, root, i, j) == l0_table(p1, root, i, j) {
            assert(l0_table(p1, root, i, j) is Some);
        }
    }
}

/// Pages that `lookup_1g` has to allocate.
pub open spec fn pages_needed_1g(pages: Map<u64, Seq<u64>>, root: u64, i: int) -> nat {
    if spec_is_valid(pages[root][i]) {
        0
    } else {
        1
    }
}

/// Pages that `lookup_2m` has to allocate.
pub open spec fn pages_needed_2m(pages: Map<u64, Seq<u64>>, root: u64, i: int, j: int) -> nat {
    if !spec_is_valid(pages[root][i]) {
        2
    } else if spec_is_valid(pages[spec_target(pages[root][i])][j]) {
        0
    } else {
        1
    }
}

/// Root entry `i` is not a 1 GiB leaf, so the walk can go below it.
pub open spec fn can_descend_1g(pages: Map<u64, Seq<u64>>, root: u64, i: int) -> bool {
    !(spec_is_valid(pages[root][i]) && spec_is_leaf(pages[root][i]))
}

/// Neither entry on the way to the last-level table for `i`, `j` is a leaf.
pub open spec fn can_descend_2m(pages: Map<u64, Seq<u64>>, root: u64, i: int, j: int) -> bool {
    &&& can_descend_1g(pages, root, i)
    &&& spec_is_valid(pages[root][i]) ==> !(spec_is_valid(
        pages[spec_target(pages[root][i])][j],
    ) && spec_is_leaf(pages[spec_target(pages[root][i])][j]))
}

impl PageTableEntry {
    /// The table this (pointer) entry refers to.
    pub fn descending_page_table(self) -> (pt: PageTable)
        requires
            spec_is_valid(self.0),
            !spec_is_leaf(self.0),
        ensures
            pt.0.0 == spec_target(self.0),
    {
        PageTable(self.descending_page())
    }
}

impl PageTable {
    /// Sets all 512 entries of the table to zero.
    fn clear<M: PageManager>(self, manager: &mut M) -> (r: Self)
        requires
            table_ok(old(manager).pages(), self.0.0),
        ensures
            r == self,
            final(manager).pages() == old(manager).pages().insert(self.0.0, zero_table()),
            final(manager).free_pages() == old(manager).free_pages(),
    {
        let ghost t = self.0.0;
        let mut i: usize = 0;
        while i < 512
            invariant
                0 <= i <= 512,
                t == self.0.0,
                old(manager).pages().contains_key(t),
                manager.pages().contains_key(t),
                manager.pages() == old(manager).pages().insert(t, manager.pages()[t]),
                manager.pages()[t].len() == 512,
                forall|k: int| 0 <= k < i ==> manager.pages()[t][k] == 0u64,
                manager.free_pages() == old(manager).free_pages(),
            decreases 512 - i,
        {
            manager.write_entry(self.0, i, PageTableEntry(0));
            assert(manager.pages() =~= old(manager).pages().insert(t, manager.pages()[t]));
            i += 1;
        }
        assert(manager.pages()[t] =~= zero_table());
        assert(manager.pages() =~= old(manager).pages().insert(t, zero_table()));
        self
    }
}

impl<M: PageManager> RootPageTable<M> {
    /// Physical address of the root table.
    pub closed spec fn root(&self) -> u64 {
        self.inner.0.0
    }

    /// The memory manager.
    pub closed spec fn manager(&self) -> M {
        self.manager
    }

    pub open spec fn pages(&self) -> Map<u64, Seq<u64>> {
        self.manager().pages()
    }

    pub open spec fn free_pages(&self) -> nat {
        self.manager().free_pages()
    }

    pub open spec fn wf(&self) -> bool {
        tables_wf(self.pages(), self.root())
    }

    /// A page table rooted at the existing table `root`.
    pub fn new(root: PhysAddr, manager: M) -> (r: RootPageTable<M>)
        ensures
            r.root() == root.0,
            r.manager() == manager,
            manager.pages().contains_key(root.0) && manager.pages()[root.0] == zero_table() ==> {
                &&& r.wf()
                &&& forall|i: int| #[trigger] is_idx(i) ==> mapping_1g(r.pages(), r.root(), i) is None
                &&& forall|i: int, j: int| is_idx(i) ==> #[trigger] mapping_2m(r.pages(), r.root(), i, j) is None
                &&& forall|i: int, j: int, k: int|
                    is_idx(i) ==> #[trigger] mapping_4k(r.pages(), r.root(), i, j, k) is None
            },
    {
        proof {
            if manager.pages().contains_key(root.0) && manager.pages()[root.0] == zero_table() {
                lemma_zero_root(manager.pages(), root.0);
            }
        }
        RootPageTable { inner: PageTable(root), manager }
    }

    /// A page table rooted at `root`, whose entries are first cleared.
    pub fn new_zeroed(root: PhysAddr, manager: M) -> (r: RootPageTable<M>)
        requires
            table_ok(manager.pages(), root.0),
        ensures
            r.root() == root.0,
            r.pages() == manager.pages().insert(root.0, zero_table()),
            r.free_pages() == manager.free_pages(),
            r.wf(),
            forall|i: int| #[trigger] is_idx(i) ==> mapping_1g(r.pages(), r.root(), i) is None,
            forall|i: int, j: int| is_idx(i) ==> #[trigger] mapping_2m(r.pages(), r.root(), i, j) is None,
            forall|i: int, j: int, k: int|
                is_idx(i) ==> #[trigger] mapping_4k(r.pages(), r.root(), i, j, k) is None,
    {
        let mut manager = manager;
        let inner = PageTable(root);
        inner.clear(&mut manager);
        proof {
            lemma_zero_root(manager.pages(), root.0);
        }
        RootPageTable { inner, manager }
    }

    /// Allocates and clears a root table from `manager`.
    pub fn allocate_from(manager: M) -> (r: RootPageTable<M>)
        requires
            manager.free_pages() > 0,
        ensures
            !manager.pages().contains_key(r.root()),
            r.pages() == manager.pages().insert(r.root(), zero_table()),
            r.free_pages() == manager.free_pages() - 1,
            r.wf(),
            forall|i: int| #[trigger] is_idx(i) ==> mapping_1g(r.pages(), r.root(), i) is None,
            forall|i: int, j: int| is_idx(i) ==> #[trigger] mapping_2m(r.pages(), r.root(), i, j) is None,
            forall|i: int, j: int, k: int|
                is_idx(i) ==> #[trigger] mapping_4k(r.pages(), r.root(), i, j, k) is None,
    {
        let mut manager = manager;
        let ghost p0 = manager.pages();
        let rpt_phys_addr = manager.alloc_physical_page();
        let r = Self::new_zeroed(rpt_phys_addr, manager);
        assert(r.pages() =~= p0.insert(r.root(), zero_table()));
        r
    }

    /// Allocates a fresh table page and clears it.
    fn alloc_page_table(&mut self) -> (r: (PageTable, PhysAddr))
        requires
            old(self).free_pages() > 0,
        ensures
            r.0.0 == r.1,
            r.1.0 % 4096 == 0,
            r.1.0 < 0x100_0000_0000_0000,
            !old(self).pages().contains_key(r.1.0),
            final(self).pages() == old(self).pages().insert(r.1.0, zero_table()),
            final(self).free_pages() == old(self).free_pages() - 1,
            final(self).root() == old(self).root(),
    {
        let ghost p0 = self.manager.pages();
        let page_addr = self.manager.alloc_physical_page();
        let pt = PageTable(page_addr).clear(&mut self.manager);
        assert(self.manager.pages() =~= p0.insert(page_addr.0, zero_table()));
        (pt, page_addr)
    }

    /// The second-level table covering `addr`, created if missing.
    pub fn lookup_1g(&mut self, addr: VirtAddr) -> (pt: PageTable)
        requires
            old(self).wf(),
            can_descend_1g(old(self).pages(), old(self).root(), vpn2_of(addr.0)),
            old(self).free_pages() >= pages_needed_1g(
                old(self).pages(),
                old(self).root(),
                vpn2_of(addr.0),
            ),
        ensures
            final(self).wf(),
            final(self).root() == old(self).root(),
            l1_table(final(self).pages(), final(self).root(), vpn2_of(addr.0)) == Some(pt.0.0),
            same_mappings(old(self).pages(), old(self).root(), final(self).pages(), final(self).root()),
            final(self).free_pages() == old(self).free_pages() - pages_needed_1g(
                old(self).pages(),
                old(self).root(),
                vpn2_of(addr.0),
            ),
            final(self).pages() == with_path_1g(old(self).pages(), old(self).root(), vpn2_of(addr.0), pt.0.0),
            !spec_is_valid(old(self).pages()[old(self).root()][vpn2_of(addr.0)]) ==> !old(self).pages().contains_key(pt.0.0),
            tables_from(old(self).pages(), final(self).pages(), old(self).root()),
    {
        let ghost p0 = self.manager.pages();
        let ghost root = self.inner.0.0;
        let idx = addr.vpn2();
        let pte2 = self.manager.read_entry(self.inner.0, idx);
        if !pte2.is_valid() {
            let (pt1, pt1_addr) = self.alloc_page_table();
            let ghost p = pt1_addr.0;
            let ghost p1 = p0.insert(p, zero_table());
            let e = PageTableEntry::for_phys(pt1_addr);
            proof {
                lemma_fresh_page(p0, root, p, zero_table());
                assert(p1[root] == p0[root]);
                lemma_link_l1(p1, root, idx as int, p, e.0);
            }
            self.manager.write_entry(self.inner.0, idx, e);
            proof {
                lemma_same_mappings_trans(p0, p1, self.manager.pages(), root);
                assert(self.manager.pages()[p] == p1[p]);
                assert(self.manager.pages() =~= with_path_1g(p0, root, idx as int, p));
                let p2 = self.manager.pages();
                assert forall|k: int|
                    #![trigger l1_table(p2, root, k)]
                    is_idx(k) && l1_table(p2, root, k) is Some implies l1_table(p2, root, k) == l1_table(p0, root, k)
                    || !p0.contains_key(l1_table(p2, root, k)->0) by {
                    if k != idx {
                        assert(l1_table(p1, root, k) == l1_table(p0, root, k));
                    }
                }
                assert forall|k: int, m: int|
                    #![trigger l0_table(p2, root, k, m)]
                    is_idx(k) && is_idx(m) && l0_table(p2, root, k, m) is Some implies l0_table(p2, root, k, m)
                    == l0_table(p0, root, k, m) || !p0.contains_key(l0_table(p2, root, k, m)->0) by {
                    assert(k != idx);
                    assert(l0_table(p1, root, k, m) == l0_table(p0, root, k, m));
                }
            }
            pt1
        } else {
            proof {
                assert(same_mappings(p0, root, p0, root));
                lemma_tables_from_refl(p0, root);
            }
            pte2.descending_page_table()
        }
    }

    /// The last-level table covering `addr`, created if missing.
    pub fn lookup_2m(&mut self, addr: VirtAddr) -> (pt: PageTable)
        requires
            old(self).wf(),
            can_descend_2m(old(self).pages(), old(self).root(), vpn2_of(addr.0), vpn1_of(addr.0)),
            old(self).free_pages() >= pages_needed_2m(
                old(self).pages(),
                old(self).root(),
                vpn2_of(addr.0),
                vpn1_of(addr.0),
            ),
        ensures
            final(self).wf(),
            final(self).root() == old(self).root(),
            l0_table(final(self).pages(), final(self).root(), vpn2_of(addr.0), vpn1_of(addr.0))
                == Some(pt.0.0),
            same_mappings(old(self).pages(), old(self).root(), final(self).pages(), final(self).root()),
            final(self).free_pages() == old(self).free_pages() - pages_needed_2m(
                old(self).pages(),
                old(self).root(),
                vpn2_of(addr.0),
                vpn1_of(addr.0),
            ),
            ({
                let (p0, rt, i, j) = (old(self).pages(), old(self).root(), vpn2_of(addr.0), vpn1_of(addr.0));
                let l1 = l1_table(final(self).pages(), rt, i)->0;
                &&& l1_table(final(self).pages(), rt, i) is Some
                &&& final(self).pages() == with_path_2m(p0, rt, i, j, l1, pt.0.0)
                &&& !spec_is_valid(p0[rt][i]) ==> !p0.contains_key(l1) && l1 != pt.0.0
                &&& !spec_is_valid(with_path_1g(p0, rt, i, l1)[l1][j]) ==> !p0.contains_key(pt.0.0)
            }),
            tables_from(old(self).pages(), final(self).pages(), old(self).root()),
    {
        let ghost p0 = self.manager.pages();
        let ghost root = self.inner.0.0;
        let pt2 = self.lookup_1g(addr);
        let ghost p1 = self.manager.pages();
        let idx = addr.vpn1();
        proof {
            lemma_zero_entry();
            if !spec_is_valid(p0[root][vpn2_of(addr.0)]) {
                assert(p1[pt2.0.0][idx as int] == 0u64);
            }
        }
        let pte1 = self.manager.read_entry(pt2.0, idx);
        if !pte1.is_valid() {
            let (pt0, pt0_addr) = self.alloc_page_table();
            let ghost p = pt0_addr.0;
            let ghost p2 = p1.insert(p, zero_table());
            let e = PageTableEntry::for_phys(pt0_addr);
            proof {
                lemma_fresh_page(p1, root, p, zero_table());
                assert(l1_table(p2, root, vpn2_of(addr.0)) == Some(pt2.0.0));
                assert(p2[pt2.0.0] == p1[pt2.0.0]);
                lemma_link_l0(p2, root, vpn2_of(addr.0), idx as int, p, e.0);
            }
            self.manager.write_entry(pt2.0, idx, e);
            proof {
                lemma_same_mappings_trans(p0, p1, p2, root);
                lemma_same_mappings_trans(p0, p2, self.manager.pages(), root);
                let p3 = self.manager.pages();
                assert(p3[root] == p1[root]);
                assert(l1_table(p3, root, vpn2_of(addr.0)) == l1_table(p1, root, vpn2_of(addr.0)));
                assert(p3 =~= with_path_2m(p0, root, vpn2_of(addr.0), idx as int, pt2.0.0, p));
                assert(forall|a: u64| p0.contains_key(a) ==> p1.contains_key(a));
                let (i, j) = (vpn2_of(addr.0), idx as int);
                assert forall|k: int|
                    #![trigger l1_table(p3, root, k)]
                    is_idx(k) && l1_table(p3, root, k) is Some implies l1_table(p3, root, k) == l1_table(p1, root, k)
                    || !p1.contains_key(l1_table(p3, root, k)->0) by {
                    assert(l1_table(p2, root, k) == l1_table(p1, root, k));
                }
                assert forall|k: int, m: int|
                    #![trigger l0_table(p3, root, k, m)]
                    is_idx(k) && is_idx(m) && l0_table(p3, root, k, m) is Some implies l0_table(p3, root, k, m)
                    == l0_table(p1, root, k, m) || !p1.contains_key(l0_table(p3, root, k, m)->0) by {
                    if k != i || m != j {
                        assert(l0_table(p2, root, k, m) == l0_table(p1, root, k, m));
                    }
                }
                assert(tables_from(p1, p3, root));
                lemma_tables_from_trans(p0, p1, p3, root);
            }
            pt0
        } else {
            proof {
                assert(p1 == p0);
                lemma_same_mappings_trans(p0, p1, p1, root);
            }
            pte1.descending_page_table()
        }
    }

    /// Maps the 2 MiB page at `src` with the leaf entry `pte`.
    pub fn map_2m(&mut self, src: VirtAddr, pte: PageTableEntry)
        requires
            old(self).wf(),
            vpn0_of(src.0) == 0,
            src.0 % 4096 == 0,
            can_descend_1g(old(self).pages(), old(self).root(), vpn2_of(src.0)),
            old(self).free_pages() >= pages_needed_1g(
                old(self).pages(),
                old(self).root(),
                vpn2_of(src.0),
            ),
        ensures
            final(self).root() == old(self).root(),
            final(self).free_pages() == old(self).free_pages() - pages_needed_1g(
                old(self).pages(),
                old(self).root(),
                vpn2_of(src.0),
            ),
            l1_table(final(self).pages(), final(self).root(), vpn2_of(src.0)) is Some,
            final(self).pages()[l1_table(
                final(self).pages(),
                final(self).root(),
                vpn2_of(src.0),
            )->0][vpn1_of(src.0)] == pte.0,
            ({
                let (p0, rt, i) = (old(self).pages(), old(self).root(), vpn2_of(src.0));
                let l1 = l1_table(final(self).pages(), rt, i)->0;
                let mid = with_path_1g(p0, rt, i, l1);
                &&& final(self).pages() == mid.insert(l1, mid[l1].update(vpn1_of(src.0), pte.0))
                &&& !spec_is_valid(p0[rt][i]) ==> !p0.contains_key(l1)
            }),
            !spec_is_table(pte.0) ==> {
                let (p0, p1, r, i, j) = (
                    old(self).pages(),
                    final(self).pages(),
                    old(self).root(),
                    vpn2_of(src.0),
                    vpn1_of(src.0),
                );
                &&& final(self).wf()
                &&& mapping_2m(p1, r, i, j) == leaf_of(pte.0)
                &&& forall|a: int, b: int|
                    is_idx(a) && is_idx(b) && (a != i || b != j) ==> #[trigger] mapping_2m(p1, r, a, b)
                        == mapping_2m(p0, r, a, b)
                &&& forall|c: int| #[trigger] mapping_4k(p1, r, i, j, c) is None
                &&& forall|a: int, b: int, c: int|
                    is_idx(a) && is_idx(b) && is_idx(c) && (a != i || b != j)
                        ==> #[trigger] mapping_4k(p1, r, a, b, c) == mapping_4k(p0, r, a, b, c)
                &&& forall|a: int| #[trigger] is_idx(a) ==> mapping_1g(p1, r, a) == mapping_1g(p0, r, a)
                &&& tables_from(p0, p1, r)
            },
    {
        let ghost p0 = self.manager.pages();
        let ghost root = self.inner.0.0;
        let pt2 = self.lookup_1g(src);
        let ghost p1 = self.manager.pages();
        let idx = src.vpn1();
        proof {
            assert(pt2.0.0 != root);
            if !spec_is_table(pte.0) {
                lemma_set_2m(p1, root, vpn2_of(src.0), idx as int, pte.0);
            }
        }
        self.manager.write_entry(pt2.0, idx, pte);
        proof {
            let p2 = self.manager.pages();
            assert(p2[root] == p1[root]);
            assert(l1_table(p2, root, vpn2_of(src.0)) == l1_table(p1, root, vpn2_of(src.0)));
            if !spec_is_table(pte.0) {
                let i = vpn2_of(src.0);
                let j = idx as int;
                assert forall|a: int, b: int|
                    is_idx(a) && is_idx(b) && (a != i || b != j) implies #[trigger] mapping_2m(
                    p2,
                    root,
                    a,
                    b,
                ) == mapping_2m(p0, root, a, b) by {
                    assert(mapping_2m(p2, root, a, b) == mapping_2m(p1, root, a, b));
                    assert(mapping_2m(p1, root, a, b) == mapping_2m(p0, root, a, b));
                }
                assert forall|a: int, b: int, c: int|
                    is_idx(a) && is_idx(b) && is_idx(c) && (a != i || b != j) implies #[trigger] mapping_4k(
                    p2,
                    root,
                    a,
                    b,
                    c,
                ) == mapping_4k(p0, root, a, b, c) by {
                    assert(mapping_4k(p2, root, a, b, c) == mapping_4k(p1, root, a, b, c));
                    assert(mapping_4k(p1, root, a, b, c) == mapping_4k(p0, root, a, b, c));
                }
                assert forall|a: int| #[trigger] is_idx(a) implies mapping_1g(p2, root, a)
                    == mapping_1g(p0, root, a) by {
                    assert(mapping_1g(p1, root, a) == mapping_1g(p0, root, a));
                }
                assert(tables_from(p1, p2, root));
                lemma_tables_from_trans(p0, p1, p2, root);
            }
        }
    }

    /// Maps the 4 KiB page at `src` with the leaf entry `pte`.
    pub fn map_4k(&mut self, src: VirtAddr, pte: PageTableEntry)
        requires
            old(self).wf(),
            src.0 % 4096 == 0,
            can_descend_2m(old(self).pages(), old(self).root(), vpn2_of(src.0), vpn1_of(src.0)),
            old(self).free_pages() >= pages_needed_2m(
                old(self).pages(),
                old(self).root(),
                vpn2_of(src.0),
                vpn1_of(src.0),
            ),
        ensures
            final(self).wf(),
            final(self).root() == old(self).root(),
            final(self).free_pages() == old(self).free_pages() - pages_needed_2m(
                old(self).pages(),
                old(self).root(),
                vpn2_of(src.0),
                vpn1_of(src.0),
            ),
            maps_4k(
                old(self).pages(),
                final(self).pages(),
                old(self).root(),
                vpn2_of(src.0),
                vpn1_of(src.0),
                vpn0_of(src.0),
                pte.0,
            ),
            l0_table(final(self).pages(), final(self).root(), vpn2_of(src.0), vpn1_of(src.0)) is Some,
            ({
                let (p0, rt, i, j) = (old(self).pages(), old(self).root(), vpn2_of(src.0), vpn1_of(src.0));
                let l1 = l1_table(final(self).pages(), rt, i)->0;
                let l0 = l0_table(final(self).pages(), rt, i, j)->0;
                let mid = with_path_2m(p0, rt, i, j, l1, l0);
                &&& final(self).pages() == mid.insert(l0, mid[l0].update(vpn0_of(src.0), pte.0))
                &&& !spec_is_valid(p0[rt][i]) ==> !p0.contains_key(l1) && l1 != l0
                &&& !spec_is_valid(with_path_1g(p0, rt, i, l1)[l1][j]) ==> !p0.contains_key(l0)
            }),
            tables_from(old(self).pages(), final(self).pages(), old(self).root()),
    {
        let ghost p0 = self.manager.pages();
        let ghost root = self.inner.0.0;
        let pt1 = self.lookup_2m(src);
        let ghost p1 = self.manager.pages();
        let idx = src.vpn0();
        proof {
            lemma_set_4k(p1, root, vpn2_of(src.0), vpn1_of(src.0), idx as int, pte.0);
        }
        self.manager.write_entry(pt1.0, idx, pte);
        proof {
            let p2 = self.manager.pages();
            let (i, j, k) = (vpn2_of(src.0), vpn1_of(src.0), idx as int);
            assert(tables_from(p1, p2, root));
            lemma_tables_from_trans(p0, p1, p2, root);
            assert forall|a: int, b: int, c: int|
                is_idx(a) && is_idx(b) && is_idx(c) && (a != i || b != j || c != k) implies #[trigger] mapping_4k(
                p2,
                root,
                a,
                b,
                c,
            ) == mapping_4k(p0, root, a, b, c) by {
                assert(mapping_4k(p2, root, a, b, c) == mapping_4k(p1, root, a, b, c));
                assert(mapping_4k(p1, root, a, b, c) == mapping_4k(p0, root, a, b, c));
            }
            assert forall|a: int, b: int| is_idx(a) && is_idx(b) implies #[trigger] mapping_2m(
                p2,
                root,
                a,
                b,
            ) == mapping_2m(p0, root, a, b) by {
                assert(mapping_2m(p2, root, a, b) == mapping_2m(p1, root, a, b));
                assert(mapping_2m(p1, root, a, b) == mapping_2m(p0, root, a, b));
            }
            assert forall|a: int| #[trigger] is_idx(a) implies mapping_1g(p2, root, a) == mapping_1g(
                p0,
                root,
                a,
            ) by {
                assert(mapping_1g(p1, root, a) == mapping_1g(p0, root, a));
            }
        }
    }

    /// How many table pages mapping a 4 KiB page at `va` would allocate, or
    /// `None` where a 1 GiB or 2 MiB leaf is in the way.
    pub fn pages_needed_4k(&self, va: VirtAddr) -> (r: Option<u64>)
        requires
            self.wf(),
        ensures
            r == (if can_descend_2m(self.pages(), self.root(), vpn2_of(va.0), vpn1_of(va.0)) {
                Some(pages_needed_2m(self.pages(), self.root(), vpn2_of(va.0), vpn1_of(va.0)) as u64)
            } else {
                None::<u64>
            }),
    {
        let e2 = self.manager.read_entry(self.inner.0, va.vpn2());
        if !e2.is_valid() {
            Some(2)
        } else if e2.is_leaf() {
            None
        } else {
            let t1 = e2.descending_page_table();
            proof {
                assert(l1_table(self.pages(), self.root(), vpn2_of(va.0)) == Some(t1.0.0));
            }
            let e1 = self.manager.read_entry(t1.0, va.vpn1());
            if !e1.is_valid() {
                Some(1)
            } else if e1.is_leaf() {
                None
            } else {
                Some(0)
            }
        }
    }

    /// Like [`Self::map_4k`], but reports instead of failing when a huge
    /// page is in the way or the manager has too few pages left; the table
    /// is then left unchanged.
    pub fn try_map_4k(&mut self, src: VirtAddr, pte: PageTableEntry) -> (r: Result<(), MapError>)
        requires
            old(self).wf(),
            src.0 % 4096 == 0,
        ensures
            final(self).wf(),
            final(self).root() == old(self).root(),
            ({
                let (p0, p1, rt, i, j, k) = (
                    old(self).pages(),
                    final(self).pages(),
                    old(self).root(),
                    vpn2_of(src.0),
                    vpn1_of(src.0),
                    vpn0_of(src.0),
                );
                match r {
                    Ok(()) => {
                        &&& can_descend_2m(p0, rt, i, j)
                        &&& old(self).free_pages() >= pages_needed_2m(p0, rt, i, j)
                        &&& final(self).free_pages() == old(self).free_pages() - pages_needed_2m(
                            p0,
                            rt,
                            i,
                            j,
                        )
                        &&& maps_4k(p0, p1, rt, i, j, k, pte.0)
                        &&& l0_table(p1, rt, i, j) is Some
                        &&& tables_from(p0, p1, rt)
                    },
                    Err(MapError::HugePageInTheWay) => {
                        &&& !can_descend_2m(p0, rt, i, j)
                        &&& final(self).manager() == old(self).manager()
                    },
                    Err(MapError::OutOfTablePages) => {
                        &&& can_descend_2m(p0, rt, i, j)
                        &&& old(self).free_pages() < pages_needed_2m(p0, rt, i, j)
                        &&& final(self).manager() == old(self).manager()
                    },
                }
            }),
    {
        match self.pages_needed_4k(src) {
            None => Err(MapError::HugePageInTheWay),
            Some(needed) => {
                if self.manager.free_page_count() < needed {
                    Err(MapError::OutOfTablePages)
                } else {
                    self.map_4k(src, pte);
                    Ok(())
                }
            },
        }
    }

    /// The root table.
    pub fn root_table(&self) -> (t: PageTable)
        ensures
            t.0.0 == self.root(),
    {
        self.inner
    }

    /// Gives the memory manager back.
    pub fn into_manager(self) -> (m: M)
        ensures
            m == self.manager(),
    {
        self.manager
    }
}

} // verus!
