//! A bump allocator of page-table pages over a contiguous physical region,
//! as used to build the boot page tables of an enclave.
use vstd::prelude::*;
use crate::addr::{PhysAddr, PAGE_SIZE};
use crate::pagetable::{PageManager, zero_table};
use crate::pte::PageTableEntry;

verus! {

/// Hands out the pages of `[phys_base, alloc_end)` one after another and
/// keeps their contents.
pub struct LinearMemoryManager {
    phys_base: PhysAddr,
    alloc_ptr: PhysAddr,
    alloc_end: PhysAddr,
    /// Contents of the allocated pages, 512 words per page, in address order.
    words: Vec<u64>,
}

proof fn lemma_page_below(d: int, big: int)
    requires
        d % 4096 == 0,
        big % 4096 == 0,
        0 <= d < big,
    ensures
        d + 4096 <= big,
        d / 8 + 512 <= big / 8,
        (d / 8) * 8 == d,
        (big / 8) * 8 == big,
{
    assert(d + 4096 <= big) by (nonlinear_arith)
        requires
            d % 4096 == 0,
            big % 4096 == 0,
            0 <= d < big,
    {
        assert(d == (d / 4096) * 4096);
        assert(big == (big / 4096) * 4096);
        assert(d / 4096 < big / 4096);
    }
}

proof fn lemma_page_between(d: int, big: int)
    requires
        d % 4096 == 0,
        big % 4096 == 0,
        big <= d < big + 4096,
    ensures
        d == big,
{
    assert(d == big) by (nonlinear_arith)
        requires
            d % 4096 == 0,
            big % 4096 == 0,
            big <= d < big + 4096,
    {
        assert(d == (d / 4096) * 4096);
        assert(big == (big / 4096) * 4096);
    }
}

impl LinearMemoryManager {
    #[verifier::type_invariant]
    spec fn wf(&self) -> bool {
        &&& self.phys_base.0 % 4096 == 0
        &&& self.phys_base.0 <= self.alloc_ptr.0 <= self.alloc_end.0
        &&& self.alloc_end.0 <= 0x100_0000_0000_0000
        &&& self.words.len() * 8 == self.alloc_ptr.0 - self.phys_base.0
        &&& (self.alloc_ptr.0 - self.phys_base.0) % 4096 == 0
    }

    /// `a` is the address of an allocated page.
    spec fn holds(&self, a: u64) -> bool {
        &&& self.phys_base.0 <= a < self.alloc_ptr.0
        &&& (a - self.phys_base.0) % 4096 == 0
    }

    spec fn page_at(&self, a: u64) -> Seq<u64> {
        let w = (a - self.phys_base.0) / 8;
        self.words@.subrange(w, w + 512)
    }

    /// Start of the region.
    pub closed spec fn base(&self) -> u64 {
        self.phys_base.0
    }

    /// End of the region.
    pub closed spec fn end(&self) -> u64 {
        self.alloc_end.0
    }

    /// Number of pages handed out so far.
    pub closed spec fn allocated(&self) -> nat {
        ((self.alloc_ptr.0 - self.phys_base.0) / 4096) as nat
    }

    /// A manager for the region `[phys_base, alloc_end)`, with no page handed out.
    pub fn new(phys_base: PhysAddr, alloc_end: PhysAddr) -> (r: Self)
        requires
            phys_base.0 % 4096 == 0,
            phys_base.0 <= alloc_end.0 <= 0x100_0000_0000_0000,
        ensures
            r.pages() == Map::<u64, Seq<u64>>::empty(),
            r.free_pages() == (alloc_end.0 - phys_base.0) as nat / 4096,
            r.allocated() == 0,
            r.base() == phys_base.0,
            r.end() == alloc_end.0,
    {
        let r = LinearMemoryManager {
            phys_base,
            alloc_ptr: phys_base,
            alloc_end,
            words: Vec::new(),
        };
        assert(r.pages() =~= Map::<u64, Seq<u64>>::empty());
        r
    }

    /// Number of pages handed out so far.
    pub fn allocated_pages(&self) -> (n: u64)
        ensures
            n == self.allocated(),
    {
        proof {
            use_type_invariant(self);
        }
        (self.alloc_ptr.0 - self.phys_base.0) / PAGE_SIZE as u64
    }
}

impl PageManager for LinearMemoryManager {
    closed spec fn pages(&self) -> Map<u64, Seq<u64>> {
        Map::new(|a: u64| self.holds(a), |a: u64| self.page_at(a))
    }

    closed spec fn free_pages(&self) -> nat {
        ((self.alloc_end.0 - self.alloc_ptr.0) / 4096) as nat
    }

    /// Hands out the next page of the region, zeroed: the pages are handed
    /// out in address order from the start of the region.
    fn alloc_physical_page(&mut self) -> (phys: PhysAddr)
        ensures
            phys.0 == old(self).base() + 4096 * old(self).allocated(),
            phys.0 + 4096 <= old(self).end(),
            final(self).pages()[phys.0] == zero_table(),
            final(self).allocated() == old(self).allocated() + 1,
            final(self).base() == old(self).base(),
            final(self).end() == old(self).end(),
    {
        proof {
            use_type_invariant(&*self);
        }
        let ghost old_self = *self;
        let mut taken = LinearMemoryManager {
            phys_base: PhysAddr(0),
            alloc_ptr: PhysAddr(0),
            alloc_end: PhysAddr(0),
            words: Vec::new(),
        };
        core::mem::swap(self, &mut taken);
        let LinearMemoryManager { phys_base, alloc_ptr, alloc_end, mut words } = taken;
        let result = alloc_ptr;
        let mut i: usize = 0;
        while i < 512
            invariant
                0 <= i <= 512,
                words@.len() == old_self.words@.len() + i,
                words@.subrange(0, old_self.words@.len() as int) == old_self.words@,
                forall|k: int| old_self.words@.len() <= k < words@.len() ==> words@[k] == 0u64,
            decreases 512 - i,
        {
            words.push(0);
            assert(words@.subrange(0, old_self.words@.len() as int) =~= old_self.words@);
            i += 1;
        }
        *self = LinearMemoryManager {
            phys_base,
            alloc_ptr: PhysAddr(alloc_ptr.0 + PAGE_SIZE as u64),
            alloc_end,
            words,
        };
        proof {
            let w0 = old_self.words@.len() as int;
            assert forall|a: u64| #[trigger] self.holds(a) implies (old_self.holds(a) || a
                == result.0) by {
                if !old_self.holds(a) {
                    lemma_page_between(
                        a - old_self.phys_base.0,
                        old_self.alloc_ptr.0 - old_self.phys_base.0,
                    );
                }
            }
            assert forall|a: u64| old_self.holds(a) implies #[trigger] self.page_at(a)
                == old_self.page_at(a) by {
                let w = (a - old_self.phys_base.0) / 8;
                lemma_page_below(
                    a - old_self.phys_base.0,
                    old_self.alloc_ptr.0 - old_self.phys_base.0,
                );
                assert(w + 512 <= w0);
                assert(self.page_at(a) =~= old_self.page_at(a)) by {
                    assert forall|k: int| 0 <= k < 512 implies #[trigger] self.page_at(a)[k] == old_self.page_at(a)[k] by {
                        assert(self.words@.subrange(0, w0)[w + k] == old_self.words@[w + k]);
                    }
                }
            }
            assert(self.pages() =~= old_self.pages().insert(result.0, self.pages()[result.0]));
            lemma_page_below(
                result.0 - self.phys_base.0,
                self.alloc_ptr.0 - self.phys_base.0,
            );
            assert(self.holds(result.0));
            assert(self.page_at(result.0).len() == 512);
            assert(self.page_at(result.0) =~= zero_table()) by {
                assert((result.0 - self.phys_base.0) / 8 == w0) by {
                    assert((result.0 - self.phys_base.0) == w0 * 8);
                }
            }
        }
        result
    }

    fn free_page_count(&self) -> (n: u64) {
        proof {
            use_type_invariant(self);
        }
        (self.alloc_end.0 - self.alloc_ptr.0) / PAGE_SIZE as u64
    }

    fn read_entry(&self, table: PhysAddr, index: usize) -> (e: PageTableEntry) {
        proof {
            use_type_invariant(self);
            assert(self.holds(table.0));
            lemma_page_below(
                table.0 - self.phys_base.0,
                self.alloc_ptr.0 - self.phys_base.0,
            );
        }
        let w = ((table.0 - self.phys_base.0) / 8) as usize;
        PageTableEntry(self.words[w + index])
    }

    fn write_entry(&mut self, table: PhysAddr, index: usize, e: PageTableEntry)
        ensures
            final(self).allocated() == old(self).allocated(),
            final(self).base() == old(self).base(),
            final(self).end() == old(self).end(),
    {
        proof {
            use_type_invariant(&*self);
        }
        let ghost old_self = *self;
        proof {
            assert(self.holds(table.0));
            lemma_page_below(
                table.0 - self.phys_base.0,
                self.alloc_ptr.0 - self.phys_base.0,
            );
        }
        let w = ((table.0 - self.phys_base.0) / 8) as usize;
        let mut taken = LinearMemoryManager {
            phys_base: PhysAddr(0),
            alloc_ptr: PhysAddr(0),
            alloc_end: PhysAddr(0),
            words: Vec::new(),
        };
        core::mem::swap(self, &mut taken);
        let LinearMemoryManager { phys_base, alloc_ptr, alloc_end, mut words } = taken;
        words.set(w + index, e.0);
        *self = LinearMemoryManager { phys_base, alloc_ptr, alloc_end, words };
        proof {
            assert forall|a: u64| self.holds(a) && a != table.0 implies #[trigger] self.page_at(a)
                == old_self.page_at(a) by {
                let w2 = (a - self.phys_base.0) / 8;
                lemma_page_below(a - self.phys_base.0, self.alloc_ptr.0 - self.phys_base.0);
                if a < table.0 {
                    lemma_page_below(a - self.phys_base.0, table.0 - self.phys_base.0);
                } else {
                    lemma_page_below(table.0 - self.phys_base.0, a - self.phys_base.0);
                }
                assert(w2 + 512 <= w || w + 512 <= w2);
                assert(self.page_at(a) =~= old_self.page_at(a));
            }
            assert(self.page_at(table.0) =~= old_self.page_at(table.0).update(index as int, e.0));
            assert(self.pages() =~= old_self.pages().insert(
                table.0,
                old_self.pages()[table.0].update(index as int, e.0),
            ));
        }
    }
}

} // verus!
