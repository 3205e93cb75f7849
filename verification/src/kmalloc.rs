//! Kernel heap allocators: a bump allocator that never reuses memory, and a
//! non-reentrant lock around any allocator.
use vstd::prelude::*;

verus! {

pub open spec fn is_power_of_two(a: usize) -> bool {
    a != 0 && (a & ((a - 1) as usize)) == 0
}

/// `p` rounded up to a multiple of `align`.
pub open spec fn align_up(p: int, align: int) -> int {
    p + (align - p % align) % align
}

/// Rounding up gives the least multiple of `align` at or above `p`.
pub proof fn lemma_align_up(p: int, align: int)
    requires
        0 <= p,
        0 < align,
    ensures
        align_up(p, align) % align == 0,
        p <= align_up(p, align) < p + align,
{
    let r = p % align;
    vstd::arithmetic::div_mod::lemma_mod_pos_bound(p, align);
    vstd::arithmetic::div_mod::lemma_fundamental_div_mod(p, align);
    if r == 0 {
        vstd::arithmetic::div_mod::lemma_mod_self_0(align);
        assert(align_up(p, align) == p);
    } else {
        vstd::arithmetic::div_mod::lemma_small_mod((align - r) as nat, align as nat);
        assert(align_up(p, align) == align * (p / align) + align);
        vstd::arithmetic::div_mod::lemma_mod_multiples_basic(p / align + 1, align);
        assert(align * (p / align) + align == (p / align + 1) * align) by (nonlinear_arith);
    }
}

/// A bump allocator over `[ptr, end)`; it counts but never reuses freed memory.
pub struct LeakySlabAllocState {
    ptr: usize,
    end: usize,
    total_alloc: usize,
    total_dealloc: usize,
}

impl LeakySlabAllocState {
    #[verifier::type_invariant]
    spec fn inv(&self) -> bool {
        &&& 1 <= self.ptr
        &&& self.total_alloc <= self.ptr
    }

    /// Next free address.
    pub closed spec fn next(&self) -> usize {
        self.ptr
    }

    /// End of the managed memory.
    pub closed spec fn limit(&self) -> usize {
        self.end
    }

    /// Bytes handed out so far.
    pub closed spec fn allocated(&self) -> usize {
        self.total_alloc
    }

    /// Bytes given back so far.
    pub closed spec fn deallocated(&self) -> usize {
        self.total_dealloc
    }

    /// An allocator with no memory: its pointer and end are both the
    /// dangling address 1, so only empty allocations succeed.
    pub fn new() -> (s: LeakySlabAllocState)
        ensures
            s.next() == 1,
            s.limit() == 1,
            s.allocated() == 0,
            s.deallocated() == 0,
    {
        LeakySlabAllocState { ptr: 1, end: 1, total_alloc: 0, total_dealloc: 0 }
    }

    /// Allocates `size` bytes aligned to `align`: the next free address
    /// rounded up to `align`, if the block ends within the memory.
    pub fn alloc_fallible(&mut self, size: usize, align: usize) -> (r: Option<usize>)
        requires
            is_power_of_two(align),
        ensures
            ({
                let a = align_up(old(self).next() as int, align as int);
                if a + size <= old(self).limit() {
                    &&& r == Some(a as usize)
                    &&& final(self).next() == a + size
                    &&& final(self).allocated() == old(self).allocated() + size
                } else {
                    &&& r is None
                    &&& final(self).next() == old(self).next()
                    &&& final(self).allocated() == old(self).allocated()
                }
            }),
            final(self).limit() == old(self).limit(),
            final(self).deallocated() == old(self).deallocated(),
            r matches Some(a) ==> a % align == 0 && a >= old(self).next() && a != 0,
    {
        proof {
            use_type_invariant(&*self);
        }
        let ptr = self.ptr;
        let align_offset = (align - ptr % align) % align;
        if ptr > self.end || align_offset > self.end - ptr || size > self.end - ptr - align_offset {
            return None;
        }
        let aligned = ptr + align_offset;
        proof {
            lemma_align_up(ptr as int, align as int);
        }
        self.ptr = aligned + size;
        self.total_alloc = self.total_alloc + size;
        Some(aligned)
    }

    /// Like `alloc_fallible`, with the null address 0 for failure.
    pub fn allocate(&mut self, size: usize, align: usize) -> (r: usize)
        requires
            is_power_of_two(align),
        ensures
            ({
                let a = align_up(old(self).next() as int, align as int);
                if a + size <= old(self).limit() {
                    &&& r == a
                    &&& final(self).next() == a + size
                    &&& final(self).allocated() == old(self).allocated() + size
                } else {
                    &&& r == 0
                    &&& final(self).next() == old(self).next()
                    &&& final(self).allocated() == old(self).allocated()
                }
            }),
            final(self).limit() == old(self).limit(),
            final(self).deallocated() == old(self).deallocated(),
    {
        match self.alloc_fallible(size, align) {
            Some(a) => a,
            None => 0,
        }
    }

    /// Counts `size` bytes as given back; the memory is not reused.
    pub fn dealloc(&mut self, _ptr: usize, size: usize)
        requires
            old(self).deallocated() + size <= usize::MAX,
        ensures
            final(self).deallocated() == old(self).deallocated() + size,
            final(self).next() == old(self).next(),
            final(self).limit() == old(self).limit(),
            final(self).allocated() == old(self).allocated(),
    {
        proof {
            use_type_invariant(&*self);
        }
        self.total_dealloc = self.total_dealloc + size;
    }
}

/// Blocks handed out one after the other by the bump allocator do not
/// overlap, and each lies inside the memory.
pub proof fn lemma_bump_blocks_disjoint(
    next0: int,
    limit: int,
    size1: int,
    align1: int,
    size2: int,
    align2: int,
)
    requires
        align1 > 0,
        align2 > 0,
        0 <= next0,
        size1 >= 0,
        size2 >= 0,
        align_up(next0, align1) + size1 <= limit,
        align_up(align_up(next0, align1) + size1, align2) + size2 <= limit,
    ensures
        next0 <= align_up(next0, align1),
        align_up(next0, align1) + size1 <= align_up(align_up(next0, align1) + size1, align2),
{
    lemma_align_up(next0, align1);
    lemma_align_up(align_up(next0, align1) + size1, align2);
}

/// A bump allocator behind a flag that refuses reentrant use.
pub struct LeakySlabAlloc {
    inner: LeakySlabAllocState,
    locked: bool,
}

impl LeakySlabAlloc {
    pub closed spec fn state(&self) -> LeakySlabAllocState {
        self.inner
    }

    pub closed spec fn is_locked(&self) -> bool {
        self.locked
    }

    /// An unlocked allocator with no memory.
    pub fn new() -> (a: LeakySlabAlloc)
        ensures
            !a.is_locked(),
            a.state().next() == 1,
            a.state().limit() == 1,
            a.state().allocated() == 0,
            a.state().deallocated() == 0,
    {
        let state = LeakySlabAllocState::new();
        LeakySlabAlloc { inner: state, locked: false }
    }

    /// Allocates under the flag; 0 on failure.
    pub fn allocate(&mut self, size: usize, align: usize) -> (r: usize)
        requires
            !old(self).is_locked(),
            is_power_of_two(align),
        ensures
            !final(self).is_locked(),
            ({
                let (s0, s1) = (old(self).state(), final(self).state());
                let a = align_up(s0.next() as int, align as int);
                &&& s1.limit() == s0.limit()
                &&& s1.deallocated() == s0.deallocated()
                &&& if a + size <= s0.limit() {
                    &&& r == a
                    &&& s1.next() == a + size
                    &&& s1.allocated() == s0.allocated() + size
                } else {
                    &&& r == 0
                    &&& s1.next() == s0.next()
                    &&& s1.allocated() == s0.allocated()
                }
            }),
    {
        self.locked = true;
        let r = self.inner.allocate(size, align);
        self.locked = false;
        r
    }

    /// Bytes given back so far.
    pub fn deallocated_bytes(&self) -> (n: usize)
        ensures
            n == self.state().deallocated(),
    {
        self.inner.total_dealloc
    }

    /// Gives a block back under the flag.
    pub fn dealloc(&mut self, ptr: usize, size: usize)
        requires
            !old(self).is_locked(),
            old(self).state().deallocated() + size <= usize::MAX,
        ensures
            !final(self).is_locked(),
            final(self).state().deallocated() == old(self).state().deallocated() + size,
            final(self).state().next() == old(self).state().next(),
            final(self).state().limit() == old(self).state().limit(),
            final(self).state().allocated() == old(self).state().allocated(),
    {
        self.locked = true;
        self.inner.dealloc(ptr, size);
        self.locked = false;
    }
}

/// An allocator that needs no lock of its own, to be put behind a
/// [`LockedHeap`].
///
/// Each implementation says, through the three relations, which outcomes
/// its operations may have; nothing here proves that an implementation
/// outside this library keeps to them.
pub trait KmallocUnlocked: Sized {
    /// `next` is a state the allocator may be in after handing it the
    /// memory `[start, start + size)`.
    spec fn inits(&self, start: usize, size: usize, next: Self) -> bool;

    /// `r` is an address that an allocation of `size` bytes aligned to
    /// `align` may return (0 for failure), leaving the allocator as `next`.
    spec fn allocates(&self, size: usize, align: usize, r: usize, next: Self) -> bool;

    /// `next` is a state the allocator may be in after the block at `ptr`
    /// of `size` bytes aligned to `align` is given back.
    spec fn deallocs(&self, ptr: usize, size: usize, align: usize, next: Self) -> bool;

    /// Hands the memory `[start, start + size)` to the allocator.
    fn init(&mut self, start: usize, size: usize)
        ensures
            old(self).inits(start, size, *final(self)),
    ;

    /// Allocates `size` bytes aligned to `align`; 0 on failure.
    fn allocate(&mut self, size: usize, align: usize) -> (r: usize)
        ensures
            old(self).allocates(size, align, r, *final(self)),
    ;

    /// Gives back the block at `ptr` of `size` bytes aligned to `align`.
    fn dealloc(&mut self, ptr: usize, size: usize, align: usize)
        ensures
            old(self).deallocs(ptr, size, align, *final(self)),
    ;
}

/// A kernel allocator.
pub trait Kmalloc {
    /// The allocator may be entered.
    spec fn ready(&self) -> bool;

    /// Hands the memory `[start, start + size)` to the allocator.
    fn init(&mut self, start: usize, size: usize)
        requires
            old(self).ready(),
        ensures
            final(self).ready(),
    ;

    /// Allocates `size` bytes aligned to `align`; 0 on failure.
    fn allocate(&mut self, size: usize, align: usize) -> (r: usize)
        requires
            old(self).ready(),
        ensures
            final(self).ready(),
    ;

    /// Gives back the block at `ptr` of `size` bytes aligned to `align`.
    fn dealloc(&mut self, ptr: usize, size: usize, align: usize)
        requires
            old(self).ready(),
        ensures
            final(self).ready(),
    ;
}

/// An allocator behind a flag that refuses reentrant use.
pub struct LockedHeap<H: KmallocUnlocked> {
    inner: H,
    locked: bool,
}

impl<H: KmallocUnlocked> LockedHeap<H> {
    pub closed spec fn inner(&self) -> H {
        self.inner
    }

    pub closed spec fn is_locked(&self) -> bool {
        self.locked
    }

    /// `inner`, unlocked.
    pub fn new(inner: H) -> (h: LockedHeap<H>)
        ensures
            h.inner() == inner,
            !h.is_locked(),
            h.ready(),
    {
        LockedHeap { inner, locked: false }
    }

    /// The allocator behind the lock, for reading its statistics.
    pub fn inner_ref(&self) -> (r: &H)
        ensures
            *r == self.inner(),
    {
        &self.inner
    }
}

/// A locked heap may be entered exactly when its lock is free.
pub proof fn lemma_locked_heap_ready<H: KmallocUnlocked>(h: LockedHeap<H>)
    ensures
        h.ready() == !h.is_locked(),
{
}

impl<H: KmallocUnlocked> Kmalloc for LockedHeap<H> {
    closed spec fn ready(&self) -> bool {
        !self.locked
    }

    /// Hands the memory to the inner allocator, under the lock.
    fn init(&mut self, start: usize, size: usize)
        ensures
            old(self).inner().inits(start, size, final(self).inner()),
    {
        self.locked = true;
        self.inner.init(start, size);
        self.locked = false;
    }

    /// Allocates from the inner allocator, under the lock, and returns what
    /// it returned.
    fn allocate(&mut self, size: usize, align: usize) -> (r: usize)
        ensures
            old(self).inner().allocates(size, align, r, final(self).inner()),
    {
        self.locked = true;
        let r = self.inner.allocate(size, align);
        self.locked = false;
        r
    }

    /// Gives the block back to the inner allocator, under the lock.
    fn dealloc(&mut self, ptr: usize, size: usize, align: usize)
        ensures
            old(self).inner().deallocs(ptr, size, align, final(self).inner()),
    {
        self.locked = true;
        self.inner.dealloc(ptr, size, align);
        self.locked = false;
    }
}

} // verus!
