//! Bump allocator over a fixed byte buffer embedded in the kernel binary.
//!
//! It bridges the interval between kernel entry and a real allocator:
//! allocation rounds a monotone cursor up to the requested alignment and
//! advances it; freeing the most recent block rewinds the cursor by its
//! size, and when the count of outstanding allocations returns to zero the
//! whole arena resets. Addresses are offsets from the buffer's base; the
//! bytes themselves live outside this structure.

use vstd::prelude::*;

verus! {

/// `c` rounded up to the next multiple of `a`.
pub open spec fn spec_align_up(c: int, a: int) -> int
    recommends
        a >= 1,
        c >= 0,
{
    if c % a == 0 {
        c
    } else {
        c + a - c % a
    }
}

/// Rounding up lands on a multiple of `a`, never moves backwards, and adds
/// less than one whole alignment step.
pub proof fn lemma_align_up_props(c: int, a: int)
    requires
        a >= 1,
        c >= 0,
    ensures
        c <= spec_align_up(c, a),
        spec_align_up(c, a) % a == 0,
        spec_align_up(c, a) < c + a,
{
    let r = c % a;
    assert(0 <= r < a) by (nonlinear_arith)
        requires
            a >= 1,
            c >= 0,
            r == c % a,
    ;
    if r != 0 {
        assert((c + a - r) % a == 0) by (nonlinear_arith)
            requires
                a >= 1,
                r == c % a,
                0 <= r < a,
        ;
    }
}

/// Bump allocator state: buffer size, cursor (offset of the next free
/// byte), and count of outstanding allocations.
pub struct StaticAllocator {
    size: usize,
    cursor: usize,
    refcount: usize,
}

/// Cursor after a `dealloc(ptr, size, _)` on state `s`: a trailing block
/// rewinds the cursor by its size, and a refcount reaching zero resets the
/// cursor to the base.
pub open spec fn spec_dealloc_cursor(s: StaticAllocator, ptr: usize, size: usize) -> int {
    if s.refcount_spec() == 1 {
        0
    } else if ptr + size == s.cursor_spec() {
        s.cursor_spec() - size
    } else {
        s.cursor_spec() as int
    }
}

impl StaticAllocator {
    /// Buffer size in bytes.
    pub closed spec fn size_spec(&self) -> usize {
        self.size
    }

    /// Offset of the next free byte.
    pub closed spec fn cursor_spec(&self) -> usize {
        self.cursor
    }

    /// Outstanding allocations.
    pub closed spec fn refcount_spec(&self) -> usize {
        self.refcount
    }

    /// Allocator invariant: the cursor stays inside the buffer, and with no
    /// outstanding allocation the arena is fully reset.
    pub open spec fn wf(&self) -> bool {
        &&& self.cursor_spec() <= self.size_spec()
        &&& (self.refcount_spec() == 0 ==> self.cursor_spec() == 0)
    }

    /// An allocation of `size` bytes at alignment `align` fits the buffer
    /// from this state.
    pub open spec fn alloc_fits(&self, size: usize, align: usize) -> bool {
        size > 0 && spec_align_up(self.cursor_spec() as int, align as int) + size
            <= self.size_spec()
    }

    /// Fresh allocator over a buffer of `size` bytes, fully reset.
    pub fn new(size: usize) -> (al: Self)
        ensures
            al.wf(),
            al.size_spec() == size,
            al.cursor_spec() == 0,
            al.refcount_spec() == 0,
    {
        StaticAllocator { size, cursor: 0, refcount: 0 }
    }

    /// Current cursor offset.
    pub fn cursor(&self) -> (c: usize)
        ensures
            c == self.cursor_spec(),
    {
        self.cursor
    }

    /// Current count of outstanding allocations.
    pub fn refcount(&self) -> (c: usize)
        ensures
            c == self.refcount_spec(),
    {
        self.refcount
    }

    /// Buffer size.
    pub fn size(&self) -> (c: usize)
        ensures
            c == self.size_spec(),
    {
        self.size
    }

    /// Serve an allocation: zero-size requests and requests that do not fit
    /// yield `None` (the null address) and leave the state untouched;
    /// otherwise the cursor is rounded up to `align`, that offset is handed
    /// out, and the cursor advances past the block.
    pub fn allocate(&mut self, size: usize, align: usize) -> (r: Option<usize>)
        requires
            old(self).wf(),
            align >= 1,
            old(self).refcount_spec() < usize::MAX,
        ensures
            final(self).wf(),
            final(self).size_spec() == old(self).size_spec(),
            if old(self).alloc_fits(size, align) {
                let p = spec_align_up(old(self).cursor_spec() as int, align as int);
                &&& r == Some(p as usize)
                &&& p % (align as int) == 0
                &&& old(self).cursor_spec() <= p
                &&& p + size <= old(self).size_spec()
                &&& final(self).cursor_spec() == p + size
                &&& final(self).refcount_spec() == old(self).refcount_spec() + 1
            } else {
                &&& r is None
                &&& *final(self) == *old(self)
            },
    {
        if size == 0 {
            return None;
        }
        proof {
            lemma_align_up_props(self.cursor as int, align as int);
        }
        let rem = self.cursor % align;
        let pad = if rem > 0 {
            align - rem
        } else {
            0
        };
        if pad > self.size - self.cursor {
            return None;
        }
        let aligned = self.cursor + pad;
        if size > self.size - aligned {
            return None;
        }
        self.cursor = aligned + size;
        self.refcount = self.refcount + 1;
        Some(aligned)
    }

    /// Return a block. Freeing the most recently allocated block rewinds
    /// the cursor by its size; when the refcount reaches zero the whole
    /// arena resets to the base. The alignment argument is not consulted —
    /// the caller's `size` is trusted to match the original allocation.
    pub fn dealloc(&mut self, ptr: usize, size: usize, _align: usize)
        requires
            old(self).wf(),
            old(self).refcount_spec() >= 1,
            ptr + size <= old(self).cursor_spec(),
        ensures
            final(self).wf(),
            final(self).size_spec() == old(self).size_spec(),
            final(self).refcount_spec() == old(self).refcount_spec() - 1,
            final(self).cursor_spec() == spec_dealloc_cursor(*old(self), ptr, size),
    {
        if ptr + size == self.cursor {
            self.cursor = self.cursor - size;
        }
        self.refcount = self.refcount - 1;
        if self.refcount == 0 {
            self.cursor = 0;
        }
    }
}

/// Alignment law: every address a successful allocation returns is a
/// multiple of the requested alignment.
pub proof fn lemma_alloc_aligned(s: StaticAllocator, size: usize, align: usize)
    requires
        s.wf(),
        align >= 1,
        s.alloc_fits(size, align),
    ensures
        spec_align_up(s.cursor_spec() as int, align as int) % (align as int) == 0,
{
    lemma_align_up_props(s.cursor_spec() as int, align as int);
}

/// Non-aliasing law: two consecutive successful allocations, with no
/// dealloc between them, hand out disjoint byte ranges — the first block
/// ends no later than the second begins.
pub proof fn lemma_alloc_non_aliasing(
    s: StaticAllocator,
    n1: usize,
    a1: usize,
    n2: usize,
    a2: usize,
)
    requires
        s.wf(),
        a1 >= 1,
        a2 >= 1,
        s.alloc_fits(n1, a1),
    ensures
        ({
            let p1 = spec_align_up(s.cursor_spec() as int, a1 as int);
            let p2 = spec_align_up(p1 + n1, a2 as int);
            p1 + n1 <= p2
        }),
{
    let p1 = spec_align_up(s.cursor_spec() as int, a1 as int);
    lemma_align_up_props(s.cursor_spec() as int, a1 as int);
    lemma_align_up_props(p1 + n1, a2 as int);
}

/// LIFO rewind law: allocating a block and freeing it right away returns
/// the cursor to its pre-allocation value, provided the allocation needed
/// no alignment padding (when padding was inserted, the rewind stops at the
/// padded start — the padding itself is not recorded anywhere).
/// `s1` is the state `allocate(size, align)` leaves behind, as its
/// contract describes it.
pub proof fn lemma_lifo_rewind(s: StaticAllocator, s1: StaticAllocator, size: usize, align: usize)
    requires
        s.wf(),
        align >= 1,
        s.refcount_spec() < usize::MAX,
        s.alloc_fits(size, align),
        s.cursor_spec() as int % (align as int) == 0,
        s1.cursor_spec() == spec_align_up(s.cursor_spec() as int, align as int) + size,
        s1.refcount_spec() == s.refcount_spec() + 1,
    ensures
        ({
            let p = spec_align_up(s.cursor_spec() as int, align as int);
            spec_dealloc_cursor(s1, p as usize, size) == s.cursor_spec()
        }),
{
    let p = spec_align_up(s.cursor_spec() as int, align as int);
    assert(p == s.cursor_spec());
    if s.refcount_spec() == 0 {
        assert(s.cursor_spec() == 0);
    }
}

/// Reset-on-quiescence law: when a dealloc returns the refcount to zero the
/// cursor resets to the base, and the next allocation that fits is served
/// at the base itself. `s1` is the state that dealloc leaves behind, as its
/// contract describes it.
pub proof fn lemma_reset_on_quiescence(
    s: StaticAllocator,
    s1: StaticAllocator,
    ptr: usize,
    size: usize,
    n: usize,
    a: usize,
)
    requires
        s.wf(),
        s.refcount_spec() == 1,
        ptr + size <= s.cursor_spec(),
        s1.size_spec() == s.size_spec(),
        s1.cursor_spec() == spec_dealloc_cursor(s, ptr, size),
        s1.refcount_spec() == 0,
        a >= 1,
        0 < n <= s.size_spec(),
    ensures
        s1.cursor_spec() == 0,
        s1.alloc_fits(n, a),
        spec_align_up(s1.cursor_spec() as int, a as int) == 0,
{
    lemma_align_up_props(0, a as int);
    assert(spec_align_up(0, a as int) == 0);
}

} // verus!
