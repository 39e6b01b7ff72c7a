//! A bump allocator over a fixed heap: each allocation starts at the next offset aligned as
//! asked and moves the offset past itself; a reset frees everything at once.  Allocations
//! are handed out as offsets into the heap.

use vstd::prelude::*;

verus! {

/// The heap's size in bytes.
pub const HEAP_SIZE: usize = 4096;

/// A power of two.
pub open spec fn is_pow2(a: usize) -> bool {
    a > 0 && a & ((a - 1) as usize) == 0
}

/// `off` rounded up to a multiple of the power of two `align`, by masking.
pub open spec fn align_up(off: usize, align: usize) -> usize {
    ((off + align - 1) as usize) & !((align - 1) as usize)
}

/// A heap and the offset of its first free byte.
pub struct BumpAlloc {
    pub heap: Vec<u8>,
    pub offset: usize,
}

impl BumpAlloc {
    pub open spec fn wf(&self) -> bool {
        self.heap@.len() == HEAP_SIZE && self.offset <= HEAP_SIZE
    }

    /// An empty heap.
    pub fn new() -> (res: BumpAlloc)
        ensures
            res.wf(),
            res.offset == 0,
    {
        let mut heap: Vec<u8> = Vec::new();
        let mut i: usize = 0;
        while i < HEAP_SIZE
            invariant
                i <= HEAP_SIZE,
                heap@.len() == i,
            decreases HEAP_SIZE - i,
        {
            heap.push(0u8);
            i += 1;
        }
        BumpAlloc { heap, offset: 0 }
    }

    /// Takes `size` bytes aligned to `align` (a power of two): their offset in the heap, or
    /// `None`, with nothing changed, when they do not fit.
    pub fn allocate(&mut self, size: usize, align: usize) -> (res: Option<usize>)
        requires
            old(self).wf(),
            is_pow2(align),
            align <= usize::MAX - HEAP_SIZE,
        ensures
            final(self).wf(),
            final(self).heap@ == old(self).heap@,
            ({
                let a = align_up(old(self).offset, align);
                if a + size <= HEAP_SIZE {
                    res == Some(a) && final(self).offset == a + size
                } else {
                    res is None && final(self).offset == old(self).offset
                }
            }),
    {
        let aligned = (self.offset + align - 1) & !(align - 1);
        if aligned > HEAP_SIZE || size > HEAP_SIZE - aligned {
            return None;
        }
        self.offset = aligned + size;
        Some(aligned)
    }

    /// How many bytes are taken.
    pub fn used(&self) -> (res: usize)
        ensures
            res == self.offset,
    {
        self.offset
    }

    /// How many bytes the heap has.
    pub fn capacity(&self) -> (res: usize)
        requires
            self.wf(),
        ensures
            res == HEAP_SIZE,
    {
        self.heap.len()
    }

    /// Frees every allocation at once.
    pub fn reset(&mut self)
        requires
            old(self).wf(),
        ensures
            final(self).wf(),
            final(self).offset == 0,
            final(self).heap@ == old(self).heap@,
    {
        self.offset = 0;
    }
}

/// A reset frees every earlier allocation at once: from the offset it leaves, any allocation
/// that fits the heap starts at offset 0, whatever alignment it asks for.
pub proof fn law_reset_frees_all(size: usize, align: usize)
    requires
        is_pow2(align),
        align <= usize::MAX - HEAP_SIZE,
        size <= HEAP_SIZE,
    ensures
        align_up(0, align) == 0,
        align_up(0, align) + size <= HEAP_SIZE,
{
    let m = (align - 1) as usize;
    assert(((0 + align - 1) as usize) == m);
    assert(m & !m == 0) by (bit_vector);
}

/// An allocation starts no earlier than the free offset and is aligned as asked, so it
/// overlaps no earlier allocation.
pub proof fn law_alloc_aligned_after(off: usize, align: usize)
    requires
        is_pow2(align),
        off <= HEAP_SIZE,
        align <= usize::MAX - HEAP_SIZE,
    ensures
        align_up(off, align) >= off,
        align_up(off, align) & ((align - 1) as usize) == 0,
{
    let top = (off + align - 1) as usize;
    assert(top == off + align - 1);
    assert(align > 0 && align & ((align - 1) as usize) == 0 && off <= 4096 && top == off + align - 1 ==> {
        &&& top & !((align - 1) as usize) >= off
        &&& (top & !((align - 1) as usize)) & ((align - 1) as usize) == 0
    }) by (bit_vector);
}

} // verus!
