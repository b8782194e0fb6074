//! Contiguous regions of memory with bump allocation.

use vstd::prelude::*;

verus! {

/// Alignment of every object, in bytes.
pub const OBJECT_ALIGN: usize = 8;

/// Capacity of an ordinary block, in bytes.
pub const DEFAULT_BLOCK_SIZE: usize = 32768;

/// Round a size up to a multiple of the object alignment.
pub open spec fn round_up(size: int) -> int {
    if size % OBJECT_ALIGN as int == 0 {
        size
    } else {
        size + (OBJECT_ALIGN as int - size % OBJECT_ALIGN as int)
    }
}

/// Round a size up to a multiple of the object alignment, if the result fits.
pub fn round_up_size(size: usize) -> (r: Option<usize>)
    ensures
        r matches Some(n) ==> n == round_up(size as int),
        r is None <==> round_up(size as int) > usize::MAX,
{
    let rem = size % OBJECT_ALIGN;
    if rem == 0 {
        Some(size)
    } else if size > usize::MAX - (OBJECT_ALIGN - rem) {
        None
    } else {
        Some(size + (OBJECT_ALIGN - rem))
    }
}

/// A contiguous region of addresses `[base, base + capacity)` in which objects
/// are bump-allocated from the base up to the cursor.
pub struct Block {
    base: usize,
    capacity: usize,
    cursor: usize,
}

impl Block {
    /// First address of the region.
    pub closed spec fn base(&self) -> int {
        self.base as int
    }

    /// Size of the region in bytes.
    pub closed spec fn capacity(&self) -> int {
        self.capacity as int
    }

    /// Number of bytes handed out so far.
    pub closed spec fn cursor(&self) -> int {
        self.cursor as int
    }

    /// The region is aligned and fits the address space, and the cursor stays
    /// within it, on an aligned boundary.
    pub open spec fn wf(&self) -> bool {
        &&& self.base() % OBJECT_ALIGN as int == 0
        &&& self.capacity() % OBJECT_ALIGN as int == 0
        &&& self.cursor() % OBJECT_ALIGN as int == 0
        &&& 0 <= self.base()
        &&& 0 <= self.cursor() <= self.capacity()
        &&& self.base() + self.capacity() <= usize::MAX
    }

    /// Create an empty block over the region `[base, base + capacity)`.
    pub fn new(base: usize, capacity: usize) -> (r: Self)
        requires
            base % OBJECT_ALIGN == 0,
            capacity % OBJECT_ALIGN == 0,
            base + capacity <= usize::MAX,
        ensures
            r.wf(),
            r.base() == base,
            r.capacity() == capacity,
            r.cursor() == 0,
    {
        Block { base, capacity, cursor: 0 }
    }

    /// Number of bytes still free.
    pub fn remaining(&self) -> (r: usize)
        requires
            self.wf(),
        ensures
            r == self.capacity() - self.cursor(),
    {
        self.capacity - self.cursor
    }

    /// Size of the region in bytes.
    pub fn get_capacity(&self) -> (r: usize)
        ensures
            r == self.capacity(),
    {
        self.capacity
    }

    /// First address of the region.
    pub fn get_base(&self) -> (r: usize)
        ensures
            r == self.base(),
    {
        self.base
    }

    /// Number of bytes handed out so far.
    pub fn get_cursor(&self) -> (r: usize)
        ensures
            r == self.cursor(),
    {
        self.cursor
    }

    /// Bump-allocate `size` bytes, rounded up to the object alignment.
    ///
    /// Succeeds exactly when the rounded size fits in the free part of the
    /// block; the object then starts at the old cursor, and the cursor moves
    /// past it.
    pub fn try_alloc(&mut self, size: usize) -> (r: Option<usize>)
        requires
            old(self).wf(),
        ensures
            final(self).wf(),
            final(self).base() == old(self).base(),
            final(self).capacity() == old(self).capacity(),
            (r is Some) <==> round_up(size as int) <= old(self).capacity() - old(self).cursor(),
            r matches Some(addr) ==> {
                &&& addr == old(self).base() + old(self).cursor()
                &&& addr % OBJECT_ALIGN == 0
                &&& final(self).cursor() == old(self).cursor() + round_up(size as int)
            },
            r is None ==> *final(self) == *old(self),
    {
        let free = self.capacity - self.cursor;
        match round_up_size(size) {
            None => None,
            Some(n) => {
                if n > free {
                    None
                } else {
                    let addr = self.base + self.cursor;
                    proof {
                        assert(n % OBJECT_ALIGN == 0);
                    }
                    self.cursor = self.cursor + n;
                    Some(addr)
                }
            },
        }
    }

    /// Make the whole block free again.
    pub fn reset(&mut self)
        requires
            old(self).wf(),
        ensures
            final(self).wf(),
            final(self).base() == old(self).base(),
            final(self).capacity() == old(self).capacity(),
            final(self).cursor() == 0,
    {
        self.cursor = 0;
    }
}

} // verus!
