//! Garbage-collected heaps.
//!
//! A heap owns a population of objects laid out in blocks. Mutators allocate
//! objects by bumping a cursor in their current block, and reach objects
//! through roots: stack roots, pinned stack roots and pinned roots. Every
//! reference, root and mutator carries the identity of its heap, and every
//! operation demands that identity, so a reference of one heap cannot enter
//! another. Identities are chosen by whoever creates a heap; the scoped
//! entry point around this library hands each heap one of its own.

use std::collections::HashMap;
use vstd::prelude::*;
use crate::block::{Block, round_up, round_up_size, OBJECT_ALIGN, DEFAULT_BLOCK_SIZE};

verus! {

broadcast use vstd::std_specs::hash::group_hash_axioms;

/// Reference to an object on the heap whose identity it carries.
#[derive(Clone, Copy, Debug, PartialEq, Eq, Structural)]
pub struct UnsafeRef {
    /// Identity of the heap the object lives on.
    pub heap: u64,
    /// Address of the object.
    pub addr: usize,
}

/// Error reported when the memory source cannot provide a region.
#[derive(Clone, Copy, Debug, PartialEq, Eq, Structural)]
pub struct AllocError;

/// Number of bytes that an object of the given size occupies.
pub open spec fn footprint(size: int) -> int {
    round_up(
        if size == 0 {
            1
        } else {
            size
        },
    )
}

/// An allocated object: where it lives, how large it is, and the addresses
/// of the objects it refers to.
pub struct ObjectRecord {
    pub addr: usize,
    pub size: usize,
    /// Index of the block that holds the object.
    pub block: usize,
    pub fields: Vec<usize>,
}

/// Whether some object of `objs` lives at `addr`.
pub open spec fn is_live(objs: Seq<ObjectRecord>, addr: usize) -> bool {
    exists|k: int| 0 <= k < objs.len() && #[trigger] objs[k].addr == addr
}

/// The two objects occupy disjoint address ranges.
pub open spec fn disjoint(a: ObjectRecord, b: ObjectRecord) -> bool {
    a.addr + footprint(a.size as int) <= b.addr || b.addr + footprint(b.size as int) <= a.addr
}

/// Whether no object of `objs` lives in block `b`.
pub open spec fn no_object_in(objs: Seq<ObjectRecord>, b: int) -> bool {
    forall|k: int| 0 <= k < objs.len() ==> (#[trigger] objs[k]).block as int != b
}

/// The object lies, aligned, in the used part of its block.
pub open spec fn placed_in(o: ObjectRecord, blocks: Seq<Block>) -> bool {
    &&& o.block < blocks.len()
    &&& blocks[o.block as int].base() <= o.addr
    &&& o.addr + footprint(o.size as int) <= blocks[o.block as int].base() + blocks[
        o.block as int].cursor()
    &&& o.addr % OBJECT_ALIGN == 0
}

/// Every object lies in its block, and no two objects overlap.
pub open spec fn objects_well_placed(objs: Seq<ObjectRecord>, blocks: Seq<Block>) -> bool {
    &&& forall|k: int| 0 <= k < objs.len() ==> placed_in(#[trigger] objs[k], blocks)
    &&& forall|k1: int, k2: int|
        0 <= k1 < objs.len() && 0 <= k2 < objs.len() && k1 != k2 ==> disjoint(
            #[trigger] objs[k1],
            #[trigger] objs[k2],
        )
}

/// The positions `0 .. n`, in order.
spec fn positions(n: nat) -> Seq<int> {
    Seq::new(n, |i: int| i)
}

/// Objects taken without repeats from a well-placed population, each keeping
/// its address, size and block, stay well placed when every block that
/// held an object keeps its base and does not move its cursor back.
proof fn lemma_objects_stay_placed(
    old_objs: Seq<ObjectRecord>,
    old_blocks: Seq<Block>,
    objs: Seq<ObjectRecord>,
    blocks: Seq<Block>,
    idx: Seq<int>,
)
    requires
        objects_well_placed(old_objs, old_blocks),
        idx.len() == objs.len(),
        forall|t: int|
            0 <= t < idx.len() ==> 0 <= #[trigger] idx[t] < old_objs.len() && objs[t].addr
                == old_objs[idx[t]].addr && objs[t].size == old_objs[idx[t]].size && objs[t].block
                == old_objs[idx[t]].block,
        forall|t1: int, t2: int|
            0 <= t1 < idx.len() && 0 <= t2 < idx.len() && t1 != t2 ==> #[trigger] idx[t1]
                != #[trigger] idx[t2],
        old_blocks.len() <= blocks.len(),
        forall|i: int|
            0 <= i < old_blocks.len() && !no_object_in(old_objs, i) ==> (#[trigger] blocks[i]).base()
                == old_blocks[i].base() && blocks[i].cursor() >= old_blocks[i].cursor(),
    ensures
        objects_well_placed(objs, blocks),
{
    assert forall|t: int| 0 <= t < objs.len() implies placed_in(#[trigger] objs[t], blocks) by {
        let k = idx[t];
        assert(placed_in(old_objs[k], old_blocks));
        assert(!no_object_in(old_objs, old_objs[k].block as int));
    }
    assert forall|t1: int, t2: int|
        0 <= t1 < objs.len() && 0 <= t2 < objs.len() && t1 != t2 implies disjoint(
        #[trigger] objs[t1],
        #[trigger] objs[t2],
    ) by {
        assert(idx[t1] != idx[t2]);
        assert(disjoint(old_objs[idx[t1]], old_objs[idx[t2]]));
    }
}

/// Pre-allocated objects, created with the heap and never moved.
pub struct PreAlloc {
    undef: UnsafeRef,
}

impl PreAlloc {
    /// The undef sentinel.
    pub closed spec fn spec_undef(&self) -> UnsafeRef {
        self.undef
    }

    /// The undef sentinel, with which every stack root starts out.
    pub fn undef(&self) -> (r: UnsafeRef)
        ensures
            r == self.spec_undef(),
    {
        self.undef
    }
}

/// What the heap keeps of each mutator.
struct MutatorState {
    active: bool,
    /// Index of the block in which the mutator bump-allocates.
    allocator: usize,
    /// Active stack root batches, innermost last.
    stack_root_batches: Vec<Vec<usize>>,
    /// Active pinned stack roots, innermost last.
    pinned_stack_roots: Vec<usize>,
}

/// Garbage-collected heap.
pub struct Heap {
    id: u64,
    /// Pre-allocated objects.
    pub pre_alloc: PreAlloc,
    /// Every block of the heap, in ascending order of address.
    blocks: Vec<Block>,
    /// Start of the part of the address space that no block covers yet.
    next_region: usize,
    /// Every live object.
    objects: Vec<ObjectRecord>,
    /// Every mutator ever created; a dropped one stays, inactive.
    mutators: Vec<MutatorState>,
    /// For each pinned object, how many pinned roots refer to it.
    pinned_roots: HashMap<usize, u64>,
    /// Whether a collection cycle has been requested.
    collection_requested: bool,
}

/// Per-thread handle through which a heap is mutated.
pub struct Mutator {
    heap: u64,
    index: usize,
}

/// A root in a stack root batch of a mutator.
#[derive(Clone, Copy, Debug, PartialEq, Eq, Structural)]
pub struct StackRoot {
    heap: u64,
    mutator: usize,
    batch: usize,
    slot: usize,
}

/// A batch of stack roots, handed out by [`Mutator::push_stack_roots`].
#[derive(Debug, PartialEq, Eq, Structural)]
pub struct StackRoots {
    heap: u64,
    mutator: usize,
    batch: usize,
    len: usize,
}

/// An immutable root that pins its object while it is on the mutator's stack.
#[derive(Debug, PartialEq, Eq, Structural)]
pub struct PinnedStackRoot {
    heap: u64,
    mutator: usize,
    depth: usize,
    object: UnsafeRef,
}

/// A root that pins its object until it is dropped.
#[derive(Debug, PartialEq, Eq, Structural)]
pub struct PinnedRoot {
    object: UnsafeRef,
}

/// How many pinned roots refer to the object at `addr`.
pub open spec fn pin_count(pinned: Map<usize, u64>, addr: usize) -> int {
    if pinned.contains_key(addr) {
        pinned[addr] as int
    } else {
        0
    }
}

/// The two heaps agree on their identity and on every root.
pub open spec fn same_roots(a: &Heap, b: &Heap) -> bool {
    &&& a.spec_id() == b.spec_id()
    &&& a.undef_ref() == b.undef_ref()
    &&& a.pinned() == b.pinned()
    &&& a.mutator_count() == b.mutator_count()
    &&& forall|m: int|
        #![trigger b.mutator_active(m)]
        #![trigger b.stack_batches(m)]
        #![trigger b.pinned_stack(m)]
        0 <= m < a.mutator_count() ==> {
            &&& a.mutator_active(m) == b.mutator_active(m)
            &&& a.stack_batches(m) == b.stack_batches(m)
            &&& a.pinned_stack(m) == b.pinned_stack(m)
        }
}

/// The two heaps agree on their blocks, on the part of the address space
/// the blocks cover, and on the block each mutator allocates in.
pub open spec fn allocation_kept(a: &Heap, b: &Heap) -> bool {
    &&& a.spec_blocks() == b.spec_blocks()
    &&& a.region_end() == b.region_end()
    &&& a.mutator_count() == b.mutator_count()
    &&& forall|m: int| 0 <= m < a.mutator_count() ==> #[trigger] b.allocator_of(m) == a.allocator_of(m)
}

/// The two heaps agree on their identity, on their pinned roots, and on the
/// roots of every mutator of `a` but `m0`; `b` may have more mutators.
pub open spec fn roots_kept_except(a: &Heap, b: &Heap, m0: int) -> bool {
    &&& a.spec_id() == b.spec_id()
    &&& a.undef_ref() == b.undef_ref()
    &&& a.pinned() == b.pinned()
    &&& a.mutator_count() <= b.mutator_count()
    &&& forall|m: int|
        #![trigger b.mutator_active(m)]
        #![trigger b.stack_batches(m)]
        #![trigger b.pinned_stack(m)]
        0 <= m < a.mutator_count() && m != m0 ==> {
            &&& a.mutator_active(m) == b.mutator_active(m)
            &&& a.stack_batches(m) == b.stack_batches(m)
            &&& a.pinned_stack(m) == b.pinned_stack(m)
        }
}

impl Heap {
    /// The identity of the heap.
    pub closed spec fn spec_id(&self) -> u64 {
        self.id
    }

    /// The undef sentinel of the heap.
    pub closed spec fn undef_ref(&self) -> UnsafeRef {
        self.pre_alloc.undef
    }

    /// Every block of the heap.
    pub closed spec fn spec_blocks(&self) -> Seq<Block> {
        self.blocks@
    }

    /// Every live object.
    pub closed spec fn spec_objects(&self) -> Seq<ObjectRecord> {
        self.objects@
    }

    /// For each pinned object, how many pinned roots refer to it.
    pub closed spec fn pinned(&self) -> Map<usize, u64> {
        self.pinned_roots@
    }

    /// Whether a collection cycle has been requested.
    pub closed spec fn spec_collection_requested(&self) -> bool {
        self.collection_requested
    }

    /// Number of mutators ever created.
    pub closed spec fn mutator_count(&self) -> int {
        self.mutators@.len() as int
    }

    /// Whether mutator `m` exists and has not been dropped.
    pub closed spec fn mutator_active(&self, m: int) -> bool {
        0 <= m < self.mutators@.len() && self.mutators@[m].active
    }

    /// The index of the block in which mutator `m` allocates.
    pub closed spec fn allocator_of(&self, m: int) -> int {
        self.mutators@[m].allocator as int
    }

    /// The block in which mutator `m` allocates.
    pub open spec fn allocator_block(&self, m: int) -> Block {
        self.spec_blocks()[self.allocator_of(m)]
    }

    /// The stack root batches of mutator `m`, innermost last.
    pub closed spec fn stack_batches(&self, m: int) -> Seq<Seq<usize>> {
        self.mutators@[m].stack_root_batches@.map_values(|b: Vec<usize>| b@)
    }

    /// The pinned stack roots of mutator `m`, innermost last.
    pub closed spec fn pinned_stack(&self, m: int) -> Seq<usize> {
        self.mutators@[m].pinned_stack_roots@
    }

    /// The blocks lie in ascending, disjoint, aligned regions below `next_region`.
    closed spec fn blocks_wf(&self) -> bool {
        &&& self.next_region % OBJECT_ALIGN == 0
        &&& forall|i: int|
            0 <= i < self.blocks@.len() ==> {
                &&& (#[trigger] self.blocks@[i]).wf()
                &&& self.blocks@[i].base() >= OBJECT_ALIGN
                &&& self.blocks@[i].base() + self.blocks@[i].capacity() <= self.next_region
            }
        &&& forall|i: int, j: int|
            0 <= i < j < self.blocks@.len() ==> #[trigger] self.blocks@[i].base()
                + self.blocks@[i].capacity() <= #[trigger] self.blocks@[j].base()
    }

    /// Each object lies, aligned, in the used part of its block, and no two
    /// objects overlap.
    closed spec fn objects_wf(&self) -> bool {
        objects_well_placed(self.objects@, self.blocks@)
    }

    /// The heap's internal consistency.
    pub closed spec fn wf(&self) -> bool {
        &&& self.blocks_wf()
        &&& self.objects_wf()
        &&& forall|a: usize| #[trigger] self.pinned_roots@.contains_key(a) ==> self.pinned_roots@[a] > 0
        &&& forall|m: int|
            0 <= m < self.mutators@.len() ==> (#[trigger] self.mutators@[m]).allocator
                < self.blocks@.len()
        &&& self.pre_alloc.undef.heap == self.id
        &&& is_live(self.objects@, self.pre_alloc.undef.addr)
    }

    /// The position of the undef sentinel among the objects.
    closed spec fn undef_index(&self) -> int {
        choose|k: int| 0 <= k < self.objects@.len() && #[trigger] self.objects@[k].addr
            == self.pre_alloc.undef.addr
    }

    /// Whether `r` refers to a live object of this heap.
    pub open spec fn holds(&self, r: UnsafeRef) -> bool {
        r.heap == self.spec_id() && is_live(self.spec_objects(), r.addr)
    }

    /// The identity of the heap.
    pub fn id(&self) -> (r: u64)
        ensures
            r == self.spec_id(),
    {
        self.id
    }

    /// Whether a collection cycle has been requested.
    pub fn collection_requested(&self) -> (r: bool)
        ensures
            r == self.spec_collection_requested(),
    {
        self.collection_requested
    }

    /// Request a collection cycle, which runs at the next safe point.
    pub fn request_collection(&mut self)
        requires
            old(self).wf(),
        ensures
            final(self).wf(),
            allocation_kept(old(self), final(self)),
            final(self).spec_collection_requested(),
            final(self).spec_objects() == old(self).spec_objects(),
            same_roots(old(self), final(self)),
    {
        self.collection_requested = true;
    }

    /// Create a heap with the given identity, holding the pre-allocated objects.
    ///
    /// Nothing here tells identities apart: the caller must give each heap
    /// of the process an identity that no other heap has.
    pub fn new(id: u64) -> (r: Heap)
        ensures
            r.wf(),
            r.spec_id() == id,
            r.pinned().is_empty(),
            r.mutator_count() == 0,
            r.spec_objects().len() == 1,
            r.spec_objects()[0].addr == r.undef_ref().addr,
            r.spec_objects()[0].fields@.len() == 0,
            r.undef_ref().heap == id,
            r.region_end() == OBJECT_ALIGN + DEFAULT_BLOCK_SIZE,
            !r.spec_collection_requested(),
    {
        let mut block = Block::new(OBJECT_ALIGN, DEFAULT_BLOCK_SIZE);
        let addr = match block.try_alloc(1) {
            Some(a) => a,
            None => {
                proof {
                    assert(false);
                }
                0
            },
        };
        let mut blocks: Vec<Block> = Vec::new();
        blocks.push(block);
        let mut objects: Vec<ObjectRecord> = Vec::new();
        objects.push(ObjectRecord { addr, size: 0, block: 0, fields: Vec::new() });
        let heap = Heap {
            id,
            pre_alloc: PreAlloc { undef: UnsafeRef { heap: id, addr } },
            blocks,
            next_region: OBJECT_ALIGN + DEFAULT_BLOCK_SIZE,
            objects,
            mutators: Vec::new(),
            pinned_roots: HashMap::new(),
            collection_requested: false,
        };
        assert(heap.objects@[0].addr == addr);
        assert(heap.pinned_roots@ =~= Map::empty());
        heap
    }

    /// Start of the part of the address space that no block covers yet.
    pub closed spec fn region_end(&self) -> int {
        self.next_region as int
    }

    /// Add an empty block over a fresh region of the given capacity.
    ///
    /// Fails when the address space has no room left.
    fn add_block(&mut self, capacity: usize) -> (r: Result<usize, AllocError>)
        requires
            old(self).wf(),
            capacity % OBJECT_ALIGN == 0,
        ensures
            final(self).wf(),
            final(self).id == old(self).id,
            final(self).pre_alloc == old(self).pre_alloc,
            final(self).objects@ == old(self).objects@,
            final(self).mutators@ == old(self).mutators@,
            final(self).pinned_roots@ == old(self).pinned_roots@,
            final(self).collection_requested == old(self).collection_requested,
            r is Err <==> old(self).next_region + capacity > usize::MAX,
            r is Err ==> *final(self) == *old(self),
            final(self).blocks@.len() >= old(self).blocks@.len(),
            forall|i: int|
                0 <= i < old(self).blocks@.len() ==> final(self).blocks@[i] == old(self).blocks@[i],
            r matches Ok(b) ==> {
                &&& final(self).next_region == old(self).next_region + capacity
                &&& b == old(self).blocks@.len()
                &&& final(self).blocks@.len() == old(self).blocks@.len() + 1
                &&& final(self).blocks@.drop_last() == old(self).blocks@
                &&& final(self).blocks@[b as int].base() == old(self).next_region
                &&& b < final(self).blocks@.len()
                &&& final(self).blocks@[b as int].capacity() == capacity
                &&& final(self).blocks@[b as int].cursor() == 0
                &&& forall|k: int|
                    0 <= k < final(self).objects@.len() ==> (#[trigger] final(self).objects@[k]).block
                        != b
            },
    {
        let base = self.next_region;
        if base > usize::MAX - capacity {
            return Err(AllocError);
        }
        let block = Block::new(base, capacity);
        self.blocks.push(block);
        self.next_region = base + capacity;
        let b = self.blocks.len() - 1;
        assert(self.blocks@.drop_last() =~= old(self).blocks@);
        assert forall|i: int, j: int|
            0 <= i < j < self.blocks@.len() implies #[trigger] self.blocks@[i].base()
            + self.blocks@[i].capacity() <= #[trigger] self.blocks@[j].base() by {
            if j == b {
                assert(self.blocks@[i] == old(self).blocks@[i]);
            }
        }
        assert forall|k: int| 0 <= k < self.objects@.len() implies (
        #[trigger] self.objects@[k]).block != b by {
            assert(self.objects@[k] == old(self).objects@[k]);
        }
        proof {
            lemma_objects_stay_placed(
                old(self).objects@,
                old(self).blocks@,
                self.objects@,
                self.blocks@,
                positions(self.objects@.len()),
            );
        }
        Ok(b)
    }

    /// Whether some object lives in block `b`.
    fn block_in_use(&self, b: usize) -> (r: bool)
        ensures
            r == !no_object_in(self.objects@, b as int),
    {
        let mut k: usize = 0;
        while k < self.objects.len()
            invariant
                k <= self.objects@.len(),
                forall|j: int| 0 <= j < k ==> (#[trigger] self.objects@[j]).block != b,
            decreases self.objects@.len() - k,
        {
            if self.objects[k].block == b {
                return true;
            }
            k = k + 1;
        }
        false
    }

    /// Whether block `b` is some active mutator's block.
    fn is_allocator(&self, b: usize) -> (r: bool)
        ensures
            r == exists|m: int|
                0 <= m < self.mutators@.len() && (#[trigger] self.mutators@[m]).active
                    && self.mutators@[m].allocator == b,
    {
        let mut m: usize = 0;
        while m < self.mutators.len()
            invariant
                m <= self.mutators@.len(),
                forall|j: int|
                    0 <= j < m ==> !((#[trigger] self.mutators@[j]).active && self.mutators@[j].allocator
                        == b),
            decreases self.mutators@.len() - m,
        {
            if self.mutators[m].active && self.mutators[m].allocator == b {
                return true;
            }
            m = m + 1;
        }
        false
    }

    /// Make every block that holds no live object free again.
    fn reclaim_blocks(&mut self)
        requires
            old(self).wf(),
        ensures
            final(self).wf(),
            final(self).id == old(self).id,
            final(self).pre_alloc == old(self).pre_alloc,
            final(self).objects@ == old(self).objects@,
            final(self).mutators@ == old(self).mutators@,
            final(self).pinned_roots@ == old(self).pinned_roots@,
            final(self).collection_requested == old(self).collection_requested,
            final(self).next_region == old(self).next_region,
            final(self).blocks@.len() == old(self).blocks@.len(),
            forall|j: int|
                0 <= j < final(self).blocks@.len() ==> (#[trigger] final(self).blocks@[j]).base()
                    == old(self).blocks@[j].base() && final(self).blocks@[j].capacity() == old(
                    self).blocks@[j].capacity(),
            forall|j: int|
                0 <= j < final(self).blocks@.len() && no_object_in(final(self).objects@, j) ==> (
                #[trigger] final(self).blocks@[j]).cursor() == 0,
    {
        let mut i: usize = 0;
        while i < self.blocks.len()
            invariant
                i <= self.blocks@.len(),
                forall|j: int|
                    0 <= j < self.blocks@.len() ==> (#[trigger] self.blocks@[j]).base()
                        == old(self).blocks@[j].base() && self.blocks@[j].capacity() == old(
                        self).blocks@[j].capacity(),
                forall|j: int|
                    0 <= j < i && no_object_in(self.objects@, j) ==> (
                    #[trigger] self.blocks@[j]).cursor() == 0,
                self.wf(),
                self.id == old(self).id,
                self.pre_alloc == old(self).pre_alloc,
                self.objects@ == old(self).objects@,
                self.mutators@ == old(self).mutators@,
                self.pinned_roots@ == old(self).pinned_roots@,
                self.collection_requested == old(self).collection_requested,
                self.next_region == old(self).next_region,
                self.blocks@.len() == old(self).blocks@.len(),
            decreases self.blocks@.len() - i,
        {
            if !self.block_in_use(i) {
                let ghost before = *self;
                let mut blk = Block::new(OBJECT_ALIGN, 0);
                self.blocks.set_and_swap(i, &mut blk);
                blk.reset();
                self.blocks.set(i, blk);
                proof {
                    assert forall|j: int| 0 <= j < self.blocks@.len() && j != i implies self.blocks@[j]
                        == before.blocks@[j] by {}
                    assert(self.blocks_wf()) by {
                        assert forall|x: int, y: int|
                            0 <= x < y < self.blocks@.len() implies #[trigger] self.blocks@[x].base()
                            + self.blocks@[x].capacity() <= #[trigger] self.blocks@[y].base() by {
                            assert(before.blocks@[x].base() + before.blocks@[x].capacity()
                                <= before.blocks@[y].base());
                        }
                    }
                    lemma_objects_stay_placed(
                        before.objects@,
                        before.blocks@,
                        self.objects@,
                        self.blocks@,
                        positions(self.objects@.len()),
                    );
                    assert forall|m: int| 0 <= m < self.mutators@.len() implies (
                    #[trigger] self.mutators@[m]).allocator < self.blocks@.len() by {
                        assert(self.mutators@[m] == before.mutators@[m]);
                    }
                }
            }
            i = i + 1;
        }
    }

    /// An empty ordinary block: a free one of the heap when there is one,
    /// else a fresh one.
    fn acquire_block(&mut self) -> (r: Result<usize, AllocError>)
        requires
            old(self).wf(),
        ensures
            final(self).wf(),
            final(self).id == old(self).id,
            final(self).pre_alloc == old(self).pre_alloc,
            final(self).objects@ == old(self).objects@,
            final(self).mutators@ == old(self).mutators@,
            final(self).pinned_roots@ == old(self).pinned_roots@,
            final(self).collection_requested == old(self).collection_requested,
            r is Err ==> old(self).next_region + DEFAULT_BLOCK_SIZE > usize::MAX,
            r is Err ==> *final(self) == *old(self),
            final(self).blocks@.len() >= old(self).blocks@.len(),
            forall|i: int|
                0 <= i < old(self).blocks@.len() ==> final(self).blocks@[i] == old(self).blocks@[i],
            r matches Ok(b) ==> {
                &&& b < final(self).blocks@.len()
                &&& final(self).blocks@[b as int].capacity() == DEFAULT_BLOCK_SIZE
                &&& final(self).blocks@[b as int].cursor() == 0
                &&& (b < old(self).blocks@.len() && final(self).blocks@ == old(self).blocks@
                    && final(self).next_region == old(self).next_region) || (b == old(
                    self).blocks@.len() && final(self).blocks@.drop_last() == old(self).blocks@
                    && final(self).next_region == old(self).next_region + DEFAULT_BLOCK_SIZE)
                &&& forall|m: int|
                    0 <= m < old(self).mutators@.len() && (#[trigger] old(self).mutators@[m]).active
                        ==> old(self).mutators@[m].allocator != b
            },
    {
        let mut i: usize = 0;
        while i < self.blocks.len()
            invariant
                i <= self.blocks@.len(),
                *self == *old(self),
                self.wf(),
            decreases self.blocks@.len() - i,
        {
            if self.blocks[i].get_cursor() == 0 && self.blocks[i].get_capacity() == DEFAULT_BLOCK_SIZE
                && !self.is_allocator(i) {
                return Ok(i);
            }
            i = i + 1;
        }
        self.add_block(DEFAULT_BLOCK_SIZE)
    }

    /// Bump-allocate an object of `size` bytes in block `b`, and record it.
    ///
    /// Succeeds exactly when the object's footprint fits in the free part of
    /// the block.
    fn alloc_in_block(&mut self, b: usize, size: usize) -> (r: Option<usize>)
        requires
            old(self).wf(),
            b < old(self).blocks@.len(),
        ensures
            final(self).wf(),
            final(self).id == old(self).id,
            final(self).pre_alloc == old(self).pre_alloc,
            final(self).mutators@ == old(self).mutators@,
            final(self).pinned_roots@ == old(self).pinned_roots@,
            final(self).collection_requested == old(self).collection_requested,
            final(self).next_region == old(self).next_region,
            final(self).blocks@.len() == old(self).blocks@.len(),
            (r is Some) <==> footprint(size as int) <= old(self).blocks@[b as int].capacity()
                - old(self).blocks@[b as int].cursor(),
            r is None ==> final(self).objects@ == old(self).objects@ && final(self).blocks@
                == old(self).blocks@,
            forall|i: int|
                0 <= i < old(self).blocks@.len() && i != b ==> final(self).blocks@[i] == old(
                    self).blocks@[i],
            r matches Some(addr) ==> {
                &&& final(self).blocks@[b as int].base() == old(self).blocks@[b as int].base()
                &&& final(self).blocks@[b as int].capacity() == old(self).blocks@[b as int].capacity()
                &&& final(self).blocks@[b as int].cursor() == old(self).blocks@[b as int].cursor()
                    + footprint(size as int)
                &&& addr % OBJECT_ALIGN == 0
                &&& addr == old(self).blocks@[b as int].base() + old(self).blocks@[b as int].cursor()
                &&& final(self).objects@.len() == old(self).objects@.len() + 1
                &&& final(self).objects@.drop_last() == old(self).objects@
                &&& final(self).objects@.last().addr == addr
                &&& final(self).objects@.last().size == size
                &&& final(self).objects@.last().block == b
                &&& final(self).objects@.last().fields@.len() == 0
                &&& !is_live(old(self).objects@, addr)
            },
    {
        let sz: usize = if size == 0 {
            1
        } else {
            size
        };
        let mut blk = Block::new(OBJECT_ALIGN, 0);
        self.blocks.set_and_swap(b, &mut blk);
        let ghost old_blk = blk;
        let res = blk.try_alloc(sz);
        self.blocks.set(b, blk);
        match res {
            None => {
                assert(self.blocks@ =~= old(self).blocks@);
                None
            },
            Some(addr) => {
                let ghost before = self.objects@;
                self.objects.push(ObjectRecord { addr, size, block: b, fields: Vec::new() });
                proof {
                    assert(self.objects@.drop_last() =~= before);
                    assert forall|i: int|
                        0 <= i < self.blocks@.len() && i != b implies self.blocks@[i]
                        == old(self).blocks@[i] by {}
                    assert(self.blocks_wf()) by {
                        assert forall|i: int, j: int|
                            0 <= i < j < self.blocks@.len() implies #[trigger] self.blocks@[i].base()
                            + self.blocks@[i].capacity() <= #[trigger] self.blocks@[j].base() by {
                            assert(old(self).blocks@[i].base() + old(self).blocks@[i].capacity()
                                <= old(self).blocks@[j].base());
                        }
                    }
                    let n = before.len() as int;
                    let o = self.objects@[n];
                    assert(old_blk == old(self).blocks@[b as int]);
                    assert(blk.base() == old_blk.base() && blk.cursor() >= old_blk.cursor());
                    assert(o.addr == old_blk.base() + old_blk.cursor());
                    assert(footprint(o.size as int) == round_up(sz as int));
                    assert(o.addr + footprint(o.size as int) <= old_blk.base() + old_blk.capacity());
                    // The new object lies past every object of its block, and in a
                    // region disjoint from every other block.
                    assert forall|k: int| 0 <= k < n implies disjoint(
                        #[trigger] before[k],
                        o,
                    ) by {
                        let c = before[k].block as int;
                        assert(old(self).objects@[k] == before[k]);
                        assert(before[k].addr + footprint(before[k].size as int) <= old(self).blocks@[
                            c].base() + old(self).blocks@[c].cursor());
                        assert(old(self).blocks@[c].wf());
                        if c < b {
                            assert(old(self).blocks@[c].base() + old(self).blocks@[c].capacity()
                                <= old(self).blocks@[b as int].base());
                            assert(disjoint(before[k], o));
                        } else if c > b {
                            assert(old(self).blocks@[b as int].base() + old(self).blocks@[
                                b as int].capacity() <= old(self).blocks@[c].base());
                            assert(disjoint(before[k], o));
                        } else {
                            assert(old_blk == old(self).blocks@[c]);
                            assert(disjoint(before[k], o));
                        }
                    }
                    assert(self.objects_wf()) by {
                        assert forall|k: int| 0 <= k < self.objects@.len() implies {
                            let o = #[trigger] self.objects@[k];
                            &&& o.block < self.blocks@.len()
                            &&& self.blocks@[o.block as int].base() <= o.addr
                            &&& o.addr + footprint(o.size as int) <= self.blocks@[
                                o.block as int].base() + self.blocks@[o.block as int].cursor()
                            &&& o.addr % OBJECT_ALIGN == 0
                        } by {
                            if k < n {
                                let c = before[k].block as int;
                                assert(self.objects@[k] == old(self).objects@[k]);
                                if c != b {
                                    assert(self.blocks@[c] == old(self).blocks@[c]);
                                } else {
                                    assert(self.blocks@[c] == blk);
                                }
                            } else {
                                assert(self.blocks@[b as int] == blk);
                            }
                        }
                        assert forall|k1: int, k2: int|
                            0 <= k1 < self.objects@.len() && 0 <= k2 < self.objects@.len() && k1
                                != k2 implies disjoint(
                            #[trigger] self.objects@[k1],
                            #[trigger] self.objects@[k2],
                        ) by {
                            if k1 < n && k2 < n {
                                assert(self.objects@[k1] == old(self).objects@[k1]);
                                assert(self.objects@[k2] == old(self).objects@[k2]);
                            } else if k1 < n {
                                assert(disjoint(before[k1], o));
                            } else {
                                assert(disjoint(before[k2], o));
                            }
                        }
                    }
                    assert(is_live(self.objects@, self.pre_alloc.undef.addr)) by {
                        let k = choose|k: int|
                            0 <= k < before.len() && #[trigger] before[k].addr
                                == self.pre_alloc.undef.addr;
                        assert(self.objects@[k] == before[k]);
                    }
                    assert forall|m: int| 0 <= m < self.mutators@.len() implies (
                    #[trigger] self.mutators@[m]).allocator < self.blocks@.len() by {}
                    assert(!is_live(before, addr)) by {
                        if is_live(before, addr) {
                            let k = choose|k: int|
                                0 <= k < before.len() && #[trigger] before[k].addr == addr;
                            assert(disjoint(before[k], o));
                        }
                    }
                }
                Some(addr)
            },
        }
    }

    /// The index of the live object at `addr`, if there is one.
    pub fn find_object(&self, addr: usize) -> (r: Option<usize>)
        ensures
            r matches Some(k) ==> k < self.spec_objects().len() && self.spec_objects()[k as int].addr
                == addr,
            r is None <==> !is_live(self.spec_objects(), addr),
    {
        let mut k: usize = 0;
        while k < self.objects.len()
            invariant
                k <= self.objects@.len(),
                forall|j: int| 0 <= j < k ==> #[trigger] self.objects@[j].addr != addr,
            decreases self.objects@.len() - k,
        {
            if self.objects[k].addr == addr {
                return Some(k);
            }
            k = k + 1;
        }
        None
    }

    /// The addresses held in the fields of the object `r` refers to.
    pub fn fields(&self, r: UnsafeRef) -> (f: &Vec<usize>)
        requires
            self.holds(r),
        ensures
            exists|k: int|
                0 <= k < self.spec_objects().len() && #[trigger] self.spec_objects()[k].addr
                    == r.addr && self.spec_objects()[k].fields == *f,
    {
        match self.find_object(r.addr) {
            Some(k) => &self.objects[k].fields,
            None => {
                proof {
                    assert(false);
                }
                &self.objects[0].fields
            },
        }
    }

    /// Overwrite the fields of the object `r` refers to with references to
    /// objects of this heap.
    pub fn set_fields(&mut self, r: UnsafeRef, fields: Vec<usize>)
        requires
            old(self).wf(),
            old(self).holds(r),
        ensures
            final(self).wf(),
            allocation_kept(old(self), final(self)),
            same_roots(old(self), final(self)),
            final(self).spec_objects().len() == old(self).spec_objects().len(),
            forall|k: int|
                #![trigger final(self).spec_objects()[k]]
                0 <= k < old(self).spec_objects().len() ==> {
                    &&& final(self).spec_objects()[k].addr == old(self).spec_objects()[k].addr
                    &&& final(self).spec_objects()[k].size == old(self).spec_objects()[k].size
                    &&& final(self).spec_objects()[k].fields@ == if old(self).spec_objects()[k].addr
                        == r.addr {
                        fields@
                    } else {
                        old(self).spec_objects()[k].fields@
                    }
                },
    {
        let k = match self.find_object(r.addr) {
            Some(k) => k,
            None => {
                proof {
                    assert(false);
                }
                0
            },
        };
        let mut rec = ObjectRecord { addr: 0, size: 0, block: 0, fields: Vec::new() };
        self.objects.set_and_swap(k, &mut rec);
        rec.fields = fields;
        self.objects.set(k, rec);
        proof {
            assert forall|j: int| 0 <= j < self.objects@.len() && j != k implies self.objects@[j]
                == old(self).objects@[j] by {}
            assert forall|j: int| 0 <= j < self.objects@.len() && j != k implies old(self).objects@[j].addr != r.addr by {
                assert(disjoint(old(self).objects@[j], old(self).objects@[k as int]));
            }
            lemma_objects_stay_placed(
                old(self).objects@,
                old(self).blocks@,
                self.objects@,
                self.blocks@,
                positions(self.objects@.len()),
            );
            assert(is_live(self.objects@, self.pre_alloc.undef.addr)) by {
                let j = choose|j: int|
                    0 <= j < old(self).objects@.len() && #[trigger] old(self).objects@[j].addr
                        == self.pre_alloc.undef.addr;
                assert(self.objects@[j].addr == old(self).objects@[j].addr);
            }
        }
    }

    /// Count one more pinned root for the object at `addr`.
    fn retain_pinned_root(&mut self, addr: usize)
        requires
            old(self).wf(),
            pin_count(old(self).pinned_roots@, addr) < u64::MAX,
        ensures
            final(self).wf(),
            final(self).pinned_roots@ == old(self).pinned_roots@.insert(
                addr,
                (pin_count(old(self).pinned_roots@, addr) + 1) as u64,
            ),
            final(self).id == old(self).id,
            final(self).pre_alloc == old(self).pre_alloc,
            final(self).blocks@ == old(self).blocks@,
            final(self).next_region == old(self).next_region,
            final(self).objects@ == old(self).objects@,
            final(self).mutators@ == old(self).mutators@,
            final(self).collection_requested == old(self).collection_requested,
    {
        let n: u64 = match self.pinned_roots.get(&addr) {
            Some(n) => *n,
            None => 0,
        };
        self.pinned_roots.insert(addr, n + 1);
    }

    /// Count one pinned root less for the object at `addr`, forgetting the
    /// object when none is left.
    fn release_pinned_root(&mut self, addr: usize)
        requires
            old(self).wf(),
            old(self).pinned_roots@.contains_key(addr),
        ensures
            final(self).wf(),
            final(self).pinned_roots@ == if old(self).pinned_roots@[addr] == 1 {
                old(self).pinned_roots@.remove(addr)
            } else {
                old(self).pinned_roots@.insert(addr, (old(self).pinned_roots@[addr] - 1) as u64)
            },
            final(self).id == old(self).id,
            final(self).pre_alloc == old(self).pre_alloc,
            final(self).blocks@ == old(self).blocks@,
            final(self).next_region == old(self).next_region,
            final(self).objects@ == old(self).objects@,
            final(self).mutators@ == old(self).mutators@,
            final(self).collection_requested == old(self).collection_requested,
    {
        let n: u64 = match self.pinned_roots.get(&addr) {
            Some(n) => *n,
            None => {
                proof {
                    assert(false);
                }
                1
            },
        };
        if n == 1 {
            self.pinned_roots.remove(&addr);
        } else {
            self.pinned_roots.insert(addr, n - 1);
        }
    }
}

impl Heap {
    /// Replace the state of mutator `m`.
    fn set_mutator(&mut self, m: usize, state: MutatorState)
        requires
            old(self).wf(),
            m < old(self).mutators@.len(),
            state.allocator < old(self).blocks@.len(),
        ensures
            final(self).wf(),
            final(self).mutators@ == old(self).mutators@.update(m as int, state),
            final(self).id == old(self).id,
            final(self).pre_alloc == old(self).pre_alloc,
            final(self).blocks@ == old(self).blocks@,
            final(self).next_region == old(self).next_region,
            final(self).objects@ == old(self).objects@,
            final(self).pinned_roots@ == old(self).pinned_roots@,
            final(self).collection_requested == old(self).collection_requested,
    {
        self.mutators.set(m, state);
    }

    /// Take the state of mutator `m` out, leaving an inactive placeholder.
    fn take_mutator(&mut self, m: usize) -> (state: MutatorState)
        requires
            old(self).wf(),
            m < old(self).mutators@.len(),
        ensures
            final(self).wf(),
            state == old(self).mutators@[m as int],
            final(self).mutators@.len() == old(self).mutators@.len(),
            forall|i: int|
                0 <= i < old(self).mutators@.len() && i != m ==> final(self).mutators@[i] == old(self).mutators@[i],
            !final(self).mutators@[m as int].active,
            final(self).id == old(self).id,
            final(self).pre_alloc == old(self).pre_alloc,
            final(self).blocks@ == old(self).blocks@,
            final(self).next_region == old(self).next_region,
            final(self).objects@ == old(self).objects@,
            final(self).pinned_roots@ == old(self).pinned_roots@,
            final(self).collection_requested == old(self).collection_requested,
    {
        let mut state = MutatorState {
            active: false,
            allocator: 0,
            stack_root_batches: Vec::new(),
            pinned_stack_roots: Vec::new(),
        };
        self.mutators.set_and_swap(m, &mut state);
        state
    }
}

impl Mutator {
    /// Identity of the heap the mutator belongs to.
    pub closed spec fn spec_heap(&self) -> u64 {
        self.heap
    }

    /// Index of the mutator in its heap.
    pub closed spec fn index(&self) -> int {
        self.index as int
    }

    /// The mutator belongs to `heap` and has not been dropped.
    pub open spec fn attached(&self, heap: &Heap) -> bool {
        self.spec_heap() == heap.spec_id() && heap.mutator_active(self.index())
    }

    /// Identity of the heap the mutator belongs to.
    pub fn heap_id(&self) -> (r: u64)
        ensures
            r == self.spec_heap(),
    {
        self.heap
    }

    /// Whether the mutator belongs to `heap` and has not been dropped.
    pub fn is_attached(&self, heap: &Heap) -> (r: bool)
        ensures
            r == self.attached(heap),
    {
        self.heap == heap.id && self.index < heap.mutators.len() && heap.mutators[self.index].active
    }

    /// Create a mutator for a heap, with a fresh allocator block, and
    /// register it with the heap.
    ///
    /// Fails when the address space has no room for the block.
    pub fn new(heap: &mut Heap) -> (r: Result<Mutator, AllocError>)
        requires
            old(heap).wf(),
        ensures
            final(heap).wf(),
            r is Err ==> old(heap).region_end() + DEFAULT_BLOCK_SIZE > usize::MAX,
            r is Err ==> *final(heap) == *old(heap),
            final(heap).spec_objects() == old(heap).spec_objects(),
            roots_kept_except(old(heap), final(heap), -1),
            r matches Ok(m) ==> {
                &&& m.index() == old(heap).mutator_count()
                &&& final(heap).mutator_count() == old(heap).mutator_count() + 1
                &&& m.attached(final(heap))
                &&& final(heap).stack_batches(m.index()).len() == 0
                &&& final(heap).pinned_stack(m.index()).len() == 0
                &&& 0 <= final(heap).allocator_of(m.index()) < final(heap).spec_blocks().len()
                &&& final(heap).spec_blocks()[final(heap).allocator_of(m.index())].capacity()
                    == DEFAULT_BLOCK_SIZE
                &&& final(heap).spec_blocks()[final(heap).allocator_of(m.index())].cursor() == 0
            },
            final(heap).spec_blocks().len() >= old(heap).spec_blocks().len(),
            forall|i: int|
                0 <= i < old(heap).spec_blocks().len() ==> #[trigger] final(heap).spec_blocks()[i]
                    == old(heap).spec_blocks()[i],
    {
        let b = match heap.acquire_block() {
            Ok(b) => b,
            Err(e) => {
                return Err(e);
            },
        };
        let index = heap.mutators.len();
        heap.mutators.push(
            MutatorState {
                active: true,
                allocator: b,
                stack_root_batches: Vec::new(),
                pinned_stack_roots: Vec::new(),
            },
        );
        proof {
            assert forall|m: int| 0 <= m < heap.mutators@.len() implies (
            #[trigger] heap.mutators@[m]).allocator < heap.blocks@.len() by {
                if m < index {
                    assert(heap.mutators@[m] == old(heap).mutators@[m]);
                }
            }
            assert(heap.mutators@[index as int].stack_root_batches@.map_values(
                |v: Vec<usize>| v@,
            ).len() == 0);
            assert forall|m: int| 0 <= m < old(heap).mutators@.len() implies heap.mutators@[m]
                == old(heap).mutators@[m] by {}
        }
        Ok(Mutator { heap: heap.id, index })
    }

    /// Allocate memory for an object of `size` bytes.
    ///
    /// An object larger than an ordinary block gets a block of its own.
    /// Otherwise the object is bump-allocated in the mutator's block, and when
    /// that is full, in a fresh block that becomes the mutator's new one.
    /// Fails when the address space has no room for a needed block.
    pub fn alloc_object(&self, heap: &mut Heap, size: usize) -> (r: Result<UnsafeRef, AllocError>)
        requires
            old(heap).wf(),
            self.attached(old(heap)),
        ensures
            final(heap).wf(),
            same_roots(old(heap), final(heap)),
            size > DEFAULT_BLOCK_SIZE ==> (r is Err <==> old(heap).region_end() + round_up(
                size as int,
            ) > usize::MAX),
            size <= DEFAULT_BLOCK_SIZE && r is Err ==> footprint(size as int) > old(
                heap).spec_blocks()[old(heap).allocator_of(self.index())].capacity() - old(
                heap).spec_blocks()[old(heap).allocator_of(self.index())].cursor() && old(
                heap).region_end() + DEFAULT_BLOCK_SIZE > usize::MAX,
            size <= DEFAULT_BLOCK_SIZE && footprint(size as int) <= old(heap).spec_blocks()[old(
                heap).allocator_of(self.index())].capacity() - old(heap).spec_blocks()[old(
                heap).allocator_of(self.index())].cursor() ==> r is Ok,
            size <= DEFAULT_BLOCK_SIZE && old(heap).region_end() + DEFAULT_BLOCK_SIZE <= usize::MAX
                ==> r is Ok,
            r is Err ==> {
                &&& final(heap).spec_objects() == old(heap).spec_objects()
                &&& final(heap).spec_blocks() == old(heap).spec_blocks()
                &&& final(heap).region_end() == old(heap).region_end()
                &&& final(heap).allocator_of(self.index()) == old(heap).allocator_of(self.index())
            },
            size > DEFAULT_BLOCK_SIZE ==> (r matches Ok(p) ==> {
                &&& final(heap).spec_blocks().len() == old(heap).spec_blocks().len() + 1
                &&& final(heap).spec_blocks().drop_last() == old(heap).spec_blocks()
                &&& final(heap).spec_blocks().last().capacity() == round_up(size as int)
                &&& final(heap).spec_blocks().last().base() == p.addr
                &&& final(heap).spec_blocks().last().cursor() == round_up(size as int)
                &&& final(heap).spec_objects().last().block == old(heap).spec_blocks().len()
                &&& final(heap).allocator_of(self.index()) == old(heap).allocator_of(self.index())
                &&& final(heap).region_end() == old(heap).region_end() + round_up(size as int)
            }),
            size <= DEFAULT_BLOCK_SIZE && footprint(size as int) <= old(heap).allocator_block(
                self.index()).capacity() - old(heap).allocator_block(self.index()).cursor() ==> (
            r matches Ok(p) ==> {
                &&& p.addr == old(heap).allocator_block(self.index()).base() + old(
                    heap).allocator_block(self.index()).cursor()
                &&& final(heap).spec_objects().last().block == old(heap).allocator_of(self.index())
                &&& final(heap).allocator_of(self.index()) == old(heap).allocator_of(self.index())
                &&& final(heap).allocator_block(self.index()).base() == old(heap).allocator_block(
                    self.index()).base()
                &&& final(heap).allocator_block(self.index()).capacity() == old(
                    heap).allocator_block(self.index()).capacity()
                &&& final(heap).allocator_block(self.index()).cursor() == old(heap).allocator_block(
                    self.index()).cursor() + footprint(size as int)
                &&& final(heap).spec_blocks().len() == old(heap).spec_blocks().len()
                &&& forall|i: int|
                    0 <= i < old(heap).spec_blocks().len() && i != old(heap).allocator_of(
                        self.index()) ==> #[trigger] final(heap).spec_blocks()[i] == old(
                        heap).spec_blocks()[i]
                &&& final(heap).region_end() == old(heap).region_end()
            }),
            size <= DEFAULT_BLOCK_SIZE && footprint(size as int) > old(heap).allocator_block(
                self.index()).capacity() - old(heap).allocator_block(self.index()).cursor() ==> (
            r matches Ok(p) ==> {
                &&& 0 <= final(heap).allocator_of(self.index()) < final(heap).spec_blocks().len()
                &&& final(heap).allocator_block(self.index()).capacity() == DEFAULT_BLOCK_SIZE
                &&& final(heap).allocator_block(self.index()).cursor() == footprint(size as int)
                &&& final(heap).allocator_block(self.index()).base() == p.addr
                &&& final(heap).allocator_of(self.index()) != old(heap).allocator_of(self.index())
                &&& final(heap).spec_objects().last().block == final(heap).allocator_of(self.index())
                &&& final(heap).spec_blocks().len() >= old(heap).spec_blocks().len()
                &&& forall|i: int|
                    0 <= i < old(heap).spec_blocks().len() && i != final(heap).allocator_of(
                        self.index()) ==> #[trigger] final(heap).spec_blocks()[i] == old(
                        heap).spec_blocks()[i]
            }),
            r matches Ok(p) ==> {
                &&& p.heap == old(heap).spec_id()
                &&& p.addr % OBJECT_ALIGN == 0
                &&& !is_live(old(heap).spec_objects(), p.addr)
                &&& final(heap).spec_objects().drop_last() == old(heap).spec_objects()
                &&& final(heap).spec_objects().len() == old(heap).spec_objects().len() + 1
                &&& final(heap).spec_objects().last().addr == p.addr
                &&& final(heap).spec_objects().last().size == size
                &&& final(heap).spec_objects().last().fields@.len() == 0
            },
    {
        if size > DEFAULT_BLOCK_SIZE {
            return self.alloc_large(heap, size);
        }
        match self.alloc_small_fast(heap, size) {
            Some(p) => Ok(p),
            None => self.alloc_small_slow(heap, size),
        }
    }

    /// Allocate an ad-hoc block for this one object.
    fn alloc_large(&self, heap: &mut Heap, size: usize) -> (r: Result<UnsafeRef, AllocError>)
        requires
            old(heap).wf(),
            self.attached(old(heap)),
            size > DEFAULT_BLOCK_SIZE,
        ensures
            final(heap).wf(),
            final(heap).mutators@ == old(heap).mutators@,
            final(heap).id == old(heap).id,
            final(heap).pre_alloc == old(heap).pre_alloc,
            final(heap).pinned_roots@ == old(heap).pinned_roots@,
            final(heap).collection_requested == old(heap).collection_requested,
            r is Err <==> old(heap).next_region + round_up(size as int) > usize::MAX,
            r is Err ==> *final(heap) == *old(heap),
            r matches Ok(p) ==> {
                &&& final(heap).blocks@.len() == old(heap).blocks@.len() + 1
                &&& final(heap).blocks@.drop_last() == old(heap).blocks@
                &&& final(heap).blocks@.last().capacity() == round_up(size as int)
                &&& final(heap).blocks@.last().base() == p.addr
                &&& final(heap).blocks@.last().cursor() == round_up(size as int)
                &&& final(heap).next_region == old(heap).next_region + round_up(size as int)
                &&& final(heap).objects@.last().block == old(heap).blocks@.len()
            },
            r matches Ok(p) ==> {
                &&& p.heap == old(heap).id
                &&& p.addr % OBJECT_ALIGN == 0
                &&& !is_live(old(heap).objects@, p.addr)
                &&& final(heap).objects@.drop_last() == old(heap).objects@
                &&& final(heap).objects@.len() == old(heap).objects@.len() + 1
                &&& final(heap).objects@.last().addr == p.addr
                &&& final(heap).objects@.last().size == size
                &&& final(heap).objects@.last().fields@.len() == 0
            },
    {
        let capacity = match round_up_size(size) {
            Some(c) => c,
            None => {
                return Err(AllocError);
            },
        };
        proof {
            assert(capacity % OBJECT_ALIGN == 0);
        }
        let b = match heap.add_block(capacity) {
            Ok(b) => b,
            Err(e) => {
                return Err(e);
            },
        };
        let ghost mid = heap.blocks@;
        let r = match heap.alloc_in_block(b, size) {
            Some(addr) => Ok(UnsafeRef { heap: heap.id, addr }),
            None => {
                proof {
                    assert(false);
                }
                Err(AllocError)
            },
        };
        proof {
            assert(heap.blocks@.drop_last() =~= old(heap).blocks@) by {
                assert forall|i: int| 0 <= i < old(heap).blocks@.len() implies heap.blocks@[i]
                    == old(heap).blocks@[i] by {
                    assert(mid[i] == old(heap).blocks@[i]);
                }
            }
        }
        r
    }

    /// Try a bump allocation in the mutator's block.
    fn alloc_small_fast(&self, heap: &mut Heap, size: usize) -> (r: Option<UnsafeRef>)
        requires
            old(heap).wf(),
            self.attached(old(heap)),
        ensures
            final(heap).wf(),
            final(heap).mutators@ == old(heap).mutators@,
            final(heap).id == old(heap).id,
            final(heap).pre_alloc == old(heap).pre_alloc,
            final(heap).pinned_roots@ == old(heap).pinned_roots@,
            final(heap).collection_requested == old(heap).collection_requested,
            final(heap).next_region == old(heap).next_region,
            (r is None) <==> footprint(size as int) > old(heap).blocks@[old(heap).mutators@[self.index as int].allocator as int].capacity() - old(heap).blocks@[old(heap).mutators@[self.index as int].allocator as int].cursor(),
            r is None ==> final(heap).objects@ == old(heap).objects@ && final(heap).blocks@ == old(
                heap).blocks@,
            final(heap).blocks@.len() == old(heap).blocks@.len(),
            forall|i: int|
                0 <= i < old(heap).blocks@.len() && i != old(heap).mutators@[self.index as int].allocator
                    ==> final(heap).blocks@[i] == old(heap).blocks@[i],
            r matches Some(p) ==> {
                let a = old(heap).mutators@[self.index as int].allocator as int;
                &&& p.addr == old(heap).blocks@[a].base() + old(heap).blocks@[a].cursor()
                &&& final(heap).objects@.last().block == a
                &&& final(heap).blocks@[a].base() == old(heap).blocks@[a].base()
                &&& final(heap).blocks@[a].capacity() == old(heap).blocks@[a].capacity()
                &&& final(heap).blocks@[a].cursor() == old(heap).blocks@[a].cursor() + footprint(
                    size as int)
            },
            r matches Some(p) ==> {
                &&& p.heap == old(heap).id
                &&& p.addr % OBJECT_ALIGN == 0
                &&& !is_live(old(heap).objects@, p.addr)
                &&& final(heap).objects@.drop_last() == old(heap).objects@
                &&& final(heap).objects@.len() == old(heap).objects@.len() + 1
                &&& final(heap).objects@.last().addr == p.addr
                &&& final(heap).objects@.last().size == size
                &&& final(heap).objects@.last().fields@.len() == 0
            },
    {
        let b = heap.mutators[self.index].allocator;
        match heap.alloc_in_block(b, size) {
            Some(addr) => Some(UnsafeRef { heap: heap.id, addr }),
            None => None,
        }
    }

    /// Allocate in a fresh block, which becomes the mutator's new block; the
    /// old one stays with the heap.
    fn alloc_small_slow(&self, heap: &mut Heap, size: usize) -> (r: Result<UnsafeRef, AllocError>)
        requires
            old(heap).wf(),
            self.attached(old(heap)),
            size <= DEFAULT_BLOCK_SIZE,
        ensures
            final(heap).wf(),
            same_roots(old(heap), final(heap)),
            final(heap).collection_requested == old(heap).collection_requested,
            r is Err ==> old(heap).next_region + DEFAULT_BLOCK_SIZE > usize::MAX,
            r is Err ==> *final(heap) == *old(heap),
            final(heap).blocks@.len() >= old(heap).blocks@.len(),
            r matches Ok(p) ==> {
                let a = final(heap).mutators@[self.index as int].allocator as int;
                &&& 0 <= a < final(heap).blocks@.len()
                &&& final(heap).blocks@[a].capacity() == DEFAULT_BLOCK_SIZE
                &&& final(heap).blocks@[a].cursor() == footprint(size as int)
                &&& final(heap).blocks@[a].base() == p.addr
                &&& a != old(heap).mutators@[self.index as int].allocator
                &&& final(heap).objects@.last().block == a
                &&& forall|i: int|
                    0 <= i < old(heap).blocks@.len() && i != a ==> final(heap).blocks@[i] == old(
                        heap).blocks@[i]
            },
            r matches Ok(p) ==> {
                &&& p.heap == old(heap).id
                &&& p.addr % OBJECT_ALIGN == 0
                &&& !is_live(old(heap).objects@, p.addr)
                &&& final(heap).objects@.drop_last() == old(heap).objects@
                &&& final(heap).objects@.len() == old(heap).objects@.len() + 1
                &&& final(heap).objects@.last().addr == p.addr
                &&& final(heap).objects@.last().size == size
                &&& final(heap).objects@.last().fields@.len() == 0
            },
    {
        let b = match heap.acquire_block() {
            Ok(b) => b,
            Err(e) => {
                return Err(e);
            },
        };
        let ghost mid = *heap;
        let mut state = heap.take_mutator(self.index);
        state.allocator = b;
        heap.set_mutator(self.index, state);
        proof {
            assert(heap.mutators@ =~= mid.mutators@.update(self.index as int, state));
            lemma_round_up_le_default(size as int);
        }
        let r = match heap.alloc_in_block(b, size) {
            Some(addr) => Ok(UnsafeRef { heap: heap.id, addr }),
            None => {
                proof {
                    assert(false);
                }
                Err(AllocError)
            },
        };
        proof {
            assert forall|m: int| 0 <= m < old(heap).mutators@.len() implies {
                &&& old(heap).mutator_active(m) == heap.mutator_active(m)
                &&& old(heap).stack_batches(m) == heap.stack_batches(m)
                &&& old(heap).pinned_stack(m) == heap.pinned_stack(m)
            } by {
                if m != self.index {
                    assert(heap.mutators@[m] == old(heap).mutators@[m]);
                }
            }
        }
        r
    }
}

impl Mutator {
    /// Push a batch of `n` stack roots, each referring to undef.
    ///
    /// The batch stays on the mutator's stack until it is popped by
    /// [`Mutator::pop_stack_roots`]; batches come and go in LIFO order.
    pub fn push_stack_roots(&self, heap: &mut Heap, n: usize) -> (r: StackRoots)
        requires
            old(heap).wf(),
            self.attached(old(heap)),
        ensures
            final(heap).wf(),
            allocation_kept(old(heap), final(heap)),
            final(heap).spec_objects() == old(heap).spec_objects(),
            roots_kept_except(old(heap), final(heap), self.index()),
            final(heap).mutator_count() == old(heap).mutator_count(),
            self.attached(final(heap)),
            final(heap).pinned_stack(self.index()) == old(heap).pinned_stack(self.index()),
            final(heap).stack_batches(self.index()) == old(heap).stack_batches(self.index()).push(
                Seq::new(n as nat, |i: int| old(heap).undef_ref().addr),
            ),
            r.spec_heap() == old(heap).spec_id(),
            r.spec_mutator() == self.index(),
            r.spec_batch() == old(heap).stack_batches(self.index()).len(),
            r.spec_len() == n,
    {
        let undef = heap.pre_alloc.undef().addr;
        let mut batch: Vec<usize> = Vec::new();
        let mut i: usize = 0;
        while i < n
            invariant
                i <= n,
                batch@ == Seq::new(i as nat, |j: int| undef),
            decreases n - i,
        {
            batch.push(undef);
            i = i + 1;
            assert(batch@ =~= Seq::new(i as nat, |j: int| undef));
        }
        let mut state = heap.take_mutator(self.index);
        let depth = state.stack_root_batches.len();
        let ghost before = state.stack_root_batches@;
        state.stack_root_batches.push(batch);
        state.active = true;
        heap.set_mutator(self.index, state);
        proof {
            assert(state.stack_root_batches@.map_values(|b: Vec<usize>| b@) =~= before.map_values(
                |b: Vec<usize>| b@,
            ).push(Seq::new(n as nat, |j: int| undef)));
            assert forall|m: int| 0 <= m < old(heap).mutators@.len() && m != self.index implies
                heap.mutators@[m] == old(heap).mutators@[m] by {}
        }
        StackRoots { heap: self.heap, mutator: self.index, batch: depth, len: n }
    }

    /// Pop the innermost batch of stack roots.
    pub fn pop_stack_roots(&self, heap: &mut Heap, batch: StackRoots)
        requires
            old(heap).wf(),
            self.attached(old(heap)),
            batch.spec_heap() == old(heap).spec_id(),
            batch.spec_mutator() == self.index(),
            batch.spec_batch() + 1 == old(heap).stack_batches(self.index()).len(),
        ensures
            final(heap).wf(),
            allocation_kept(old(heap), final(heap)),
            final(heap).spec_objects() == old(heap).spec_objects(),
            roots_kept_except(old(heap), final(heap), self.index()),
            final(heap).mutator_count() == old(heap).mutator_count(),
            self.attached(final(heap)),
            final(heap).pinned_stack(self.index()) == old(heap).pinned_stack(self.index()),
            final(heap).stack_batches(self.index()) == old(heap).stack_batches(
                self.index(),
            ).drop_last(),
    {
        let mut state = heap.take_mutator(self.index);
        let ghost before = state.stack_root_batches@;
        state.stack_root_batches.pop();
        state.active = true;
        heap.set_mutator(self.index, state);
        proof {
            assert(state.stack_root_batches@.map_values(|b: Vec<usize>| b@) =~= before.map_values(
                |b: Vec<usize>| b@,
            ).drop_last());
            assert forall|m: int| 0 <= m < old(heap).mutators@.len() && m != self.index implies
                heap.mutators@[m] == old(heap).mutators@[m] by {}
        }
    }

    /// Push a pinned stack root for `object`, which pins it until the root
    /// is popped by [`Mutator::pop_pinned_stack_root`].
    pub fn push_pinned_stack_root(&self, heap: &mut Heap, object: UnsafeRef) -> (r:
        PinnedStackRoot)
        requires
            old(heap).wf(),
            self.attached(old(heap)),
            object.heap == old(heap).spec_id(),
        ensures
            final(heap).wf(),
            allocation_kept(old(heap), final(heap)),
            final(heap).spec_objects() == old(heap).spec_objects(),
            roots_kept_except(old(heap), final(heap), self.index()),
            final(heap).mutator_count() == old(heap).mutator_count(),
            self.attached(final(heap)),
            final(heap).stack_batches(self.index()) == old(heap).stack_batches(self.index()),
            final(heap).pinned_stack(self.index()) == old(heap).pinned_stack(self.index()).push(
                object.addr,
            ),
            r.spec_heap() == old(heap).spec_id(),
            r.spec_mutator() == self.index(),
            r.spec_depth() == old(heap).pinned_stack(self.index()).len(),
            r.spec_object() == object,
    {
        let mut state = heap.take_mutator(self.index);
        let depth = state.pinned_stack_roots.len();
        state.pinned_stack_roots.push(object.addr);
        state.active = true;
        heap.set_mutator(self.index, state);
        proof {
            assert forall|m: int| 0 <= m < old(heap).mutators@.len() && m != self.index implies
                heap.mutators@[m] == old(heap).mutators@[m] by {}
        }
        PinnedStackRoot { heap: self.heap, mutator: self.index, depth, object }
    }

    /// Pop the innermost pinned stack root.
    pub fn pop_pinned_stack_root(&self, heap: &mut Heap, root: PinnedStackRoot)
        requires
            old(heap).wf(),
            self.attached(old(heap)),
            root.spec_heap() == old(heap).spec_id(),
            root.spec_mutator() == self.index(),
            root.spec_depth() + 1 == old(heap).pinned_stack(self.index()).len(),
        ensures
            final(heap).wf(),
            allocation_kept(old(heap), final(heap)),
            final(heap).spec_objects() == old(heap).spec_objects(),
            roots_kept_except(old(heap), final(heap), self.index()),
            final(heap).mutator_count() == old(heap).mutator_count(),
            self.attached(final(heap)),
            final(heap).stack_batches(self.index()) == old(heap).stack_batches(self.index()),
            final(heap).pinned_stack(self.index()) == old(heap).pinned_stack(
                self.index(),
            ).drop_last(),
    {
        let mut state = heap.take_mutator(self.index);
        state.pinned_stack_roots.pop();
        state.active = true;
        heap.set_mutator(self.index, state);
        proof {
            assert forall|m: int| 0 <= m < old(heap).mutators@.len() && m != self.index implies
                heap.mutators@[m] == old(heap).mutators@[m] by {}
        }
    }

    /// Detach the mutator from its heap. Its block stays with the heap, and
    /// its roots are gone.
    pub fn detach(self, heap: &mut Heap)
        requires
            old(heap).wf(),
            self.attached(old(heap)),
        ensures
            final(heap).wf(),
            final(heap).spec_objects() == old(heap).spec_objects(),
            final(heap).spec_blocks() == old(heap).spec_blocks(),
            final(heap).region_end() == old(heap).region_end(),
            roots_kept_except(old(heap), final(heap), self.index()),
            final(heap).mutator_count() == old(heap).mutator_count(),
            !final(heap).mutator_active(self.index()),
            final(heap).stack_batches(self.index()).len() == 0,
            final(heap).pinned_stack(self.index()).len() == 0,
    {
        let mut state = heap.take_mutator(self.index);
        state.stack_root_batches = Vec::new();
        state.pinned_stack_roots = Vec::new();
        state.active = false;
        heap.set_mutator(self.index, state);
        proof {
            assert(state.stack_root_batches@.map_values(|b: Vec<usize>| b@).len() == 0);
            assert forall|m: int| 0 <= m < old(heap).mutators@.len() && m != self.index implies
                heap.mutators@[m] == old(heap).mutators@[m] by {}
        }
    }
}

impl Mutator {
    /// Number of active stack root batches of the mutator.
    pub fn stack_root_batch_count(&self, heap: &Heap) -> (r: usize)
        requires
            self.attached(heap),
        ensures
            r == heap.stack_batches(self.index()).len(),
    {
        heap.mutators[self.index].stack_root_batches.len()
    }

    /// Number of active pinned stack roots of the mutator.
    pub fn pinned_stack_root_count(&self, heap: &Heap) -> (r: usize)
        requires
            self.attached(heap),
        ensures
            r == heap.pinned_stack(self.index()).len(),
    {
        heap.mutators[self.index].pinned_stack_roots.len()
    }
}

impl StackRoots {
    /// Identity of the heap the batch belongs to.
    pub closed spec fn spec_heap(&self) -> u64 {
        self.heap
    }

    /// Index of the mutator whose stack holds the batch.
    pub closed spec fn spec_mutator(&self) -> int {
        self.mutator as int
    }

    /// Position of the batch on the mutator's stack.
    pub closed spec fn spec_batch(&self) -> int {
        self.batch as int
    }

    /// Number of roots in the batch.
    pub closed spec fn spec_len(&self) -> int {
        self.len as int
    }

    /// Number of roots in the batch.
    pub fn len(&self) -> (r: usize)
        ensures
            r == self.spec_len(),
    {
        self.len
    }

    /// The `i`-th root of the batch.
    pub fn root(&self, i: usize) -> (r: StackRoot)
        requires
            i < self.spec_len(),
        ensures
            r.spec_heap() == self.spec_heap(),
            r.spec_mutator() == self.spec_mutator(),
            r.spec_batch() == self.spec_batch(),
            r.spec_slot() == i,
    {
        StackRoot { heap: self.heap, mutator: self.mutator, batch: self.batch, slot: i }
    }
}

impl StackRoot {
    /// Identity of the heap the root belongs to.
    pub closed spec fn spec_heap(&self) -> u64 {
        self.heap
    }

    /// Index of the mutator whose stack holds the root.
    pub closed spec fn spec_mutator(&self) -> int {
        self.mutator as int
    }

    /// Position of the root's batch on the mutator's stack.
    pub closed spec fn spec_batch(&self) -> int {
        self.batch as int
    }

    /// Position of the root in its batch.
    pub closed spec fn spec_slot(&self) -> int {
        self.slot as int
    }

    /// The root's slot exists on `heap`.
    pub open spec fn valid(&self, heap: &Heap) -> bool {
        &&& self.spec_heap() == heap.spec_id()
        &&& heap.mutator_active(self.spec_mutator())
        &&& 0 <= self.spec_batch() < heap.stack_batches(self.spec_mutator()).len()
        &&& 0 <= self.spec_slot() < heap.stack_batches(self.spec_mutator())[self.spec_batch()].len()
    }

    /// The address the root's slot holds.
    pub open spec fn spec_get(&self, heap: &Heap) -> usize {
        heap.stack_batches(self.spec_mutator())[self.spec_batch()][self.spec_slot()]
    }

    /// The reference the root holds.
    pub fn get(&self, heap: &Heap) -> (r: UnsafeRef)
        requires
            self.valid(heap),
        ensures
            r == (UnsafeRef { heap: heap.spec_id(), addr: self.spec_get(heap) }),
    {
        UnsafeRef {
            heap: heap.id,
            addr: heap.mutators[self.mutator].stack_root_batches[self.batch][self.slot],
        }
    }

    /// Make the root refer to `object`.
    pub fn set(&self, heap: &mut Heap, object: UnsafeRef)
        requires
            old(heap).wf(),
            self.valid(old(heap)),
            object.heap == old(heap).spec_id(),
        ensures
            final(heap).wf(),
            allocation_kept(old(heap), final(heap)),
            final(heap).spec_objects() == old(heap).spec_objects(),
            roots_kept_except(old(heap), final(heap), self.spec_mutator()),
            final(heap).mutator_count() == old(heap).mutator_count(),
            final(heap).mutator_active(self.spec_mutator()),
            final(heap).pinned_stack(self.spec_mutator()) == old(heap).pinned_stack(
                self.spec_mutator(),
            ),
            final(heap).stack_batches(self.spec_mutator()) == old(heap).stack_batches(
                self.spec_mutator(),
            ).update(
                self.spec_batch(),
                old(heap).stack_batches(self.spec_mutator())[self.spec_batch()].update(
                    self.spec_slot(),
                    object.addr,
                ),
            ),
    {
        let mut state = heap.take_mutator(self.mutator);
        let ghost before = state.stack_root_batches@;
        let mut batch: Vec<usize> = Vec::new();
        state.stack_root_batches.set_and_swap(self.batch, &mut batch);
        batch.set(self.slot, object.addr);
        state.stack_root_batches.set(self.batch, batch);
        state.active = true;
        heap.set_mutator(self.mutator, state);
        proof {
            assert(state.stack_root_batches@.map_values(|b: Vec<usize>| b@) =~= before.map_values(
                |b: Vec<usize>| b@,
            ).update(self.batch as int, before[self.batch as int]@.update(self.slot as int, object.addr)));
            assert forall|m: int| 0 <= m < old(heap).mutators@.len() && m != self.mutator implies
                heap.mutators@[m] == old(heap).mutators@[m] by {}
        }
    }
}

impl PinnedStackRoot {
    /// Identity of the heap the root belongs to.
    pub closed spec fn spec_heap(&self) -> u64 {
        self.heap
    }

    /// Index of the mutator whose stack holds the root.
    pub closed spec fn spec_mutator(&self) -> int {
        self.mutator as int
    }

    /// Position of the root on the mutator's pinned stack.
    pub closed spec fn spec_depth(&self) -> int {
        self.depth as int
    }

    /// The reference the root holds.
    pub closed spec fn spec_object(&self) -> UnsafeRef {
        self.object
    }

    /// The reference the root holds.
    pub fn get(&self) -> (r: UnsafeRef)
        ensures
            r == self.spec_object(),
    {
        self.object
    }
}

impl PinnedRoot {
    /// The reference the root holds.
    pub closed spec fn spec_object(&self) -> UnsafeRef {
        self.object
    }

    /// Create a pinned root for `object`, counting it in the heap's pinned
    /// roots.
    pub fn new(heap: &mut Heap, object: UnsafeRef) -> (r: PinnedRoot)
        requires
            old(heap).wf(),
            object.heap == old(heap).spec_id(),
            pin_count(old(heap).pinned(), object.addr) < u64::MAX,
        ensures
            final(heap).wf(),
            r.spec_object() == object,
            final(heap).pinned() == old(heap).pinned().insert(
                object.addr,
                (pin_count(old(heap).pinned(), object.addr) + 1) as u64,
            ),
            pinned_kept(old(heap), final(heap)),
            allocation_kept(old(heap), final(heap)),
    {
        heap.retain_pinned_root(object.addr);
        PinnedRoot { object }
    }

    /// Another pinned root for the same object.
    pub fn clone(&self, heap: &mut Heap) -> (r: PinnedRoot)
        requires
            old(heap).wf(),
            self.spec_object().heap == old(heap).spec_id(),
            pin_count(old(heap).pinned(), self.spec_object().addr) < u64::MAX,
        ensures
            final(heap).wf(),
            r.spec_object() == self.spec_object(),
            final(heap).pinned() == old(heap).pinned().insert(
                self.spec_object().addr,
                (pin_count(old(heap).pinned(), self.spec_object().addr) + 1) as u64,
            ),
            pinned_kept(old(heap), final(heap)),
            allocation_kept(old(heap), final(heap)),
    {
        heap.retain_pinned_root(self.object.addr);
        PinnedRoot { object: self.object }
    }

    /// Drop the pinned root, so that it no longer counts.
    pub fn drop(self, heap: &mut Heap)
        requires
            old(heap).wf(),
            self.spec_object().heap == old(heap).spec_id(),
            pin_count(old(heap).pinned(), self.spec_object().addr) > 0,
        ensures
            final(heap).wf(),
            final(heap).pinned() == if pin_count(old(heap).pinned(), self.spec_object().addr)
                == 1 {
                old(heap).pinned().remove(self.spec_object().addr)
            } else {
                old(heap).pinned().insert(
                    self.spec_object().addr,
                    (pin_count(old(heap).pinned(), self.spec_object().addr) - 1) as u64,
                )
            },
            pinned_kept(old(heap), final(heap)),
            allocation_kept(old(heap), final(heap)),
    {
        heap.release_pinned_root(self.object.addr);
    }

    /// The reference the root holds.
    pub fn get(&self) -> (r: UnsafeRef)
        ensures
            r == self.spec_object(),
    {
        self.object
    }
}

/// The two heaps agree on everything but their pinned roots.
pub open spec fn pinned_kept(a: &Heap, b: &Heap) -> bool {
    &&& a.spec_id() == b.spec_id()
    &&& a.undef_ref() == b.undef_ref()
    &&& a.spec_objects() == b.spec_objects()
    &&& a.mutator_count() == b.mutator_count()
    &&& a.spec_collection_requested() == b.spec_collection_requested()
    &&& forall|m: int|
        #![trigger b.mutator_active(m)]
        #![trigger b.stack_batches(m)]
        #![trigger b.pinned_stack(m)]
        0 <= m < a.mutator_count() ==> {
            &&& a.mutator_active(m) == b.mutator_active(m)
            &&& a.stack_batches(m) == b.stack_batches(m)
            &&& a.pinned_stack(m) == b.pinned_stack(m)
        }
}

/// Whether `a` is held by a root of `heap`: the undef sentinel, a pinned
/// root, or a stack root or pinned stack root of an active mutator.
pub open spec fn is_root(heap: &Heap, a: usize) -> bool {
    ||| a == heap.undef_ref().addr
    ||| heap.pinned().contains_key(a)
    ||| exists|m: int|
        #![trigger heap.mutator_active(m)]
        heap.mutator_active(m) && (heap.pinned_stack(m).contains(a) || exists|b: int|
            0 <= b < heap.stack_batches(m).len() && #[trigger] heap.stack_batches(m)[b].contains(
                a,
            ))
}

/// Whether `a` can be reached from a root of `heap` in at most `d` steps
/// through the fields of objects.
pub open spec fn reachable_within(heap: &Heap, a: usize, d: nat) -> bool
    decreases d,
{
    if d == 0 {
        is_root(heap, a)
    } else {
        reachable_within(heap, a, (d - 1) as nat) || exists|k: int|
            0 <= k < heap.spec_objects().len() && reachable_within(
                heap,
                heap.spec_objects()[k].addr,
                (d - 1) as nat,
            ) && #[trigger] heap.spec_objects()[k].fields@.contains(a)
    }
}

/// Whether `a` can be reached from a root of `heap`.
pub open spec fn reachable(heap: &Heap, a: usize) -> bool {
    exists|d: nat| reachable_within(heap, a, d)
}

/// Number of unset flags.
spec fn count_unset(s: Seq<bool>) -> nat
    decreases s.len(),
{
    if s.len() == 0 {
        0
    } else {
        count_unset(s.drop_last()) + if s.last() {
            0nat
        } else {
            1nat
        }
    }
}

proof fn lemma_count_unset_set(s: Seq<bool>, i: int)
    requires
        0 <= i < s.len(),
        !s[i],
    ensures
        count_unset(s.update(i, true)) + 1 == count_unset(s),
    decreases s.len(),
{
    let t = s.update(i, true);
    if i == s.len() - 1 {
        assert(t.drop_last() =~= s.drop_last());
    } else {
        assert(t.drop_last() =~= s.drop_last().update(i, true));
        lemma_count_unset_set(s.drop_last(), i);
    }
}

/// Distinct objects of a well-formed heap live at distinct addresses.
proof fn lemma_unique_addr(objs: Seq<ObjectRecord>, i: int, j: int)
    requires
        0 <= i < objs.len(),
        0 <= j < objs.len(),
        i != j ==> disjoint(objs[i], objs[j]),
        objs[i].addr == objs[j].addr,
    ensures
        i == j,
{
    if i != j {
        assert(footprint(objs[i].size as int) >= 1);
        assert(footprint(objs[j].size as int) >= 1);
    }
}

proof fn lemma_push_contains(s: Seq<usize>, x: usize)
    ensures
        s.push(x).contains(x),
        forall|y: usize| s.contains(y) ==> #[trigger] s.push(x).contains(y),
{
    assert(s.push(x)[s.len() as int] == x);
    assert forall|y: usize| s.contains(y) implies #[trigger] s.push(x).contains(y) by {
        let q = choose|q: int| 0 <= q < s.len() && s[q] == y;
        assert(s.push(x)[q] == y);
    }
}

/// Whether `v` holds `a`.
fn contains_addr(v: &Vec<usize>, a: usize) -> (r: bool)
    ensures
        r == v@.contains(a),
{
    let mut i: usize = 0;
    while i < v.len()
        invariant
            i <= v@.len(),
            forall|j: int| 0 <= j < i ==> v@[j] != a,
        decreases v@.len() - i,
    {
        if v[i] == a {
            return true;
        }
        i = i + 1;
    }
    false
}

/// Whether some batch of `batches` holds `a`.
fn batches_contain(batches: &Vec<Vec<usize>>, a: usize) -> (r: bool)
    ensures
        r == exists|b: int| 0 <= b < batches@.len() && (#[trigger] batches@[b])@.contains(a),
{
    let mut i: usize = 0;
    while i < batches.len()
        invariant
            i <= batches@.len(),
            forall|j: int| 0 <= j < i ==> !(#[trigger] batches@[j])@.contains(a),
        decreases batches@.len() - i,
    {
        if contains_addr(&batches[i], a) {
            return true;
        }
        i = i + 1;
    }
    false
}

impl Heap {
    /// The undef sentinel of the heap.
    pub fn undef(&self) -> (r: UnsafeRef)
        ensures
            r == self.undef_ref(),
    {
        self.pre_alloc.undef()
    }

    /// How many pinned roots refer to the object at `addr`.
    pub fn pinned_count(&self, addr: usize) -> (r: u64)
        ensures
            r == pin_count(self.pinned(), addr),
    {
        match self.pinned_roots.get(&addr) {
            Some(n) => *n,
            None => 0,
        }
    }

    /// Number of blocks of the heap.
    pub fn block_count(&self) -> (r: usize)
        ensures
            r == self.spec_blocks().len(),
    {
        self.blocks.len()
    }

    /// Whether `a` is held by a root of the heap.
    pub fn holds_root(&self, a: usize) -> (r: bool)
        ensures
            r == is_root(self, a),
    {
        if a == self.pre_alloc.undef.addr || self.pinned_roots.contains_key(&a) {
            return true;
        }
        let mut m: usize = 0;
        while m < self.mutators.len()
            invariant
                m <= self.mutators@.len(),
                a != self.pre_alloc.undef.addr,
                !self.pinned_roots@.contains_key(a),
                forall|j: int|
                    #![trigger self.mutator_active(j)]
                    0 <= j < m ==> !(self.mutator_active(j) && (self.pinned_stack(j).contains(a)
                        || exists|b: int|
                        0 <= b < self.stack_batches(j).len() && #[trigger] self.stack_batches(
                            j,
                        )[b].contains(a))),
            decreases self.mutators@.len() - m,
        {
            let state = &self.mutators[m];
            if state.active {
                let in_pinned = contains_addr(&state.pinned_stack_roots, a);
                let in_batches = batches_contain(&state.stack_root_batches, a);
                proof {
                    let bs = state.stack_root_batches@;
                    assert(self.stack_batches(m as int) == bs.map_values(|v: Vec<usize>| v@));
                    assert(in_batches == exists|b: int|
                        0 <= b < self.stack_batches(m as int).len() && #[trigger] self.stack_batches(
                            m as int,
                        )[b].contains(a)) by {
                        if in_batches {
                            let b = choose|b: int| 0 <= b < bs.len() && (#[trigger] bs[b])@.contains(a);
                            assert(self.stack_batches(m as int)[b] == bs[b]@);
                        }
                        if exists|b: int|
                            0 <= b < self.stack_batches(m as int).len() && #[trigger] self.stack_batches(
                                m as int,
                            )[b].contains(a) {
                            let b = choose|b: int|
                                0 <= b < self.stack_batches(m as int).len() && #[trigger] self.stack_batches(
                                    m as int,
                                )[b].contains(a);
                            assert(bs[b]@.contains(a));
                        }
                    }
                }
                if in_pinned || in_batches {
                    proof {
                        assert(self.mutator_active(m as int));
                        assert(self.pinned_stack(m as int) == state.pinned_stack_roots@);
                    }
                    return true;
                }
            }
            m = m + 1;
        }
        false
    }

    /// Mark every object reachable from a root: the result flags, for each
    /// object, whether it is reachable.
    fn mark(&self) -> (marked: Vec<bool>)
        requires
            self.wf(),
        ensures
            marked@.len() == self.objects@.len(),
            forall|k: int|
                0 <= k < self.objects@.len() && is_root(self, #[trigger] self.objects@[k].addr)
                    ==> marked@[k],
            forall|k: int| 0 <= k < self.objects@.len() && marked@[k] ==> reachable(self, #[trigger] self.objects@[k].addr),
            forall|k: int, i: int|
                #![trigger marked@[k], self.objects@[i]]
                0 <= k < self.objects@.len() && marked@[k] && 0 <= i < self.objects@.len()
                    && self.objects@[k].fields@.contains(self.objects@[i].addr) ==> marked@[i],
    {
        let n = self.objects.len();
        let ghost objs = self.objects@;
        let mut marked: Vec<bool> = Vec::new();
        let mut work: Vec<usize> = Vec::new();
        let mut k: usize = 0;
        while k < n
            invariant
                n == objs.len(),
                objs == self.objects@,
                self.wf(),
                k <= n,
                marked@.len() == k,
                forall|j: int| 0 <= j < k ==> (#[trigger] marked@[j] <==> is_root(self, objs[j].addr)),
                forall|j: int| 0 <= j < k && #[trigger] marked@[j] ==> work@.contains(j as usize),
                forall|t: int| 0 <= t < work@.len() ==> #[trigger] work@[t] < k && marked@[work@[t] as int],
            decreases n - k,
        {
            let root = self.holds_root(self.objects[k].addr);
            marked.push(root);
            let ghost w0 = work@;
            if root {
                work.push(k);
                proof {
                    lemma_push_contains(w0, k);
                }
            }
            k = k + 1;
        }
        proof {
            assert forall|j: int| 0 <= j < n && #[trigger] marked@[j] implies reachable(self, objs[j].addr) by {
                assert(reachable_within(self, objs[j].addr, 0));
            }
        }
        while work.len() > 0
            invariant
                n == objs.len(),
                objs == self.objects@,
                self.wf(),
                marked@.len() == n,
                forall|j: int| 0 <= j < n && is_root(self, #[trigger] objs[j].addr) ==> marked@[j],
                forall|j: int| 0 <= j < n && #[trigger] marked@[j] ==> reachable(self, objs[j].addr),
                forall|t: int| 0 <= t < work@.len() ==> #[trigger] work@[t] < n && marked@[work@[t] as int],
                forall|j: int, i: int|
                    #![trigger marked@[j], objs[i]]
                    0 <= j < n && marked@[j] && !work@.contains(j as usize) && 0 <= i < n
                        && objs[j].fields@.contains(objs[i].addr) ==> marked@[i],
            decreases count_unset(marked@), work@.len(),
        {
            let ghost work_before = work@;
            let k = work.pop().unwrap();
            let ghost marked0 = marked@;
            proof {
                assert(work_before == work@.push(k));
                assert forall|j: usize| j != k && #[trigger] work_before.contains(j) implies work@.contains(j) by {
                    let q = choose|q: int| 0 <= q < work_before.len() && work_before[q] == j;
                    assert(work@[q] == j);
                }
            }
            let ghost work0 = work@;
            let fields = &self.objects[k].fields;
            let mut t: usize = 0;
            while t < fields.len()
                invariant
                    n == objs.len(),
                    objs == self.objects@,
                    self.wf(),
                    k < n,
                    fields@ == objs[k as int].fields@,
                    marked@[k as int],
                    t <= fields@.len(),
                    marked@.len() == n,
                    count_unset(marked@) <= count_unset(marked0),
                    count_unset(marked@) == count_unset(marked0) ==> work@ == work0,
                    forall|j: int| 0 <= j < n && marked0[j] ==> #[trigger] marked@[j],
                    forall|j: int| 0 <= j < n && is_root(self, #[trigger] objs[j].addr) ==> marked@[j],
                    forall|j: int| 0 <= j < n && #[trigger] marked@[j] ==> reachable(self, objs[j].addr),
                    forall|q: int| 0 <= q < work@.len() ==> #[trigger] work@[q] < n && marked@[work@[q] as int],
                    forall|j: int| 0 <= j < n && #[trigger] marked@[j] && !marked0[j] ==> work@.contains(j as usize),
                    forall|q: int| 0 <= q < work0.len() ==> work@.contains(#[trigger] work0[q]),
                    forall|q: int, i: int|
                        #![trigger fields@[q], objs[i]]
                        0 <= q < t && 0 <= i < n && objs[i].addr == fields@[q] ==> marked@[i],
                decreases fields@.len() - t,
            {
                let f = fields[t];
                match self.find_object(f) {
                    Some(j) => {
                        if !marked[j] {
                            proof {
                                lemma_count_unset_set(marked@, j as int);
                                let d = choose|d: nat| reachable_within(self, objs[k as int].addr, d);
                                assert(objs[k as int].fields@[t as int] == f);
                                assert(objs[k as int].fields@.contains(f));
                                assert(reachable_within(self, objs[j as int].addr, d + 1));
                            }
                            marked.set(j, true);
                            let ghost w1 = work@;
                            work.push(j);
                            proof {
                                lemma_push_contains(w1, j);
                            }
                        }
                        proof {
                            assert forall|i: int| 0 <= i < n && objs[i].addr == f implies marked@[i] by {
                                lemma_unique_addr(objs, i, j as int);
                            }
                        }
                    },
                    None => {},
                }
                t = t + 1;
            }
            proof {
                assert forall|j: int, i: int|
                    #![trigger marked@[j], objs[i]]
                    0 <= j < n && marked@[j] && !work@.contains(j as usize) && 0 <= i < n
                        && objs[j].fields@.contains(objs[i].addr) implies marked@[i] by {
                    if j == k {
                        let q = choose|q: int| 0 <= q < fields@.len() && fields@[q] == objs[i].addr;
                        assert(fields@[q] == objs[i].addr);
                    } else if marked0[j] {
                        assert(!work_before.contains(j as usize));
                        if work0.contains(j as usize) {
                            let q = choose|q: int| 0 <= q < work0.len() && work0[q] == j as usize;
                            assert(work@.contains(work0[q]));
                        }
                        assert(marked0[i] ==> marked@[i]);
                    }
                }
            }
        }
        marked
    }
}

/// Every object reachable from a root is flagged, when the flags cover the
/// roots and are closed under the fields of flagged objects.
proof fn lemma_reachable_marked(heap: &Heap, marked: Seq<bool>, a: usize, d: nat, k: int)
    requires
        marked.len() == heap.spec_objects().len(),
        forall|j: int|
            0 <= j < heap.spec_objects().len() && is_root(heap, #[trigger] heap.spec_objects()[j].addr)
                ==> marked[j],
        forall|j: int, i: int|
            #![trigger marked[j], heap.spec_objects()[i]]
            0 <= j < heap.spec_objects().len() && marked[j] && 0 <= i < heap.spec_objects().len()
                && heap.spec_objects()[j].fields@.contains(heap.spec_objects()[i].addr) ==> marked[i],
        reachable_within(heap, a, d),
        0 <= k < heap.spec_objects().len(),
        heap.spec_objects()[k].addr == a,
    ensures
        marked[k],
    decreases d,
{
    if d > 0 {
        if reachable_within(heap, a, (d - 1) as nat) {
            lemma_reachable_marked(heap, marked, a, (d - 1) as nat, k);
        } else {
            let objs = heap.spec_objects();
            let j = choose|j: int|
                0 <= j < objs.len() && reachable_within(heap, objs[j].addr, (d - 1) as nat)
                    && #[trigger] objs[j].fields@.contains(a);
            lemma_reachable_marked(heap, marked, objs[j].addr, (d - 1) as nat, j);
            assert(marked[j]);
            assert(objs[j].fields@.contains(objs[k].addr));
        }
    }
}

impl Heap {
    /// Drop every object that is not flagged. The object at position `t`
    /// afterwards is the one at `idx[t]` before, and the flagged object at
    /// `k` before is at `pos[k]` afterwards.
    #[verifier::spinoff_prover]
    fn sweep(&mut self, marked: &Vec<bool>) -> (r: (Ghost<Seq<int>>, Ghost<Seq<int>>))
        requires
            old(self).wf(),
            marked@.len() == old(self).objects@.len(),
            marked@[old(self).undef_index()],
        ensures
            final(self).wf(),
            final(self).id == old(self).id,
            final(self).pre_alloc == old(self).pre_alloc,
            final(self).blocks@ == old(self).blocks@,
            final(self).next_region == old(self).next_region,
            final(self).mutators@ == old(self).mutators@,
            final(self).pinned_roots@ == old(self).pinned_roots@,
            final(self).collection_requested == old(self).collection_requested,
            r.0@.len() == final(self).objects@.len(),
            r.1@.len() == old(self).objects@.len(),
            forall|t: int|
                0 <= t < r.0@.len() ==> 0 <= #[trigger] r.0@[t] < old(self).objects@.len()
                    && marked@[r.0@[t]] && final(self).objects@[t] == old(self).objects@[r.0@[t]],
            forall|k: int|
                0 <= k < old(self).objects@.len() && marked@[k] ==> 0 <= #[trigger] r.1@[k]
                    < final(self).objects@.len() && r.0@[r.1@[k]] == k,
    {
        let ghost orig = self.objects@;
        let ghost u = old(self).undef_index();
        let mut old_objects: Vec<ObjectRecord> = Vec::new();
        std::mem::swap(&mut self.objects, &mut old_objects);
        let n = old_objects.len();
        let mut kept: Vec<ObjectRecord> = Vec::new();
        let ghost mut idx: Seq<int> = Seq::empty();
        let ghost mut pos: Seq<int> = Seq::empty();
        let mut i: usize = 0;
        while i < n
            invariant
                n == orig.len(),
                marked@.len() == n,
                i <= n,
                old_objects@.len() == n,
                forall|j: int| i <= j < n ==> #[trigger] old_objects@[j] == orig[j],
                kept@.len() == idx.len(),
                forall|t: int|
                    0 <= t < idx.len() ==> 0 <= #[trigger] idx[t] < i && marked@[idx[t]]
                        && kept@[t] == orig[idx[t]],
                forall|t1: int, t2: int| 0 <= t1 < t2 < idx.len() ==> #[trigger] idx[t1] < #[trigger] idx[t2],
                pos.len() == i,
                forall|k: int|
                    0 <= k < i && marked@[k] ==> 0 <= #[trigger] pos[k] < idx.len() && idx[pos[k]] == k,
            decreases n - i,
        {
            let mut rec = ObjectRecord { addr: 0, size: 0, block: 0, fields: Vec::new() };
            old_objects.set_and_swap(i, &mut rec);
            if marked[i] {
                kept.push(rec);
                proof {
                    idx = idx.push(i as int);
                }
            }
            proof {
                pos = pos.push((idx.len() - 1) as int);
            }
            i = i + 1;
        }
        self.objects = kept;
        proof {
            let objs = self.objects@;
            assert forall|t1: int, t2: int|
                0 <= t1 < idx.len() && 0 <= t2 < idx.len() && t1 != t2 implies #[trigger] idx[t1]
                != #[trigger] idx[t2] by {
                if t1 < t2 {
                    assert(idx[t1] < idx[t2]);
                } else {
                    assert(idx[t2] < idx[t1]);
                }
            }
            lemma_objects_stay_placed(orig, old(self).blocks@, objs, self.blocks@, idx);
            assert(self.objects_wf());
            assert(objs[pos[u]] == orig[u]);
            assert(is_live(objs, self.pre_alloc.undef.addr));
        }
        (Ghost(idx), Ghost(pos))
    }

    /// Run a collection cycle: every object that no path from a root
    /// reaches is reclaimed, and every other object stays where it is,
    /// unchanged. Roots are left as they are. Blocks left without objects
    /// become free for reuse.
    #[verifier::spinoff_prover]
    #[verifier::rlimit(100)]
    pub fn collect(&mut self)
        requires
            old(self).wf(),
        ensures
            final(self).wf(),
            same_roots(old(self), final(self)),
            !final(self).spec_collection_requested(),
            forall|a: usize|
                #![trigger is_live(final(self).spec_objects(), a)]
                #![trigger is_live(old(self).spec_objects(), a)]
                is_live(final(self).spec_objects(), a) <==> is_live(old(self).spec_objects(), a)
                    && reachable(old(self), a),
            final(self).spec_blocks().len() == old(self).spec_blocks().len(),
            forall|i: int|
                0 <= i < final(self).spec_blocks().len() && no_object_in(final(self).spec_objects(), i)
                    ==> (#[trigger] final(self).spec_blocks()[i]).cursor() == 0,
            forall|k: int|
                #![trigger old(self).spec_objects()[k]]
                0 <= k < old(self).spec_objects().len() && reachable(old(self), old(self).spec_objects()[k].addr)
                    ==> exists|t: int|
                    #![trigger final(self).spec_objects()[t]]
                    0 <= t < final(self).spec_objects().len() && final(self).spec_objects()[t]
                        == old(self).spec_objects()[k],
    {
        let marked = self.mark();
        let ghost before = *self;
        proof {
            let u = self.undef_index();
            assert(is_root(self, self.objects@[u].addr));
        }
        let (Ghost(idx), Ghost(pos)) = self.sweep(&marked);
        self.reclaim_blocks();
        self.collection_requested = false;
        proof {
            lemma_sweep_reachable(&before, marked@, self.spec_objects(), idx, pos);
            assert forall|t: int| 0 <= t < idx.len() implies reachable(
                &before,
                before.objects@[#[trigger] idx[t]].addr,
            ) by {
                assert(marked@[idx[t]]);
            }
            lemma_sweep_live(&before, self.spec_objects(), idx);
            assert forall|m: int| 0 <= m < self.mutators@.len() implies (
            #[trigger] self.mutators@[m]).allocator < self.blocks@.len() by {
                assert(self.mutators@[m] == before.mutators@[m]);
            }
        }
    }
}

/// Every reachable object is flagged by marking, and so survives the sweep.
proof fn lemma_sweep_reachable(
    before: &Heap,
    marked: Seq<bool>,
    f: Seq<ObjectRecord>,
    idx: Seq<int>,
    pos: Seq<int>,
)
    requires
        marked.len() == before.spec_objects().len(),
        forall|k: int|
            0 <= k < before.spec_objects().len() && is_root(before, #[trigger] before.spec_objects()[k].addr)
                ==> marked[k],
        forall|k: int, i: int|
            #![trigger marked[k], before.spec_objects()[i]]
            0 <= k < before.spec_objects().len() && marked[k] && 0 <= i < before.spec_objects().len()
                && before.spec_objects()[k].fields@.contains(before.spec_objects()[i].addr) ==> marked[i],
        idx.len() == f.len(),
        forall|t: int|
            0 <= t < idx.len() ==> 0 <= #[trigger] idx[t] < before.spec_objects().len()
                && f[t] == before.spec_objects()[idx[t]],
        forall|k: int|
            0 <= k < before.spec_objects().len() && marked[k] ==> 0 <= #[trigger] pos[k] < f.len()
                && idx[pos[k]] == k,
    ensures
        forall|k: int|
            #![trigger before.spec_objects()[k]]
            0 <= k < before.spec_objects().len() && reachable(before, before.spec_objects()[k].addr)
                ==> exists|t: int| #![trigger f[t]] 0 <= t < f.len() && f[t] == before.spec_objects()[k],
{
    let o = before.spec_objects();
    assert forall|k: int|
        #![trigger o[k]]
        0 <= k < o.len() && reachable(before, o[k].addr) implies exists|t: int|
        #![trigger f[t]]
        0 <= t < f.len() && f[t] == o[k] by {
        let d = choose|d: nat| reachable_within(before, o[k].addr, d);
        lemma_reachable_marked(before, marked, o[k].addr, d, k);
        let t = pos[k];
        assert(f[t] == o[idx[t]]);
    }
}

/// After a sweep, an object lives exactly when it lived before and was
/// reachable.
proof fn lemma_sweep_live(before: &Heap, f: Seq<ObjectRecord>, idx: Seq<int>)
    requires
        idx.len() == f.len(),
        forall|t: int|
            0 <= t < idx.len() ==> 0 <= #[trigger] idx[t] < before.spec_objects().len()
                && reachable(before, before.spec_objects()[idx[t]].addr) && f[t]
                == before.spec_objects()[idx[t]],
        forall|k: int|
            #![trigger before.spec_objects()[k]]
            0 <= k < before.spec_objects().len() && reachable(before, before.spec_objects()[k].addr)
                ==> exists|t: int| #![trigger f[t]] 0 <= t < f.len() && f[t] == before.spec_objects()[k],
    ensures
        forall|a: usize|
            #![trigger is_live(f, a)]
            #![trigger is_live(before.spec_objects(), a)]
            is_live(f, a) <==> is_live(before.spec_objects(), a) && reachable(before, a),
{
    let o = before.spec_objects();
    assert forall|a: usize| is_live(f, a) <==> is_live(o, a) && reachable(before, a) by {
        if is_live(f, a) {
            let t = choose|t: int| 0 <= t < f.len() && #[trigger] f[t].addr == a;
            let k = idx[t];
            assert(f[t] == o[k]);
            assert(o[k].addr == a);
        }
        if is_live(o, a) && reachable(before, a) {
            let k = choose|k: int| 0 <= k < o.len() && #[trigger] o[k].addr == a;
            let t = choose|t: int| #![trigger f[t]] 0 <= t < f.len() && f[t] == o[k];
            assert(f[t].addr == a);
        }
    }
}

impl Mutator {
    /// Enter a safe point: when a collection cycle has been requested, it
    /// runs now; otherwise nothing happens.
    pub fn safe_point(&self, heap: &mut Heap)
        requires
            old(heap).wf(),
            self.attached(old(heap)),
        ensures
            final(heap).wf(),
            same_roots(old(heap), final(heap)),
            !final(heap).spec_collection_requested(),
            !old(heap).spec_collection_requested() ==> *final(heap) == *old(heap),
            old(heap).spec_collection_requested() ==> forall|a: usize|
                #![trigger is_live(final(heap).spec_objects(), a)]
                #![trigger is_live(old(heap).spec_objects(), a)]
                is_live(final(heap).spec_objects(), a) <==> is_live(old(heap).spec_objects(), a)
                    && reachable(old(heap), a),
            old(heap).spec_collection_requested() ==> forall|i: int|
                0 <= i < final(heap).spec_blocks().len() && no_object_in(final(heap).spec_objects(), i)
                    ==> (#[trigger] final(heap).spec_blocks()[i]).cursor() == 0,
            forall|k: int|
                #![trigger old(heap).spec_objects()[k]]
                0 <= k < old(heap).spec_objects().len() && reachable(old(heap), old(heap).spec_objects()[k].addr)
                    ==> exists|t: int|
                    #![trigger final(heap).spec_objects()[t]]
                    0 <= t < final(heap).spec_objects().len() && final(heap).spec_objects()[t]
                        == old(heap).spec_objects()[k],
    {
        if heap.collection_requested {
            heap.collect();
        } else {
            proof {
                assert forall|k: int|
                    #![trigger old(heap).spec_objects()[k]]
                    0 <= k < old(heap).spec_objects().len() && reachable(old(heap), old(heap).spec_objects()[k].addr)
                        implies exists|t: int|
                        #![trigger heap.spec_objects()[t]]
                        0 <= t < heap.spec_objects().len() && heap.spec_objects()[t]
                            == old(heap).spec_objects()[k] by {
                    assert(heap.spec_objects()[k] == old(heap).spec_objects()[k]);
                }

            }
        }
    }
}

/// A size of at most one ordinary block has a footprint of at most one block.
proof fn lemma_round_up_le_default(size: int)
    requires
        0 <= size <= DEFAULT_BLOCK_SIZE,
    ensures
        footprint(size) <= DEFAULT_BLOCK_SIZE,
{
}

/// An active mutator has an index below the heap's mutator count.
pub proof fn active_mutator_in_range(heap: &Heap, m: int)
    ensures
        heap.mutator_active(m) ==> 0 <= m < heap.mutator_count(),
{
}

/// What a well-formed heap guarantees: its undef sentinel is its own and
/// lives, every mutator allocates in one of its blocks, and its blocks are
/// well formed.
pub proof fn well_formed_heap_facts(heap: &Heap)
    requires
        heap.wf(),
    ensures
        heap.undef_ref().heap == heap.spec_id(),
        is_live(heap.spec_objects(), heap.undef_ref().addr),
        forall|m: int|
            0 <= m < heap.mutator_count() ==> 0 <= #[trigger] heap.allocator_of(m)
                < heap.spec_blocks().len(),
        forall|i: int| 0 <= i < heap.spec_blocks().len() ==> (#[trigger] heap.spec_blocks()[i]).wf(),
{
    assert forall|m: int| 0 <= m < heap.mutator_count() implies 0 <= #[trigger] heap.allocator_of(m)
        < heap.spec_blocks().len() by {
        assert(heap.mutators@[m].allocator < heap.blocks@.len());
    }
}

/// Objects never overlap and are aligned: every two distinct objects of a
/// heap occupy disjoint address ranges, each starting on an aligned address
/// and lying within the used part of a single block.
pub proof fn allocations_aligned_and_disjoint(heap: &Heap, i: int, j: int)
    requires
        heap.wf(),
        0 <= i < heap.spec_objects().len(),
        0 <= j < heap.spec_objects().len(),
    ensures
        heap.spec_objects()[i].addr % OBJECT_ALIGN == 0,
        heap.spec_objects()[i].block < heap.spec_blocks().len(),
        heap.spec_blocks()[heap.spec_objects()[i].block as int].base() <= heap.spec_objects()[i].addr,
        heap.spec_objects()[i].addr + footprint(heap.spec_objects()[i].size as int)
            <= heap.spec_blocks()[heap.spec_objects()[i].block as int].base() + heap.spec_blocks()[
            heap.spec_objects()[i].block as int].cursor(),
        i != j ==> disjoint(heap.spec_objects()[i], heap.spec_objects()[j]),
{
    let o = heap.objects@[i];
    let p = heap.objects@[j];
}

/// Pushing a stack root batch and popping it again leaves the mutator's
/// batches as they were.
pub proof fn stack_roots_lifo(batches: Seq<Seq<usize>>, batch: Seq<usize>)
    ensures
        batches.push(batch).drop_last() == batches,
{
    assert(batches.push(batch).drop_last() =~= batches);
}

/// Pushing a pinned stack root and popping it again leaves the mutator's
/// pinned stack as it was.
pub proof fn pinned_stack_roots_lifo(roots: Seq<usize>, addr: usize)
    ensures
        roots.push(addr).drop_last() == roots,
{
    assert(roots.push(addr).drop_last() =~= roots);
}

/// A collection cycle keeps every object that a root holds, at its address:
/// when the heap after the cycle holds exactly the objects that were live
/// and reachable before, an object held by a root survives.
pub proof fn roots_survive_collection(before: &Heap, after: &Heap, a: usize)
    requires
        forall|x: usize|
            is_live(after.spec_objects(), x) <==> is_live(before.spec_objects(), x) && reachable(
                before,
                x,
            ),
        is_root(before, a),
        is_live(before.spec_objects(), a),
    ensures
        is_live(after.spec_objects(), a),
{
    assert(reachable_within(before, a, 0));
    assert(reachable(before, a));
}

/// A stack root keeps its object across a collection cycle: afterwards the
/// root still holds the same address, and the object still lives there.
pub proof fn stack_root_survives_collection(before: &Heap, after: &Heap, root: StackRoot)
    requires
        same_roots(before, after),
        forall|x: usize|
            #![trigger is_live(after.spec_objects(), x)]
            #![trigger is_live(before.spec_objects(), x)]
            is_live(after.spec_objects(), x) <==> is_live(before.spec_objects(), x) && reachable(
                before,
                x,
            ),
        root.valid(before),
        is_live(before.spec_objects(), root.spec_get(before)),
    ensures
        root.valid(after),
        root.spec_get(after) == root.spec_get(before),
        is_live(after.spec_objects(), root.spec_get(after)),
{
    let m = root.spec_mutator();
    let b = root.spec_batch();
    let a = root.spec_get(before);
    assert(before.stack_batches(m)[b][root.spec_slot()] == a);
    assert(before.stack_batches(m)[b].contains(a));
    assert(before.mutator_active(m));
    assert(is_root(before, a));
    assert(reachable_within(before, a, 0));
    assert(after.mutator_active(m) == before.mutator_active(m));
    assert(after.stack_batches(m) == before.stack_batches(m));
}

/// A pinned stack root keeps its object across a collection cycle, at the
/// same address.
pub proof fn pinned_stack_root_survives_collection(
    before: &Heap,
    after: &Heap,
    root: PinnedStackRoot,
)
    requires
        same_roots(before, after),
        forall|x: usize|
            #![trigger is_live(after.spec_objects(), x)]
            #![trigger is_live(before.spec_objects(), x)]
            is_live(after.spec_objects(), x) <==> is_live(before.spec_objects(), x) && reachable(
                before,
                x,
            ),
        before.mutator_active(root.spec_mutator()),
        0 <= root.spec_depth() < before.pinned_stack(root.spec_mutator()).len(),
        before.pinned_stack(root.spec_mutator())[root.spec_depth()] == root.spec_object().addr,
        is_live(before.spec_objects(), root.spec_object().addr),
    ensures
        after.pinned_stack(root.spec_mutator()) == before.pinned_stack(root.spec_mutator()),
        is_live(after.spec_objects(), root.spec_object().addr),
{
    let m = root.spec_mutator();
    let a = root.spec_object().addr;
    assert(before.pinned_stack(m).contains(a));
    assert(is_root(before, a));
    assert(reachable_within(before, a, 0));
    assert(after.pinned_stack(m) == before.pinned_stack(m));
}

/// A collection cycle reclaims every object that no path from a root
/// reaches.
pub proof fn unreachable_reclaimed(before: &Heap, after: &Heap, a: usize)
    requires
        forall|x: usize|
            is_live(after.spec_objects(), x) <==> is_live(before.spec_objects(), x) && reachable(
                before,
                x,
            ),
        !reachable(before, a),
    ensures
        !is_live(after.spec_objects(), a),
{
}

/// The pinned count of an object after a sequence of pinned-root operations
/// on it: `true` counts a construction or a clone, `false` a drop.
pub open spec fn pins_after(count: int, ops: Seq<bool>) -> int
    decreases ops.len(),
{
    if ops.len() == 0 {
        count
    } else {
        pins_after(count, ops.drop_last()) + if ops.last() {
            1int
        } else {
            -1int
        }
    }
}

/// Number of `true` entries.
pub open spec fn count_true(ops: Seq<bool>) -> int
    decreases ops.len(),
{
    if ops.len() == 0 {
        0
    } else {
        count_true(ops.drop_last()) + if ops.last() {
            1int
        } else {
            0int
        }
    }
}

/// The effect of one pinned-root operation, as [`PinnedRoot::new`],
/// [`PinnedRoot::clone`] and [`PinnedRoot::drop`] state it.
pub open spec fn pin_step(pinned: Map<usize, u64>, addr: usize, retain: bool) -> Map<usize, u64> {
    if retain {
        pinned.insert(addr, (pin_count(pinned, addr) + 1) as u64)
    } else if pin_count(pinned, addr) == 1 {
        pinned.remove(addr)
    } else {
        pinned.insert(addr, (pin_count(pinned, addr) - 1) as u64)
    }
}

/// The pinned roots after a sequence of operations on one object.
pub open spec fn pins_apply(pinned: Map<usize, u64>, addr: usize, ops: Seq<bool>) -> Map<usize, u64>
    decreases ops.len(),
{
    if ops.len() == 0 {
        pinned
    } else {
        pin_step(pins_apply(pinned, addr, ops.drop_last()), addr, ops.last())
    }
}

/// Pinned-root counting: after any sequence of constructions, clones and
/// drops of pinned roots for one object, none of which drops a root that
/// is not counted or counts past the largest count, the object's count is
/// the constructions and clones minus the drops, and the object has an
/// entry exactly when that count is positive.
pub proof fn pinned_count_law(pinned: Map<usize, u64>, addr: usize, ops: Seq<bool>)
    requires
        !pinned.contains_key(addr),
        forall|i: int| 0 <= i <= ops.len() ==> 0 <= #[trigger] pins_after(0, ops.subrange(0, i)) <= u64::MAX,
    ensures
        pin_count(pins_apply(pinned, addr, ops), addr) == count_true(ops) - (ops.len() - count_true(ops)),
        pins_apply(pinned, addr, ops).contains_key(addr) <==> pin_count(pins_apply(pinned, addr, ops), addr) > 0,
    decreases ops.len(),
{
    if ops.len() == 0 {
    } else {
        let prev = ops.drop_last();
        assert forall|i: int| 0 <= i <= prev.len() implies 0 <= #[trigger] pins_after(0, prev.subrange(0, i)) <= u64::MAX by {
            assert(prev.subrange(0, i) =~= ops.subrange(0, i));
        }
        pinned_count_law(pinned, addr, prev);
        lemma_pins_after_count(prev);
        lemma_pins_after_count(ops);
        assert(ops.subrange(0, ops.len() as int) =~= ops);
        assert(prev.subrange(0, prev.len() as int) =~= prev);
        assert(0 <= pins_after(0, ops.subrange(0, ops.len() as int)));
        assert(pins_after(0, ops.subrange(0, ops.len() as int)) <= u64::MAX);
    }
}

proof fn lemma_pins_after_count(ops: Seq<bool>)
    ensures
        pins_after(0, ops) == count_true(ops) - (ops.len() - count_true(ops)),
    decreases ops.len(),
{
    if ops.len() > 0 {
        lemma_pins_after_count(ops.drop_last());
    }
}

} // verus!
