use icicle::block::{Block, DEFAULT_BLOCK_SIZE, OBJECT_ALIGN};
use icicle::heap::{Heap, Mutator, PinnedRoot, UnsafeRef};

fn setup(id: u64) -> (Heap, Mutator) {
    let mut heap = Heap::new(id);
    let m = Mutator::new(&mut heap).unwrap();
    (heap, m)
}

#[test]
fn simple_allocation_and_reachability() {
    let (mut heap, m) = setup(1);
    let a = m.alloc_object(&mut heap, 64).unwrap();
    let batch = m.push_stack_roots(&mut heap, 2);
    batch.root(0).set(&mut heap, a);
    let b = m.alloc_object(&mut heap, 64).unwrap();
    heap.set_fields(b, vec![a.addr]);
    batch.root(1).set(&mut heap, b);
    heap.request_collection();
    m.safe_point(&mut heap);
    assert!(!heap.collection_requested());
    assert_eq!(batch.root(0).get(&heap), a);
    assert!(heap.find_object(a.addr).is_some());
    assert!(heap.find_object(b.addr).is_some());
    assert_eq!(heap.fields(b), &vec![a.addr]);
    m.pop_stack_roots(&mut heap, batch);
}

#[test]
fn object_kept_alive_through_a_field() {
    let (mut heap, m) = setup(2);
    let a = m.alloc_object(&mut heap, 64).unwrap();
    let b = m.alloc_object(&mut heap, 64).unwrap();
    heap.set_fields(b, vec![a.addr]);
    let batch = m.push_stack_roots(&mut heap, 1);
    batch.root(0).set(&mut heap, b);
    heap.collect();
    assert!(heap.find_object(a.addr).is_some());
    assert!(heap.find_object(b.addr).is_some());
}

#[test]
fn unreachable_objects_reclaimed() {
    let (mut heap, m) = setup(3);
    let a = m.alloc_object(&mut heap, 64).unwrap();
    let batch = m.push_stack_roots(&mut heap, 1);
    batch.root(0).set(&mut heap, a);
    let b = m.alloc_object(&mut heap, 64).unwrap();
    heap.set_fields(b, vec![a.addr]);
    let undef = heap.pre_alloc.undef();
    batch.root(0).set(&mut heap, undef);
    heap.request_collection();
    m.safe_point(&mut heap);
    assert!(heap.find_object(a.addr).is_none());
    assert!(heap.find_object(b.addr).is_none());
    assert!(heap.find_object(undef.addr).is_some());
}

#[test]
fn pinned_root_keeps_object_in_place() {
    let (mut heap, m) = setup(4);
    let a = m.alloc_object(&mut heap, 64).unwrap();
    let pinned = PinnedRoot::new(&mut heap, a);
    heap.collect();
    assert_eq!(pinned.get(), a);
    assert!(heap.find_object(a.addr).is_some());
    pinned.drop(&mut heap);
    heap.collect();
    assert!(heap.find_object(a.addr).is_none());
}

#[test]
fn pinned_stack_root_keeps_object() {
    let (mut heap, m) = setup(5);
    let a = m.alloc_object(&mut heap, 16).unwrap();
    let root = m.push_pinned_stack_root(&mut heap, a);
    assert_eq!(m.pinned_stack_root_count(&heap), 1);
    heap.collect();
    assert_eq!(root.get(), a);
    assert!(heap.find_object(a.addr).is_some());
    m.pop_pinned_stack_root(&mut heap, root);
    assert_eq!(m.pinned_stack_root_count(&heap), 0);
    heap.collect();
    assert!(heap.find_object(a.addr).is_none());
}

#[test]
fn oversize_allocation_gets_its_own_block() {
    let (mut heap, m) = setup(6);
    let blocks = heap.block_count();
    let big = m.alloc_object(&mut heap, DEFAULT_BLOCK_SIZE + 1).unwrap();
    assert_eq!(heap.block_count(), blocks + 1);
    assert_eq!(big.addr % OBJECT_ALIGN, 0);
    let small = m.alloc_object(&mut heap, 8).unwrap();
    assert_eq!(heap.block_count(), blocks + 1);
    assert!(small.addr + 8 <= big.addr || big.addr + DEFAULT_BLOCK_SIZE + 1 <= small.addr);
}

#[test]
fn full_block_is_replaced() {
    let (mut heap, m) = setup(7);
    let blocks = heap.block_count();
    let first = m.alloc_object(&mut heap, DEFAULT_BLOCK_SIZE).unwrap();
    assert_eq!(heap.block_count(), blocks);
    let second = m.alloc_object(&mut heap, 8).unwrap();
    assert_eq!(heap.block_count(), blocks + 1);
    assert!(first.addr + DEFAULT_BLOCK_SIZE <= second.addr);
}

#[test]
fn allocations_are_aligned_and_disjoint() {
    let (mut heap, m) = setup(8);
    let sizes: Vec<usize> = vec![1, 7, 8, 9, 0, 24, 3];
    let mut refs: Vec<(UnsafeRef, usize)> = Vec::new();
    for s in sizes {
        let r = m.alloc_object(&mut heap, s).unwrap();
        assert_eq!(r.addr % OBJECT_ALIGN, 0);
        refs.push((r, if s == 0 { 1 } else { s }));
    }
    for (i, (a, sa)) in refs.iter().enumerate() {
        for (j, (b, sb)) in refs.iter().enumerate() {
            if i != j {
                assert!(a.addr + sa <= b.addr || b.addr + sb <= a.addr);
            }
        }
    }
    assert_eq!(refs[1].0.addr - refs[0].0.addr, 8);
    assert_eq!(refs[4].0.addr - refs[3].0.addr, 16);
}

#[test]
fn stack_root_batches_are_lifo() {
    let (mut heap, m) = setup(9);
    assert_eq!(m.stack_root_batch_count(&heap), 0);
    let outer = m.push_stack_roots(&mut heap, 3);
    let inner = m.push_stack_roots(&mut heap, 2);
    assert_eq!(m.stack_root_batch_count(&heap), 2);
    let undef = heap.pre_alloc.undef();
    assert_eq!(outer.root(2).get(&heap), undef);
    assert_eq!(inner.len(), 2);
    m.pop_stack_roots(&mut heap, inner);
    assert_eq!(m.stack_root_batch_count(&heap), 1);
    m.pop_stack_roots(&mut heap, outer);
    assert_eq!(m.stack_root_batch_count(&heap), 0);
}

#[test]
fn pinned_root_counts() {
    let (mut heap, m) = setup(10);
    let a = m.alloc_object(&mut heap, 32).unwrap();
    assert_eq!(heap.pinned_count(a.addr), 0);
    let p1 = PinnedRoot::new(&mut heap, a);
    let p2 = p1.clone(&mut heap);
    let p3 = PinnedRoot::new(&mut heap, a);
    assert_eq!(heap.pinned_count(a.addr), 3);
    p2.drop(&mut heap);
    assert_eq!(heap.pinned_count(a.addr), 2);
    p1.drop(&mut heap);
    p3.drop(&mut heap);
    assert_eq!(heap.pinned_count(a.addr), 0);
}

#[test]
fn references_carry_their_heap() {
    let (mut h1, m1) = setup(11);
    let h2 = Heap::new(12);
    let r = m1.alloc_object(&mut h1, 8).unwrap();
    assert_eq!(r.heap, h1.id());
    assert_ne!(r.heap, h2.id());
}

#[test]
fn detached_mutator_leaves_roots() {
    let (mut heap, m) = setup(13);
    let a = m.alloc_object(&mut heap, 8).unwrap();
    let batch = m.push_stack_roots(&mut heap, 1);
    batch.root(0).set(&mut heap, a);
    m.detach(&mut heap);
    heap.collect();
    assert!(heap.find_object(a.addr).is_none());
}

#[test]
fn block_bump_allocation_rounds_up() {
    let mut block = Block::new(64, 64);
    assert_eq!(block.get_base(), 64);
    assert_eq!(block.get_capacity(), 64);
    assert_eq!(block.try_alloc(5), Some(64));
    assert_eq!(block.get_cursor(), 8);
    assert_eq!(block.try_alloc(16), Some(72));
    assert_eq!(block.try_alloc(48), None);
    assert_eq!(block.try_alloc(40), Some(88));
    assert_eq!(block.remaining(), 0);
    block.reset();
    assert_eq!(block.get_cursor(), 0);
}

#[test]
fn reclaimed_block_is_reused() {
    let (mut heap, m) = setup(14);
    let a = m.alloc_object(&mut heap, 64).unwrap();
    m.detach(&mut heap);
    let blocks = heap.block_count();
    heap.collect();
    assert!(heap.find_object(a.addr).is_none());
    let m2 = Mutator::new(&mut heap).unwrap();
    assert_eq!(heap.block_count(), blocks);
    let b = m2.alloc_object(&mut heap, 64).unwrap();
    assert_eq!(b.addr, a.addr);
}

#[test]
fn roots_carry_their_heap() {
    let (mut h1, m1) = setup(15);
    let batch = m1.push_stack_roots(&mut h1, 1);
    assert!(m1.is_attached(&h1));
    assert_eq!(m1.heap_id(), h1.id());
    let h2 = Heap::new(16);
    assert!(!m1.is_attached(&h2));
    m1.pop_stack_roots(&mut h1, batch);
}
