use shared_allocator::linked_list::{Allocator, ArrayAllocator, Block, InnerAllocator, Wrapper};

#[test]
fn linked_list_block_debug() {
    assert_eq!(
        format!(
            "{:?}",
            Block {
                size: 0,
                next: None
            }
        ),
        "Block { size: 0, next: None }"
    );
}

#[test]
fn linked_list_wrapper_debug() {
    let expected = "Wrapper { index: 0, size: 0 }";
    assert_eq!(
        format!(
            "{:?}",
            Wrapper {
                index: 0,
                size: 0
            }
        ),
        expected
    );
}

#[test]
fn linked_list_wrapper_index() {
    let mut allocator = ArrayAllocator::<1>::new();
    let wrapper = allocator.allocator_mut().allocate(1).unwrap();
    assert_eq!(wrapper.index(), 0);
}

#[test]
fn wrapper_size() {
    let mut allocator = ArrayAllocator::<1>::new();
    let wrapper = allocator.allocator_mut().allocate(1).unwrap();
    assert_eq!(wrapper.size(), 1);
}

#[test]
fn allocator_init() {
    let _ = ArrayAllocator::<3>::new();
}

#[test]
fn allocator_init_zero() {
    let _ = ArrayAllocator::<0>::new();
}

#[test]
fn allocate_value() {
    let mut allocator = ArrayAllocator::<1>::new();
    allocator.allocator_mut().allocate_value::<()>().unwrap();
}

#[test]
fn allocate_slice() {
    let mut allocator = ArrayAllocator::<1>::new();
    allocator
        .allocator_mut()
        .allocate_slice::<u8>(std::mem::size_of::<Block>())
        .unwrap();
}

// Exercises allocation where the request equals the head run's size.
#[test]
fn allocate_0() {
    let mut memory = ArrayAllocator::<1>::new();
    memory.allocator_mut().allocate(1).unwrap();
}

// Exercises allocation where the request is smaller than the head run.
#[test]
fn allocate_1() {
    let mut memory = ArrayAllocator::<2>::new();
    memory.allocator_mut().allocate(1).unwrap();
}

// Exercises walking past a too-small run to an exact fit.
#[test]
fn allocate_2() {
    let mut memory = ArrayAllocator::<4>::new();
    let a = memory.allocator_mut().allocate(1).unwrap();
    let b = memory.allocator_mut().allocate(1).unwrap();

    memory.allocator_mut().release(a);

    memory.allocator_mut().allocate(2).unwrap();

    memory.allocator_mut().release(b);
}

// Exercises walking past a too-small run to a larger run that is split.
#[test]
fn allocate_3() {
    let mut memory = ArrayAllocator::<5>::new();
    let a = memory.allocator_mut().allocate(1).unwrap();
    let b = memory.allocator_mut().allocate(1).unwrap();

    memory.allocator_mut().release(a);

    memory.allocator_mut().allocate(2).unwrap();

    memory.allocator_mut().release(b);
}

// Exercises walking past two too-small runs.
#[test]
fn allocate_4() {
    let mut memory = ArrayAllocator::<7>::new();
    let a = memory.allocator_mut().allocate(1).unwrap();
    let b = memory.allocator_mut().allocate(1).unwrap();
    let c = memory.allocator_mut().allocate(2).unwrap();

    memory.allocator_mut().release(b);

    memory.allocator_mut().allocate(3).unwrap();

    memory.allocator_mut().release(a);
    memory.allocator_mut().release(c);
}

// Exercises a walk that ends with no sufficient run.
#[test]
fn allocate_5() {
    let mut memory = ArrayAllocator::<6>::new();
    let a = memory.allocator_mut().allocate(1).unwrap();
    let b = memory.allocator_mut().allocate(1).unwrap();
    let c = memory.allocator_mut().allocate(2).unwrap();

    memory.allocator_mut().release(b);

    assert!(memory.allocator_mut().allocate(3).is_none());

    memory.allocator_mut().release(a);
    memory.allocator_mut().release(c);
}

// Exercises allocation from an empty free list.
#[test]
fn allocate_6() {
    let mut memory = ArrayAllocator::<0>::new();
    assert!(memory.allocator_mut().allocate(1).is_none());
}

// Release into an empty free list.
#[test]
fn linked_list_drop_1() {
    let mut memory = ArrayAllocator::<1>::new();
    let item = memory.allocator_mut().allocate(1).unwrap();
    memory.allocator_mut().release(item);
}

// Release of a run ending exactly at the head run: merge forward.
#[test]
fn linked_list_drop_2() {
    let mut memory = ArrayAllocator::<1>::new();
    let item = memory.allocator_mut().allocate(1).unwrap();
    memory.allocator_mut().release(item);
}

// Release of a run below the head run with a gap: prepend.
#[test]
fn linked_list_drop_3() {
    let mut memory = ArrayAllocator::<2>::new();

    let first = memory.allocator_mut().allocate(1).unwrap();
    let second = memory.allocator_mut().allocate(1).unwrap();

    memory.allocator_mut().release(second);
    memory.allocator_mut().release(first);
}

// Release between two runs, adjacent to both: merge on both sides.
#[test]
fn drop_4() {
    let mut memory = ArrayAllocator::<4>::new();

    let a = memory.allocator_mut().allocate(1).unwrap();
    let b = memory.allocator_mut().allocate(1).unwrap();
    let c = memory.allocator_mut().allocate(1).unwrap();
    let d = memory.allocator_mut().allocate(1).unwrap();

    memory.allocator_mut().release(a);
    memory.allocator_mut().release(c);

    memory.allocator_mut().release(b);
    memory.allocator_mut().release(d);
}

// Release adjacent to the run before it only: merge left.
#[test]
fn drop_5() {
    let mut memory = ArrayAllocator::<5>::new();

    let a = memory.allocator_mut().allocate(1).unwrap();
    let b = memory.allocator_mut().allocate(1).unwrap();
    let c = memory.allocator_mut().allocate(1).unwrap();
    let d = memory.allocator_mut().allocate(1).unwrap();
    let e = memory.allocator_mut().allocate(1).unwrap();

    memory.allocator_mut().release(a);
    memory.allocator_mut().release(b);
    memory.allocator_mut().release(e);

    memory.allocator_mut().release(c);

    memory.allocator_mut().release(d);
}

// Release adjacent to the last run, with nothing after it.
#[test]
fn drop_6() {
    let mut memory = ArrayAllocator::<3>::new();

    let a = memory.allocator_mut().allocate(1).unwrap();
    let b = memory.allocator_mut().allocate(1).unwrap();
    let c = memory.allocator_mut().allocate(1).unwrap();

    memory.allocator_mut().release(a);

    memory.allocator_mut().release(c);

    memory.allocator_mut().release(b);
}

// Release adjacent to the run after it only: merge right.
#[test]
fn drop_7() {
    let mut memory = ArrayAllocator::<5>::new();

    let a = memory.allocator_mut().allocate(1).unwrap();
    let b = memory.allocator_mut().allocate(1).unwrap();
    let c = memory.allocator_mut().allocate(1).unwrap();
    let d = memory.allocator_mut().allocate(1).unwrap();
    let e = memory.allocator_mut().allocate(1).unwrap();

    memory.allocator_mut().release(a);

    memory.allocator_mut().release(c);

    memory.allocator_mut().release(d);

    memory.allocator_mut().release(b);
    memory.allocator_mut().release(e);
}

// Release strictly between two runs, adjacent to neither: insert.
#[test]
fn drop_8() {
    let mut memory = ArrayAllocator::<6>::new();

    let a = memory.allocator_mut().allocate(1).unwrap();
    let b = memory.allocator_mut().allocate(1).unwrap();
    let c = memory.allocator_mut().allocate(1).unwrap();
    let d = memory.allocator_mut().allocate(1).unwrap();
    let e = memory.allocator_mut().allocate(1).unwrap();
    let f = memory.allocator_mut().allocate(1).unwrap();

    memory.allocator_mut().release(a);

    memory.allocator_mut().release(b);
    memory.allocator_mut().release(f);

    memory.allocator_mut().release(d);

    memory.allocator_mut().release(c);
    memory.allocator_mut().release(e);
}

// Release past the last run, with a gap: append.
#[test]
fn drop_9() {
    let mut memory = ArrayAllocator::<6>::new();

    let a = memory.allocator_mut().allocate(1).unwrap();
    let b = memory.allocator_mut().allocate(1).unwrap();
    let c = memory.allocator_mut().allocate(1).unwrap();
    let d = memory.allocator_mut().allocate(1).unwrap();
    let e = memory.allocator_mut().allocate(1).unwrap();
    let f = memory.allocator_mut().allocate(1).unwrap();

    memory.allocator_mut().release(a);

    memory.allocator_mut().release(c);
    memory.allocator_mut().release(e);

    memory.allocator_mut().release(f);

    memory.allocator_mut().release(b);
    memory.allocator_mut().release(d);
}

// Release after the walk ends at a non-adjacent last run.
#[test]
fn drop_10() {
    let mut memory = ArrayAllocator::<4>::new();

    let a = memory.allocator_mut().allocate(1).unwrap();
    let b = memory.allocator_mut().allocate(1).unwrap();
    let c = memory.allocator_mut().allocate(1).unwrap();
    let d = memory.allocator_mut().allocate(1).unwrap();

    memory.allocator_mut().release(a);

    memory.allocator_mut().release(c);

    memory.allocator_mut().release(d);

    memory.allocator_mut().release(b);
}

// The free-list states along an allocate/allocate/release/release cycle.
#[test]
fn allocator() {
    let mut memory = ArrayAllocator::<5>::new();
    let a = memory.allocator();

    assert_eq!(
        a.inner(),
        InnerAllocator {
            head: Some(0),
            size: 5
        }
    );
    assert_eq!(a.free_list(), vec![(0usize, 5usize)]);

    let first = memory.allocator_mut().allocate(1).unwrap();

    assert_eq!(
        memory.allocator().inner(),
        InnerAllocator {
            head: Some(1),
            size: 5
        }
    );
    assert_eq!(memory.allocator().free_list(), vec![(1usize, 4usize)]);

    let second = memory.allocator_mut().allocate(2).unwrap();

    assert_eq!(memory.allocator().head(), Some(3));
    assert_eq!(memory.allocator().free_list(), vec![(3usize, 2usize)]);

    memory.allocator_mut().release(second);

    assert_eq!(memory.allocator().head(), Some(1));
    assert_eq!(memory.allocator().free_list(), vec![(1usize, 4usize)]);

    memory.allocator_mut().release(first);

    assert_eq!(memory.allocator().head(), Some(0));
    assert_eq!(memory.allocator().free_list(), vec![(0usize, 5usize)]);
}

#[test]
fn value_index() {
    let mut allocator = ArrayAllocator::<1>::new();
    let wrapper = allocator.allocator_mut().allocate_value::<u8>().unwrap();
    assert_eq!(wrapper.index(), 0);
}

#[test]
fn value_size() {
    let mut allocator = ArrayAllocator::<1>::new();
    let wrapper = allocator.allocator_mut().allocate_value::<u8>().unwrap();
    assert_eq!(wrapper.size(), 1);
}

#[test]
fn value_deref() {
    let mut allocator = ArrayAllocator::<1>::new();
    let mut wrapper = allocator.allocator_mut().allocate_value::<u8>().unwrap();
    wrapper.set(0);
    assert_eq!(*wrapper.get(), 0);
}

#[test]
fn value_deref_mut() {
    let mut allocator = ArrayAllocator::<1>::new();
    let mut wrapper = allocator.allocator_mut().allocate_value::<u8>().unwrap();
    wrapper.set(0);
    assert_eq!(*wrapper.get(), 0);
    wrapper.set(1);
    assert_eq!(*wrapper.get(), 1);
}

#[test]
fn value_wrapper() {
    let mut allocator = ArrayAllocator::<1>::new();
    let value = allocator.allocator_mut().allocate_value::<u8>().unwrap();
    assert_eq!(value.wrapper().index(), 0);
}

#[test]
fn slice_index() {
    let mut allocator = ArrayAllocator::<3>::new();
    let wrapper = allocator.allocator_mut().allocate_slice::<u8>(3).unwrap();
    assert_eq!(wrapper.index(), 0);
}

#[test]
fn slice_size() {
    let mut allocator = ArrayAllocator::<3>::new();
    let wrapper = allocator.allocator_mut().allocate_slice::<u8>(3).unwrap();
    assert_eq!(wrapper.size(), 1);
}

#[test]
fn slice_len() {
    let mut allocator = ArrayAllocator::<3>::new();
    let wrapper = allocator.allocator_mut().allocate_slice::<u8>(3).unwrap();
    assert_eq!(wrapper.len(), 3);
}

#[test]
fn slice_is_empty() {
    let mut allocator = ArrayAllocator::<3>::new();
    let wrapper = allocator.allocator_mut().allocate_slice::<u8>(3).unwrap();
    assert!(!wrapper.is_empty());
}

#[test]
fn slice_wrapper() {
    let mut allocator = ArrayAllocator::<3>::new();
    let slice = allocator.allocator_mut().allocate_slice::<u8>(3).unwrap();
    assert_eq!(slice.wrapper().size(), 1);
}

#[test]
fn slice_resize() {
    let mut allocator = ArrayAllocator::<5>::new();
    let mut wrapper = allocator.allocator_mut().allocate_slice::<u8>(2).unwrap();
    wrapper.set(0, 0);
    wrapper.set(1, 1);
    wrapper.resize(allocator.allocator_mut(), 3).unwrap();
    wrapper.set(0, 0);
    wrapper.set(1, 1);
}

#[test]
fn slice_deref() {
    let mut allocator = ArrayAllocator::<3>::new();
    let mut wrapper = allocator.allocator_mut().allocate_slice::<u8>(3).unwrap();
    wrapper.set(0, 0);
    assert_eq!(*wrapper.get(0), 0);
    wrapper.set(1, 1);
    assert_eq!(*wrapper.get(1), 1);
    wrapper.set(2, 2);
    assert_eq!(*wrapper.get(2), 2);
}

#[test]
fn slice_deref_mut() {
    let mut allocator = ArrayAllocator::<3>::new();
    let mut wrapper = allocator.allocator_mut().allocate_slice::<u8>(3).unwrap();
    wrapper.set(0, 0);
    assert_eq!(*wrapper.get(0), 0);
    wrapper.set(1, 1);
    assert_eq!(*wrapper.get(1), 1);
    wrapper.set(2, 2);
    assert_eq!(*wrapper.get(2), 2);
}

// Splitting on allocation: each request takes the front of the lowest
// sufficient run and leaves the rest free.
#[test]
fn split_on_allocate() {
    let mut a = Allocator::new(5);

    let first = a.allocate(1).unwrap();
    assert_eq!(first.index(), 0);
    assert_eq!(a.free_list(), vec![(1usize, 4usize)]);

    let second = a.allocate(2).unwrap();
    assert_eq!(second.index(), 1);
    assert_eq!(a.free_list(), vec![(3usize, 2usize)]);

    a.release(first);
    a.release(second);
}

// Coalescing in the middle: freeing between two free runs merges all
// three into one.
#[test]
fn coalesce_middle() {
    let mut alloc = Allocator::new(4);

    let a = alloc.allocate(1).unwrap();
    let b = alloc.allocate(1).unwrap();
    let c = alloc.allocate(1).unwrap();
    let d = alloc.allocate(1).unwrap();
    assert_eq!((a.index(), b.index(), c.index(), d.index()), (0, 1, 2, 3));

    alloc.release(a);
    assert_eq!(alloc.free_list(), vec![(0usize, 1usize)]);

    alloc.release(c);
    assert_eq!(alloc.free_list(), vec![(0usize, 1usize), (2usize, 1usize)]);

    alloc.release(b);
    assert_eq!(alloc.free_list(), vec![(0usize, 3usize)]);

    alloc.release(d);
    assert_eq!(alloc.free_list(), vec![(0usize, 4usize)]);
}

// First fit takes the lowest-address sufficient run, passing over runs
// that are too small.
#[test]
fn first_fit_lowest_address() {
    let mut alloc = Allocator::new(7);

    let a = alloc.allocate(1).unwrap();
    let b = alloc.allocate(1).unwrap();
    let c = alloc.allocate(1).unwrap();
    let d = alloc.allocate(2).unwrap();
    assert_eq!((a.index(), b.index(), c.index(), d.index()), (0, 1, 2, 3));

    alloc.release(b);
    alloc.release(d);
    assert_eq!(alloc.free_list(), vec![(1usize, 1usize), (3usize, 4usize)]);

    let e = alloc.allocate(2).unwrap();
    assert_eq!(e.index(), 3);

    alloc.release(a);
    alloc.release(c);
    alloc.release(e);
}

// Allocating and then releasing restores the free list exactly.
#[test]
fn allocate_release_restores() {
    let mut alloc = Allocator::new(6);
    let a = alloc.allocate(2).unwrap();
    let b = alloc.allocate(1).unwrap();
    alloc.release(a);
    let before_head = alloc.head();
    let before = alloc.free_list();

    let w = alloc.allocate(2).unwrap();
    alloc.release(w);

    assert_eq!(alloc.head(), before_head);
    assert_eq!(alloc.free_list(), before);

    alloc.release(b);
}

// An empty request succeeds with a placeholder and releasing it changes
// nothing.
#[test]
fn allocate_zero_no_mutation() {
    let mut alloc = Allocator::new(3);
    let before = alloc.free_list();

    let w = alloc.allocate(0).unwrap();
    assert_eq!(w.index(), 0);
    assert_eq!(w.size(), 0);
    assert_eq!(alloc.free_list(), before);

    alloc.release(w);
    assert_eq!(alloc.free_list(), vec![(0usize, 3usize)]);

    let s = alloc.allocate_slice::<u8>(0).unwrap();
    assert_eq!(s.len(), 0);
    assert_eq!(s.size(), 0);
    assert_eq!(alloc.free_list(), vec![(0usize, 3usize)]);
    alloc.release_slice(s);
    assert_eq!(alloc.free_list(), vec![(0usize, 3usize)]);
}

// A zero-capacity allocator has no head and refuses every non-zero
// request.
#[test]
fn zero_capacity() {
    let mut alloc = Allocator::new(0);
    assert_eq!(alloc.head(), None);
    assert!(alloc.allocate(1).is_none());
    assert!(alloc.allocate(7).is_none());
    assert_eq!(alloc.head(), None);
}

// The whole capacity can be taken once; afterwards every non-zero
// request fails until the handle is released.
#[test]
fn full_capacity_cycle() {
    let mut alloc = Allocator::new(4);

    let w = alloc.allocate(4).unwrap();
    assert_eq!(w.index(), 0);
    assert_eq!(alloc.head(), None);
    assert!(alloc.allocate(1).is_none());
    assert!(alloc.allocate(4).is_none());

    alloc.release(w);
    assert_eq!(alloc.free_list(), vec![(0usize, 4usize)]);
    let again = alloc.allocate(4).unwrap();
    assert_eq!(again.index(), 0);
    alloc.release(again);
}

// Resizing copies the overlapping prefix of the contents.
#[test]
fn resize_copy() {
    let mut alloc = Allocator::new(8);
    let mut s = alloc.allocate_slice::<u8>(2).unwrap();
    s.set(0, 7);
    s.set(1, 9);

    s.resize(&mut alloc, 3).unwrap();
    assert_eq!(s.len(), 3);
    assert_eq!(*s.get(0), 7);
    assert_eq!(*s.get(1), 9);

    s.resize(&mut alloc, 1).unwrap();
    assert_eq!(s.len(), 1);
    assert_eq!(*s.get(0), 7);

    alloc.release_slice(s);
    assert_eq!(alloc.free_list(), vec![(0usize, 8usize)]);
}

// Resizing to the current length is a no-op; repeating a resize changes
// nothing further.
#[test]
fn resize_idempotent() {
    let mut alloc = Allocator::new(8);
    let mut s = alloc.allocate_slice::<u8>(2).unwrap();
    s.set(0, 7);
    s.set(1, 9);

    s.resize(&mut alloc, 4).unwrap();
    let head = alloc.head();
    let free = alloc.free_list();
    let index = s.index();

    s.resize(&mut alloc, 4).unwrap();
    assert_eq!(s.len(), 4);
    assert_eq!(s.index(), index);
    assert_eq!(alloc.head(), head);
    assert_eq!(alloc.free_list(), free);
    assert_eq!(*s.get(0), 7);
    assert_eq!(*s.get(1), 9);

    alloc.release_slice(s);
}

// The free cells and the handles' cells partition the whole range: no
// overlap, no gap.
#[test]
fn partition_no_overlap_no_gap() {
    let mut alloc = Allocator::new(9);
    let a = alloc.allocate(2).unwrap();
    let b = alloc.allocate(3).unwrap();
    let c = alloc.allocate(1).unwrap();
    alloc.release(b);

    let mut covered = vec![false; 9];
    for (index, size) in alloc.free_list() {
        for cell in index..index + size {
            assert!(!covered[cell]);
            covered[cell] = true;
        }
    }
    for handle in [&a, &c] {
        for cell in handle.index()..handle.index() + handle.size() {
            assert!(!covered[cell]);
            covered[cell] = true;
        }
    }
    assert!(covered.iter().all(|&x| x));

    alloc.release(a);
    alloc.release(c);
}

// The free list stays strictly ascending and non-adjacent through an
// arbitrary mix of operations.
#[test]
fn free_list_stays_sorted() {
    let mut alloc = Allocator::new(16);
    let mut handles = Vec::new();
    for _ in 0..8 {
        handles.push(alloc.allocate(2).unwrap());
    }
    for pick in [5, 1, 4, 2, 0] {
        let h: Wrapper = handles.swap_remove(pick);
        alloc.release(h);
        let free = alloc.free_list();
        for pair in free.windows(2) {
            assert!(pair[0].0 + pair[0].1 < pair[1].0);
        }
    }
    for h in handles {
        alloc.release(h);
    }
    assert_eq!(alloc.free_list(), vec![(0usize, 16usize)]);
}

// A resize that cannot be satisfied leaves the slice and the free list
// untouched.
#[test]
fn resize_miss() {
    let mut alloc = Allocator::new(2);
    let mut s = alloc.allocate_slice::<u8>(2).unwrap();
    s.set(0, 3);
    s.set(1, 4);
    let before = alloc.free_list();

    assert!(s.resize(&mut alloc, 1000).is_none());
    assert_eq!(s.len(), 2);
    assert_eq!(*s.get(0), 3);
    assert_eq!(*s.get(1), 4);
    assert_eq!(alloc.free_list(), before);

    alloc.release_slice(s);
}
