use shared_allocator::slab::{Allocator, ArrayAllocator, Block, InnerAllocator, Wrapper};

#[test]
fn slab_block_debug() {
    assert_eq!(format!("{:?}", Block::<u8>::Empty(None)), "Empty(None)");
}

#[test]
fn slab_wrapper_debug() {
    let mut allocator = ArrayAllocator::<1, ()>::new();
    let wrapper = allocator.allocator_mut().allocate(()).unwrap();
    assert_eq!(format!("{wrapper:?}"), "Wrapper { index: 0 }");
}

#[test]
fn slab_wrapper_index() {
    let mut allocator = ArrayAllocator::<1, ()>::new();
    let wrapper = allocator.allocator_mut().allocate(()).unwrap();
    assert_eq!(wrapper.index(), 0);
}

#[test]
fn wrapper_deref() {
    let mut allocator = ArrayAllocator::<1, u8>::new();
    let wrapper = allocator.allocator_mut().allocate(0).unwrap();
    assert_eq!(*allocator.allocator().get(&wrapper), 0);
}

#[test]
fn wrapper_deref_mut() {
    let mut allocator = ArrayAllocator::<1, u8>::new();
    let wrapper = allocator.allocator_mut().allocate(0).unwrap();
    assert_eq!(*allocator.allocator().get(&wrapper), 0);
    allocator.allocator_mut().put(&wrapper, 1);
    assert_eq!(*allocator.allocator().get(&wrapper), 1);
}

#[test]
fn inner_allocator_default() {
    let _ = ArrayAllocator::<0, ()>::new();
}

// Release into an empty free chain (every slot occupied).
#[test]
fn drop_0() {
    let mut memory = ArrayAllocator::<1, ()>::new();
    let w = memory.allocator_mut().allocate(()).unwrap();
    memory.allocator_mut().release(w);
}

// Release below the chain head.
#[test]
fn slab_drop_1() {
    let mut memory = ArrayAllocator::<2, ()>::new();
    let w = memory.allocator_mut().allocate(()).unwrap();
    memory.allocator_mut().release(w);
}

// Release past the chain head.
#[test]
fn slab_drop_2() {
    let mut memory = ArrayAllocator::<3, ()>::new();
    let a = memory.allocator_mut().allocate(()).unwrap();
    let b = memory.allocator_mut().allocate(()).unwrap();
    memory.allocator_mut().release(a);
    memory.allocator_mut().release(b);
}

// Release that walks past a chain slot before inserting.
#[test]
fn slab_drop_3() {
    let mut memory = ArrayAllocator::<4, ()>::new();
    let a = memory.allocator_mut().allocate(()).unwrap();
    let b = memory.allocator_mut().allocate(()).unwrap();
    let c = memory.allocator_mut().allocate(()).unwrap();
    memory.allocator_mut().release(a);
    memory.allocator_mut().release(b);
    memory.allocator_mut().release(c);
}

// The chain and slot states along fill-up and address-ordered release.
#[test]
fn slab_1() {
    const SIZE: usize = 10;
    let mut memory = ArrayAllocator::<SIZE, u8>::new();
    const X: u8 = 1;

    assert_eq!(
        memory.allocator().inner(),
        InnerAllocator {
            head: Some(0),
            size: SIZE
        }
    );
    assert_eq!(
        memory.allocator().free_list(),
        vec![0, 1, 2, 3, 4, 5, 6, 7, 8, 9]
    );

    let a = memory.allocator_mut().allocate(X).unwrap();
    assert_eq!(memory.allocator().head(), Some(1));
    assert_eq!(memory.allocator().free_list(), vec![1, 2, 3, 4, 5, 6, 7, 8, 9]);

    let b = memory.allocator_mut().allocate(X).unwrap();
    assert_eq!(memory.allocator().head(), Some(2));

    let c = memory.allocator_mut().allocate(X).unwrap();
    assert_eq!(memory.allocator().head(), Some(3));

    let d = memory.allocator_mut().allocate(X).unwrap();
    assert_eq!(memory.allocator().head(), Some(4));

    let e = memory.allocator_mut().allocate(X).unwrap();
    let f = memory.allocator_mut().allocate(X).unwrap();
    let g = memory.allocator_mut().allocate(X).unwrap();
    let h = memory.allocator_mut().allocate(X).unwrap();
    let i = memory.allocator_mut().allocate(X).unwrap();
    assert_eq!(memory.allocator().head(), Some(9));

    let j = memory.allocator_mut().allocate(X).unwrap();
    assert_eq!(memory.allocator().head(), None);
    assert_eq!(memory.allocator().free_list(), Vec::<usize>::new());
    for w in [&a, &b, &c, &d, &e, &f, &g, &h, &i, &j] {
        assert_eq!(*memory.allocator().get(w), X);
    }

    memory.allocator_mut().release(b);
    assert_eq!(memory.allocator().head(), Some(1));
    assert_eq!(memory.allocator().free_list(), vec![1]);

    memory.allocator_mut().release(d);
    assert_eq!(memory.allocator().head(), Some(1));
    assert_eq!(memory.allocator().free_list(), vec![1, 3]);

    memory.allocator_mut().release(e);
    assert_eq!(memory.allocator().free_list(), vec![1, 3, 4]);

    memory.allocator_mut().release(i);
    assert_eq!(memory.allocator().free_list(), vec![1, 3, 4, 8]);

    memory.allocator_mut().release(a);
    assert_eq!(memory.allocator().head(), Some(0));
    assert_eq!(memory.allocator().free_list(), vec![0, 1, 3, 4, 8]);

    memory.allocator_mut().release(c);
    assert_eq!(memory.allocator().free_list(), vec![0, 1, 2, 3, 4, 8]);

    memory.allocator_mut().release(f);
    assert_eq!(memory.allocator().free_list(), vec![0, 1, 2, 3, 4, 5, 8]);

    memory.allocator_mut().release(g);
    assert_eq!(memory.allocator().free_list(), vec![0, 1, 2, 3, 4, 5, 6, 8]);

    memory.allocator_mut().release(h);
    assert_eq!(memory.allocator().free_list(), vec![0, 1, 2, 3, 4, 5, 6, 7, 8]);

    memory.allocator_mut().release(j);
    assert_eq!(
        memory.allocator().free_list(),
        vec![0, 1, 2, 3, 4, 5, 6, 7, 8, 9]
    );
}

// The iterator emits a wrapper for every occupied slot in ascending
// index order.
#[test]
fn wrapper_iterator() {
    let mut memory = ArrayAllocator::<10, u8>::new();
    const X: u8 = 1;

    {
        let mut iter = memory.allocator().iter();
        assert_eq!(*iter.free(), Some(0));
        assert_eq!(*iter.used(), 0);
        assert!(iter.next(memory.allocator()).is_none());
    }

    let a = memory.allocator_mut().allocate(X).unwrap();
    let b = memory.allocator_mut().allocate(X).unwrap();
    let c = memory.allocator_mut().allocate(X).unwrap();

    {
        let mut iter = memory.allocator().iter();
        assert_eq!(*iter.free(), Some(3));
        assert_eq!(*iter.used(), 0);
        assert_eq!(iter.next(memory.allocator()).unwrap().index(), 0);
        assert_eq!(iter.next(memory.allocator()).unwrap().index(), 1);
        assert_eq!(iter.next(memory.allocator()).unwrap().index(), 2);
        assert!(iter.next(memory.allocator()).is_none());
    }

    memory.allocator_mut().release(b);

    {
        let mut iter = memory.allocator().iter();
        assert_eq!(*iter.free(), Some(1));
        assert_eq!(iter.next(memory.allocator()).unwrap().index(), 0);
        assert_eq!(iter.next(memory.allocator()).unwrap().index(), 2);
        assert!(iter.next(memory.allocator()).is_none());
    }

    memory.allocator_mut().release(a);
    memory.allocator_mut().release(c);

    {
        let mut iter = memory.allocator().iter();
        assert_eq!(*iter.free(), Some(0));
        assert!(iter.next(memory.allocator()).is_none());
    }
}

// Address-ordered release: after dropping slots 1, 3 and 5 the iterator
// emits the remaining occupied slots in ascending order.
#[test]
fn slab_address_ordered_release() {
    let mut memory = Allocator::<u8>::new(10);
    let mut handles = Vec::new();
    for v in 0..10u8 {
        handles.push(memory.allocate(v).unwrap());
    }
    assert_eq!(handles[3].index(), 3);

    let five = handles.remove(5);
    let three = handles.remove(3);
    let one = handles.remove(1);
    memory.release(one);
    memory.release(three);
    memory.release(five);

    assert_eq!(memory.head(), Some(1));
    assert_eq!(memory.free_list(), vec![1, 3, 5]);

    let mut iter = memory.iter();
    let mut seen = Vec::new();
    while let Some(w) = iter.next(&memory) {
        seen.push(w.index());
    }
    assert_eq!(seen, vec![0, 2, 4, 6, 7, 8, 9]);

    for w in handles {
        memory.release(w);
    }
    assert_eq!(memory.free_list(), vec![0, 1, 2, 3, 4, 5, 6, 7, 8, 9]);
}

// The free chain and the occupied slots partition the slot range.
#[test]
fn slab_partition() {
    let mut memory = Allocator::<u16>::new(8);
    let mut handles = Vec::new();
    for v in 0..8u16 {
        handles.push(memory.allocate(v).unwrap());
    }
    let f = handles.remove(6);
    let t = handles.remove(2);
    memory.release(t);
    memory.release(f);

    let mut covered = vec![false; 8];
    for slot in memory.free_list() {
        assert!(!covered[slot]);
        covered[slot] = true;
    }
    for w in &handles {
        assert!(!covered[w.index()]);
        covered[w.index()] = true;
    }
    assert!(covered.iter().all(|&x| x));

    for w in handles {
        memory.release(w);
    }
}

// A deterministic churn of allocations and releases keeps the chain
// ascending and the values intact.
#[test]
fn slab_churn() {
    let mut memory = Allocator::<u64>::new(12);
    let mut held: Vec<Wrapper> = Vec::new();
    for round in 0..50u64 {
        if round % 3 != 2 {
            if let Some(w) = memory.allocate(round) {
                held.push(w);
            }
        } else if !held.is_empty() {
            let w = held.remove((round as usize * 7) % held.len());
            memory.release(w);
        }
        let free = memory.free_list();
        for pair in free.windows(2) {
            assert!(pair[0] < pair[1]);
        }
    }
    for w in held {
        memory.release(w);
    }
    assert_eq!(memory.free_list(), (0..12).collect::<Vec<usize>>());
}

// A full slab refuses the next allocation and stays as it was.
#[test]
fn slab_full_miss() {
    let mut memory = Allocator::<u8>::new(2);
    let a = memory.allocate(10).unwrap();
    let b = memory.allocate(20).unwrap();
    assert_eq!(memory.head(), None);
    assert!(memory.allocate(30).is_none());
    assert_eq!(*memory.get(&a), 10);
    assert_eq!(*memory.get(&b), 20);
    memory.release(a);
    memory.release(b);
}
