//! The slab (fixed-slot) allocator: each slot holds either one stored
//! value or the index of the next free slot; the free chain is kept in
//! strictly ascending address order, so freed slots are reinserted at
//! their address, not pushed on top.

use vstd::prelude::*;

verus! {

/// One slot of the slab. A free slot holds the index of the next free
/// slot; an occupied slot holds the stored value. Which of the two a
/// slot is, is exactly membership in the free chain.
#[derive(Debug, PartialEq, Eq)]
pub enum Block<T> {
    Empty(Option<usize>),
    Full(T),
}

/// The free chain read from the slots, starting at `cur`: the slot
/// indices visited by following the next-free links. An out-of-bounds,
/// non-ascending or occupied link ends the walk, so the sequence is
/// defined for any slot contents; under `wf_free` no such cut happens.
pub open spec fn free_from<T>(data: Seq<Block<T>>, cur: int) -> Seq<int>
    decreases data.len() - cur,
{
    if 0 <= cur < data.len() {
        match data[cur] {
            Block::Empty(nx) => match nx {
                None => seq![cur],
                Some(n) => {
                    if cur < n && n < data.len() {
                        seq![cur] + free_from(data, n as int)
                    } else {
                        seq![cur]
                    }
                },
            },
            Block::Full(_) => seq![cur],
        }
    } else {
        Seq::empty()
    }
}

/// A well-formed free chain headed at `cur`: every visited slot is in
/// bounds and free, and the links strictly ascend.
pub open spec fn wf_free<T>(data: Seq<Block<T>>, cur: int) -> bool
    decreases data.len() - cur,
{
    &&& 0 <= cur < data.len()
    &&& match data[cur] {
        Block::Empty(nx) => match nx {
            None => true,
            Some(n) => cur < n && n < data.len() && wf_free(data, n as int),
        },
        Block::Full(_) => false,
    }
}

/// The first occupied slot at or after `from`, if any.
pub open spec fn first_full<T>(data: Seq<Block<T>>, from: int) -> Option<int>
    decreases data.len() - from,
{
    if 0 <= from < data.len() {
        if data[from] is Full {
            Some(from)
        } else {
            first_full(data, from + 1)
        }
    } else {
        None
    }
}

/// Insertion of `i` into an ascending index sequence, keeping the order.
pub open spec fn insert_sorted(s: Seq<int>, i: int) -> Seq<int>
    decreases s.len(),
{
    if s.len() == 0 {
        seq![i]
    } else if i < s[0] {
        seq![i] + s
    } else {
        seq![s[0]] + insert_sorted(s.drop_first(), i)
    }
}

/// A well-formed chain reads back as a non-empty, strictly ascending
/// sequence of in-bounds free slots, headed by `cur`.
proof fn lemma_free_from_props<T>(data: Seq<Block<T>>, cur: int)
    requires
        wf_free(data, cur),
    ensures
        ({
            let fs = free_from(data, cur);
            &&& fs.len() >= 1
            &&& fs[0] == cur
            &&& forall|k: int|
                0 <= k < fs.len() ==> cur <= #[trigger] fs[k] < data.len() && data[fs[k]] is Empty
            &&& forall|k: int| 0 <= k < fs.len() - 1 ==> #[trigger] fs[k] < fs[k + 1]
        }),
    decreases data.len() - cur,
{
    let fs = free_from(data, cur);
    match data[cur] {
        Block::Empty(nx) => match nx {
            None => {},
            Some(n) => {
                lemma_free_from_props(data, n as int);
                let sub = free_from(data, n as int);
                assert(fs == seq![cur] + sub);
                assert forall|k: int|
                    0 <= k < fs.len() implies cur <= #[trigger] fs[k] < data.len() && data[fs[k]]
                    is Empty by {
                    if k > 0 {
                        assert(fs[k] == sub[k - 1]);
                    }
                }
                assert forall|k: int| 0 <= k < fs.len() - 1 implies #[trigger] fs[k] < fs[k
                    + 1] by {
                    if k > 0 {
                        assert(fs[k] == sub[k - 1]);
                        assert(fs[k + 1] == sub[k]);
                    } else {
                        assert(fs[1] == sub[0]);
                    }
                }
            },
        },
        Block::Full(_) => {},
    }
}

/// Chain membership splits into the head and the rest.
proof fn lemma_free_from_membership<T>(data: Seq<Block<T>>, cur: int, j: int)
    requires
        wf_free(data, cur),
    ensures
        ({
            let fs = free_from(data, cur);
            fs.contains(j) <==> (j == cur || (match data[cur] {
                Block::Empty(nx) => match nx {
                    None => false,
                    Some(n) => free_from(data, n as int).contains(j),
                },
                Block::Full(_) => false,
            }))
        }),
{
    let fs = free_from(data, cur);
    match data[cur] {
        Block::Empty(nx) => match nx {
            None => {
                assert(fs == seq![cur]);
                if fs.contains(j) {
                    let k = choose|k: int| 0 <= k < fs.len() && fs[k] == j;
                    assert(k == 0);
                }
                if j == cur {
                    assert(fs[0] == j);
                }
            },
            Some(n) => {
                let sub = free_from(data, n as int);
                assert(fs == seq![cur] + sub);
                if fs.contains(j) {
                    let k = choose|k: int| 0 <= k < fs.len() && fs[k] == j;
                    if k > 0 {
                        assert(sub[k - 1] == j);
                    }
                }
                if j == cur {
                    assert(fs[0] == j);
                }
                if sub.contains(j) {
                    let k = choose|k: int| 0 <= k < sub.len() && sub[k] == j;
                    assert(fs[k + 1] == j);
                }
            },
        },
        Block::Full(_) => {},
    }
}

/// Slots off the chain do not affect how the chain reads back.
proof fn lemma_free_frame<T>(data: Seq<Block<T>>, data2: Seq<Block<T>>, cur: int)
    requires
        wf_free(data, cur),
        data2.len() == data.len(),
        forall|k: int|
            0 <= k < free_from(data, cur).len() ==> data2[#[trigger] free_from(data, cur)[k]]
                == data[free_from(data, cur)[k]],
    ensures
        wf_free(data2, cur),
        free_from(data2, cur) == free_from(data, cur),
    decreases data.len() - cur,
{
    let fs = free_from(data, cur);
    lemma_free_from_props(data, cur);
    assert(data2[cur] == data[cur]);
    match data[cur] {
        Block::Empty(nx) => match nx {
            None => {
                assert(free_from(data2, cur) =~= free_from(data, cur));
            },
            Some(n) => {
                let sub = free_from(data, n as int);
                assert(fs == seq![cur] + sub);
                assert forall|k: int| 0 <= k < sub.len() implies data2[#[trigger] sub[k]]
                    == data[sub[k]] by {
                    assert(fs[k + 1] == sub[k]);
                }
                lemma_free_frame(data, data2, n as int);
                assert(free_from(data2, cur) =~= free_from(data, cur));
            },
        },
        Block::Full(_) => {},
    }
}

/// Updating a slot off the chain leaves the chain as it was.
proof fn lemma_free_frame_update<T>(data: Seq<Block<T>>, j: int, b: Block<T>, cur: int)
    requires
        wf_free(data, cur),
        0 <= j < data.len(),
        !free_from(data, cur).contains(j),
    ensures
        wf_free(data.update(j, b), cur),
        free_from(data.update(j, b), cur) == free_from(data, cur),
{
    let fs = free_from(data, cur);
    lemma_free_from_props(data, cur);
    assert forall|k: int| 0 <= k < fs.len() implies data.update(j, b)[#[trigger] fs[k]]
        == data[fs[k]] by {
        assert(fs[k] != j);
    }
    lemma_free_frame(data, data.update(j, b), cur);
}

/// The owning token for one occupied slot: its index.
#[derive(Debug, PartialEq, Eq)]
pub struct Wrapper {
    pub index: usize,
}

impl Wrapper {
    /// The index of the owned slot.
    pub fn index(&self) -> (r: usize)
        ensures
            r == self.index,
    {
        self.index
    }
}

/// The slab's header: the free-chain head and the total slot count. In
/// the shared-region layout this record sits just before the slots.
#[derive(Clone, Copy, Debug, PartialEq, Eq)]
pub struct InnerAllocator {
    pub head: Option<usize>,
    pub size: usize,
}

/// The slab allocator: the free-chain head and the slot array. An absent
/// head means every slot is occupied.
#[derive(Debug)]
pub struct Allocator<T> {
    pub head: Option<usize>,
    pub data: Vec<Block<T>>,
}

impl<T> Allocator<T> {
    /// Total number of slots.
    pub open spec fn cap(self) -> int {
        self.data@.len() as int
    }

    /// The free chain as a sequence of slot indices, in chain order.
    pub open spec fn free_seq(self) -> Seq<int> {
        match self.head {
            None => Seq::empty(),
            Some(h) => free_from(self.data@, h as int),
        }
    }

    /// Well-formedness: the chain from the head is well formed, and every
    /// free slot is on it — so a slot is free exactly when it is reached
    /// from `head`. An absent head means no slot is free.
    pub open spec fn wf(self) -> bool {
        match self.head {
            None => forall|j: int| 0 <= j < self.data@.len() ==> !(self.data@[j] is Empty),
            Some(h) => wf_free(self.data@, h as int) && forall|j: int|
                0 <= j < self.data@.len() && self.data@[j] is Empty ==> free_from(
                    self.data@,
                    h as int,
                ).contains(j),
        }
    }
}

/// In a fresh slab each slot links to the one after it; the chain from
/// any slot is exactly the ascending run of the remaining slots.
proof fn lemma_fresh_chain<T>(data: Seq<Block<T>>, i: int)
    requires
        0 <= i < data.len(),
        data.len() <= usize::MAX,
        forall|j: int|
            0 <= j < data.len() ==> data[j] == (Block::Empty::<T>(
                if j + 1 < data.len() {
                    Some((j + 1) as usize)
                } else {
                    None
                },
            )),
    ensures
        wf_free(data, i),
        free_from(data, i) == Seq::new((data.len() - i) as nat, |k: int| i + k),
    decreases data.len() - i,
{
    if i + 1 < data.len() {
        lemma_fresh_chain(data, i + 1);
        assert(data[i] == (Block::Empty::<T>(Some((i + 1) as usize))));
        assert(free_from(data, i) == seq![i] + free_from(data, i + 1));
        assert(free_from(data, i) =~= Seq::new((data.len() - i) as nat, |k: int| i + k));
    } else {
        assert(data[i] == (Block::Empty::<T>(None)));
        assert(free_from(data, i) == seq![i]);
        assert(free_from(data, i) =~= Seq::new((data.len() - i) as nat, |k: int| i + k));
    }
}

impl<T> Allocator<T> {
    /// A fresh slab over `capacity` slots: every slot is free and the
    /// chain runs through them in ascending order.
    pub fn new(capacity: usize) -> (r: Allocator<T>)
        ensures
            r.wf(),
            r.cap() == capacity,
            capacity == 0 ==> r.head is None,
            capacity > 0 ==> r.head == Some(0usize),
            r.free_seq() == Seq::new(capacity as nat, |k: int| k),
            forall|j: int|
                0 <= j < capacity ==> r.data@[j] == (Block::Empty::<T>(
                    if j + 1 < capacity {
                        Some((j + 1) as usize)
                    } else {
                        None
                    },
                )),
    {
        let mut data: Vec<Block<T>> = Vec::new();
        let mut i: usize = 0;
        while i < capacity
            invariant
                i <= capacity,
                data@.len() == i,
                forall|j: int|
                    0 <= j < i ==> data@[j] == (Block::Empty::<T>(
                        if j + 1 < capacity {
                            Some((j + 1) as usize)
                        } else {
                            None
                        },
                    )),
            decreases capacity - i,
        {
            if i + 1 < capacity {
                data.push(Block::Empty(Some(i + 1)));
            } else {
                data.push(Block::Empty(None));
            }
            i += 1;
        }
        if capacity > 0 {
            proof {
                assert(data@.len() == capacity <= usize::MAX);
                lemma_fresh_chain(data@, 0);
                let fs = Seq::new(capacity as nat, |k: int| k);
                assert(free_from(data@, 0) =~= fs);
                assert forall|j: int| 0 <= j < data@.len() && data@[j] is Empty implies free_from(
                    data@,
                    0,
                ).contains(j) by {
                    assert(free_from(data@, 0)[j] == j);
                }
            }
            Allocator { head: Some(0), data }
        } else {
            Allocator { head: None, data }
        }
    }

    /// The free-chain head: the index of the lowest free slot, or `None`
    /// when the slab is full.
    pub fn head(&self) -> (r: Option<usize>)
        ensures
            r == self.head,
    {
        self.head
    }

    /// Total number of slots.
    pub fn capacity(&self) -> (r: usize)
        ensures
            r == self.cap(),
    {
        self.data.len()
    }

    /// A copy of the header: the free-chain head and the capacity.
    pub fn inner(&self) -> (r: InnerAllocator)
        ensures
            r.head == self.head,
            r.size == self.cap(),
    {
        InnerAllocator { head: self.head, size: self.data.len() }
    }

    /// Moves `x` into the lowest free slot and returns its handle, or
    /// gives `x` back when the slab is full. Succeeds exactly when a free
    /// slot exists; no other slot is touched.
    pub fn allocate(&mut self, x: T) -> (r: Option<Wrapper>)
        requires
            old(self).wf(),
        ensures
            final(self).wf(),
            final(self).cap() == old(self).cap(),
            (r is Some) == (old(self).head is Some),
            (r is Some) == (old(self).free_seq().len() > 0),
            r is None ==> final(self).head == old(self).head && final(self).data@ == old(
                self,
            ).data@,
            r is Some ==> ({
                let i = old(self).head.unwrap();
                &&& r.unwrap().index == i
                &&& final(self).free_seq() == old(self).free_seq().drop_first()
                &&& final(self).data@ == old(self).data@.update(i as int, Block::Full(x))
            }),
    {
        match self.head {
            None => None,
            Some(h) => {
                proof {
                    lemma_free_from_props(self.data@, h as int);
                }
                let nx = match &self.data[h] {
                    Block::Empty(n) => *n,
                    Block::Full(_) => {
                        proof {
                            assert(false);
                        }
                        None
                    },
                };
                self.data.set(h, Block::Full(x));
                self.head = nx;
                proof {
                    let d0 = old(self).data@;
                    let d1 = self.data@;
                    let fs = free_from(d0, h as int);
                    if let Some(n) = nx {
                        let sub = free_from(d0, n as int);
                        assert(wf_free(d0, n as int));
                        lemma_free_from_props(d0, n as int);
                        assert(fs == seq![h as int] + sub);
                        assert(!sub.contains(h as int)) by {
                            if sub.contains(h as int) {
                                let k = choose|k: int| 0 <= k < sub.len() && sub[k] == h as int;
                                assert(sub[k] >= n);
                            }
                        }
                        lemma_free_frame_update(d0, h as int, Block::Full(x), n as int);
                        assert(self.free_seq() =~= fs.drop_first());
                        assert forall|j: int|
                            0 <= j < d1.len() && d1[j] is Empty implies free_from(
                            d1,
                            n as int,
                        ).contains(j) by {
                            assert(d0[j] is Empty);
                            lemma_free_from_membership(d0, h as int, j);
                        }
                    } else {
                        assert(fs == seq![h as int]);
                        assert forall|j: int| 0 <= j < d1.len() implies !(d1[j] is Empty) by {
                            if d1[j] is Empty {
                                assert(d0[j] is Empty);
                                lemma_free_from_membership(d0, h as int, j);
                                let k = choose|k: int| 0 <= k < fs.len() && fs[k] == j;
                                assert(k == 0);
                            }
                        }
                        assert(self.free_seq() =~= fs.drop_first());
                    }
                }
                Some(Wrapper { index: h })
            },
        }
    }
}

/// Splitting membership of a cons sequence.
proof fn lemma_cons_contains(h: int, t: Seq<int>, x: int)
    ensures
        (seq![h] + t).contains(x) <==> (x == h || t.contains(x)),
{
    let s = seq![h] + t;
    if s.contains(x) {
        let k = choose|k: int| 0 <= k < s.len() && s[k] == x;
        if k > 0 {
            assert(t[k - 1] == x);
        }
    }
    if x == h {
        assert(s[0] == x);
    }
    if t.contains(x) {
        let k = choose|k: int| 0 <= k < t.len() && t[k] == x;
        assert(s[k + 1] == x);
    }
}

/// Inserting a fresh index into an ascending sequence keeps it
/// ascending, adds exactly that index, and the head becomes the lower of
/// the index and the old head.
proof fn lemma_insert_sorted_props(s: Seq<int>, i: int)
    requires
        forall|k: int| 0 <= k < s.len() - 1 ==> #[trigger] s[k] < s[k + 1],
        forall|k: int| 0 <= k < s.len() ==> #[trigger] s[k] != i,
    ensures
        ({
            let out = insert_sorted(s, i);
            &&& out.len() == s.len() + 1
            &&& forall|k: int| 0 <= k < out.len() - 1 ==> #[trigger] out[k] < out[k + 1]
            &&& forall|x: int| out.contains(x) <==> (x == i || s.contains(x))
            &&& out[0] == if s.len() == 0 || i < s[0] {
                i
            } else {
                s[0]
            }
        }),
    decreases s.len(),
{
    let out = insert_sorted(s, i);
    if s.len() == 0 {
        assert(out == seq![i]);
        assert forall|x: int| out.contains(x) implies (x == i || s.contains(x)) by {
            let k = choose|k: int| 0 <= k < out.len() && out[k] == x;
            assert(k == 0);
        }
        assert(out[0] == i);
    } else if i < s[0] {
        assert(out == seq![i] + s);
        assert forall|k: int| 0 <= k < out.len() - 1 implies #[trigger] out[k] < out[k + 1] by {
            if k > 0 {
                assert(out[k] == s[k - 1]);
                assert(out[k + 1] == s[k]);
            } else {
                assert(out[1] == s[0]);
            }
        }
        assert forall|x: int| out.contains(x) <==> (x == i || s.contains(x)) by {
            lemma_cons_contains(i, s, x);
        }
    } else {
        let tail = s.drop_first();
        assert forall|k: int| 0 <= k < tail.len() - 1 implies #[trigger] tail[k] < tail[k + 1] by {
            assert(tail[k] == s[k + 1]);
            assert(tail[k + 1] == s[k + 2]);
        }
        assert forall|k: int| 0 <= k < tail.len() implies #[trigger] tail[k] != i by {
            assert(tail[k] == s[k + 1]);
        }
        lemma_insert_sorted_props(tail, i);
        let sub = insert_sorted(tail, i);
        assert(out == seq![s[0]] + sub);
        assert(s[0] < i);
        assert forall|k: int| 0 <= k < out.len() - 1 implies #[trigger] out[k] < out[k + 1] by {
            if k > 0 {
                assert(out[k] == sub[k - 1]);
                assert(out[k + 1] == sub[k]);
            } else {
                assert(out[1] == sub[0]);
                if tail.len() > 0 {
                    assert(tail[0] == s[1]);
                }
            }
        }
        assert forall|x: int| out.contains(x) <==> (x == i || s.contains(x)) by {
            lemma_cons_contains(s[0], sub, x);
            lemma_cons_contains(s[0], tail, x);
            assert(s =~= seq![s[0]] + tail);
        }
    }
}

/// Threads the freed slot `idx` into the chain headed at `cur` at its
/// address-ordered position, exactly as `insert_sorted` describes. The
/// chain's head does not change, since `cur < idx`.
fn release_from<T>(data: &mut Vec<Block<T>>, cur: usize, idx: usize)
    requires
        wf_free(old(data)@, cur as int),
        idx < old(data)@.len(),
        old(data)@[idx as int] is Full,
        (cur as int) < idx as int,
    ensures
        final(data)@.len() == old(data)@.len(),
        wf_free(final(data)@, cur as int),
        free_from(final(data)@, cur as int) == insert_sorted(
            free_from(old(data)@, cur as int),
            idx as int,
        ),
        final(data)@[idx as int] is Empty,
        forall|j: int|
            0 <= j < old(data)@.len() && j != idx as int
                ==> ((old(data)@[j] is Empty) == (final(data)@[j] is Empty)),
        forall|j: int|
            0 <= j < old(data)@.len() && old(data)@[j] is Full && j != idx as int
                ==> final(data)@[j] == old(data)@[j],
        forall|j: int| 0 <= j < cur as int ==> final(data)@[j] == old(data)@[j],
    decreases old(data)@.len() - cur,
{
    proof {
        lemma_free_from_props(old(data)@, cur as int);
    }
    let ghost all = free_from(old(data)@, cur as int);
    let nx = match &data[cur] {
        Block::Empty(n) => *n,
        Block::Full(_) => {
            proof {
                assert(false);
            }
            None
        },
    };
    match nx {
        None => {
            // The freed slot goes past the chain's last slot.
            data.set(idx, Block::Empty(None));
            data.set(cur, Block::Empty(Some(idx)));
            proof {
                let d1 = data@;
                assert(all == seq![cur as int]);
                assert(all.drop_first() =~= Seq::<int>::empty());
                assert(insert_sorted(Seq::<int>::empty(), idx as int) == seq![idx as int]);
                assert(insert_sorted(all, idx as int) == seq![cur as int] + seq![idx as int]);
                assert(wf_free(d1, idx as int));
                assert(free_from(d1, idx as int) == seq![idx as int]);
                assert(wf_free(d1, cur as int));
                assert(free_from(d1, cur as int) =~= insert_sorted(all, idx as int));
            }
        },
        Some(n) => {
            if n > idx {
                // The freed slot belongs between this slot and the next.
                data.set(idx, Block::Empty(Some(n)));
                data.set(cur, Block::Empty(Some(idx)));
                proof {
                    let d0 = old(data)@;
                    let d1 = data@;
                    let sub = free_from(d0, n as int);
                    assert(all == seq![cur as int] + sub);
                    assert(all.drop_first() =~= sub);
                    lemma_free_from_props(d0, n as int);
                    assert(!sub.contains(idx as int)) by {
                        if sub.contains(idx as int) {
                            let k = choose|k: int| 0 <= k < sub.len() && sub[k] == idx as int;
                            assert(sub[k] >= n);
                        }
                    }
                    assert(!sub.contains(cur as int)) by {
                        if sub.contains(cur as int) {
                            let k = choose|k: int| 0 <= k < sub.len() && sub[k] == cur as int;
                            assert(sub[k] >= n);
                        }
                    }
                    let dm = d0.update(idx as int, Block::Empty(Some(n)));
                    lemma_free_frame_update(d0, idx as int, Block::Empty(Some(n)), n as int);
                    lemma_free_frame_update(dm, cur as int, Block::Empty(Some(idx)), n as int);
                    assert(d1 == dm.update(cur as int, Block::Empty(Some(idx))));
                    assert(free_from(d1, n as int) == sub);
                    assert(wf_free(d1, idx as int));
                    assert(free_from(d1, idx as int) == seq![idx as int] + sub);
                    assert(wf_free(d1, cur as int));
                    assert(insert_sorted(sub, idx as int) == seq![idx as int] + sub);
                    assert(insert_sorted(all, idx as int) == seq![cur as int] + insert_sorted(
                        sub,
                        idx as int,
                    ));
                    assert(free_from(d1, cur as int) =~= insert_sorted(all, idx as int));
                }
            } else {
                // The freed slot lies past the next chain slot: recurse.
                proof {
                    assert(wf_free(old(data)@, n as int));
                    assert(old(data)@[n as int] is Empty);
                    assert(n != idx);
                }
                release_from(data, n, idx);
                proof {
                    let d0 = old(data)@;
                    let d1 = data@;
                    let sub = free_from(d0, n as int);
                    assert(d1[cur as int] == d0[cur as int]);
                    assert(all == seq![cur as int] + sub);
                    assert(all.drop_first() =~= sub);
                    assert(wf_free(d1, cur as int));
                    assert(free_from(d1, cur as int) =~= seq![cur as int] + insert_sorted(
                        sub,
                        idx as int,
                    ));
                    assert(insert_sorted(all, idx as int) == seq![cur as int] + insert_sorted(
                        sub,
                        idx as int,
                    ));
                }
            }
        },
    }
}

impl<T> Allocator<T> {
    /// Returns a wrapper's slot to the free chain at its address-ordered
    /// position, dropping the stored value. The chain stays strictly
    /// ascending; no other occupied slot is touched; the new head is the
    /// lower of the freed index and the old head.
    pub fn release(&mut self, w: Wrapper)
        requires
            old(self).wf(),
            w.index < old(self).cap(),
            old(self).data@[w.index as int] is Full,
        ensures
            final(self).wf(),
            final(self).cap() == old(self).cap(),
            final(self).free_seq() == insert_sorted(old(self).free_seq(), w.index as int),
            final(self).data@[w.index as int] is Empty,
            forall|j: int|
                0 <= j < old(self).cap() && old(self).data@[j] is Full && j != w.index as int
                    ==> final(self).data@[j] == old(self).data@[j],
            final(self).head == Some(
                match old(self).head {
                    None => w.index,
                    Some(h) => if w.index < h {
                        w.index
                    } else {
                        h
                    },
                },
            ),
    {
        let i = w.index;
        match self.head {
            None => {
                self.data.set(i, Block::Empty(None));
                self.head = Some(i);
                proof {
                    let d1 = self.data@;
                    assert(wf_free(d1, i as int));
                    assert(free_from(d1, i as int) == seq![i as int]);
                    assert(insert_sorted(Seq::<int>::empty(), i as int) == seq![i as int]);
                    assert forall|j: int| 0 <= j < d1.len() && d1[j] is Empty implies free_from(
                        d1,
                        i as int,
                    ).contains(j) by {
                        assert(j == i as int);
                        assert(free_from(d1, i as int)[0] == j);
                    }
                }
            },
            Some(h) => {
                proof {
                    lemma_free_from_props(self.data@, h as int);
                }
                if i < h {
                    self.data.set(i, Block::Empty(Some(h)));
                    self.head = Some(i);
                    proof {
                        let d0 = old(self).data@;
                        let d1 = self.data@;
                        let fs = free_from(d0, h as int);
                        assert(!fs.contains(i as int)) by {
                            if fs.contains(i as int) {
                                let k = choose|k: int| 0 <= k < fs.len() && fs[k] == i as int;
                                assert(fs[k] >= h);
                            }
                        }
                        lemma_free_frame_update(d0, i as int, Block::Empty(Some(h)), h as int);
                        assert(free_from(d1, h as int) == fs);
                        assert(wf_free(d1, i as int));
                        assert(free_from(d1, i as int) == seq![i as int] + fs);
                        assert(insert_sorted(fs, i as int) == seq![i as int] + fs);
                        assert forall|j: int|
                            0 <= j < d1.len() && d1[j] is Empty implies free_from(
                            d1,
                            i as int,
                        ).contains(j) by {
                            lemma_cons_contains(i as int, fs, j);
                            if j != i as int {
                                assert(d0[j] is Empty);
                            }
                        }
                    }
                } else {
                    proof {
                        assert(h != i);
                    }
                    release_from(&mut self.data, h, i);
                    proof {
                        let d0 = old(self).data@;
                        let d1 = self.data@;
                        let fs = free_from(d0, h as int);
                        assert forall|k: int| 0 <= k < fs.len() implies #[trigger] fs[k]
                            != i as int by {
                            assert(d0[fs[k]] is Empty);
                        }
                        lemma_insert_sorted_props(fs, i as int);
                        assert forall|j: int|
                            0 <= j < d1.len() && d1[j] is Empty implies free_from(
                            d1,
                            h as int,
                        ).contains(j) by {
                            if j != i as int {
                                assert(d0[j] is Empty);
                                assert(fs.contains(j));
                            }
                        }
                    }
                }
            },
        }
    }

    /// Reads the value stored in a wrapper's slot.
    pub fn get(&self, w: &Wrapper) -> (r: &T)
        requires
            w.index < self.cap(),
            self.data@[w.index as int] is Full,
        ensures
            self.data@[w.index as int] == Block::Full(*r),
    {
        match &self.data[w.index] {
            Block::Full(v) => v,
            Block::Empty(_) => vstd::pervasive::unreached(),
        }
    }

    /// Overwrites the value stored in a wrapper's slot; the free chain
    /// and every other slot stay as they were.
    pub fn put(&mut self, w: &Wrapper, v: T)
        requires
            old(self).wf(),
            w.index < old(self).cap(),
            old(self).data@[w.index as int] is Full,
        ensures
            final(self).wf(),
            final(self).cap() == old(self).cap(),
            final(self).head == old(self).head,
            final(self).data@ == old(self).data@.update(w.index as int, Block::Full(v)),
            final(self).free_seq() == old(self).free_seq(),
    {
        self.data.set(w.index, Block::Full(v));
        proof {
            if let Some(h) = self.head {
                let d0 = old(self).data@;
                let fs = free_from(d0, h as int);
                lemma_free_from_props(d0, h as int);
                assert forall|k: int| 0 <= k < fs.len() implies #[trigger] fs[k]
                    != w.index as int by {
                    assert(d0[fs[k]] is Empty);
                }
                assert(!fs.contains(w.index as int)) by {
                    if fs.contains(w.index as int) {
                        let k = choose|k: int| 0 <= k < fs.len() && fs[k] == w.index as int;
                    }
                }
                lemma_free_frame_update(d0, w.index as int, Block::Full(v), h as int);
            }
        }
    }
}

/// A snapshot walk over the occupied slots: `used` is the next slot to
/// look at, `free` the next known free slot at or past it.
#[derive(Debug, PartialEq, Eq)]
pub struct WrapperIterator {
    pub free: Option<usize>,
    pub used: usize,
}

/// The iterator agrees with the slab: every slot before the next known
/// free one is occupied, the chain from there is well formed, and every
/// free slot not yet passed is still on it.
pub open spec fn iter_wf<T>(it: WrapperIterator, a: Allocator<T>) -> bool {
    &&& it.used <= a.cap()
    &&& match it.free {
        None => forall|j: int| it.used <= j < a.cap() ==> !(a.data@[j] is Empty),
        Some(f) => {
            &&& it.used <= f < a.cap()
            &&& wf_free(a.data@, f as int)
            &&& forall|j: int|
                it.used <= j < a.cap() && a.data@[j] is Empty ==> free_from(
                    a.data@,
                    f as int,
                ).contains(j)
        },
    }
}

impl<T> Allocator<T> {
    /// Starts a walk over the occupied slots, snapshotting the free
    /// chain's head. The walk emits a wrapper for every occupied slot in
    /// ascending index order; the wrappers alias slots that outstanding
    /// handles may still own, so releasing them is the caller's
    /// responsibility to get right.
    pub fn iter(&self) -> (r: WrapperIterator)
        requires
            self.wf(),
        ensures
            r.free == self.head,
            r.used == 0,
            iter_wf(r, *self),
    {
        WrapperIterator { free: self.head, used: 0 }
    }

    /// The free chain as executable data: the free slot indices in
    /// ascending chain order.
    pub fn free_list(&self) -> (r: Vec<usize>)
        requires
            self.wf(),
        ensures
            r@.len() == self.free_seq().len(),
            forall|k: int| 0 <= k < r@.len() ==> #[trigger] r@[k] as int == self.free_seq()[k],
    {
        match self.head {
            None => Vec::new(),
            Some(h) => slab_free_list_from(&self.data, h),
        }
    }
}

/// Reads the free chain out as a vector of indices.
fn slab_free_list_from<T>(data: &Vec<Block<T>>, cur: usize) -> (r: Vec<usize>)
    requires
        wf_free(data@, cur as int),
    ensures
        r@.len() == free_from(data@, cur as int).len(),
        forall|k: int|
            0 <= k < r@.len() ==> #[trigger] r@[k] as int == free_from(data@, cur as int)[k],
    decreases data@.len() - cur,
{
    proof {
        lemma_free_from_props(data@, cur as int);
    }
    let nx = match &data[cur] {
        Block::Empty(n) => *n,
        Block::Full(_) => {
            proof {
                assert(false);
            }
            None
        },
    };
    match nx {
        None => {
            let mut v: Vec<usize> = Vec::new();
            v.push(cur);
            v
        },
        Some(n) => {
            let mut v = slab_free_list_from(data, n);
            let ghost tail = v@;
            let ghost sub = free_from(data@, n as int);
            v.insert(0, cur);
            proof {
                let fs = free_from(data@, cur as int);
                assert(fs == seq![cur as int] + sub);
                assert(v@ =~= seq![cur] + tail);
                assert forall|k: int| 0 <= k < v@.len() implies #[trigger] v@[k] as int
                    == fs[k] by {
                    if k > 0 {
                        assert(v@[k] == tail[k - 1]);
                        assert(fs[k] == sub[k - 1]);
                    }
                }
            }
            v
        },
    }
}

impl WrapperIterator {
    /// The next known free slot at or past the cursor.
    pub fn free(&self) -> (r: &Option<usize>)
        ensures
            r == self.free,
    {
        &self.free
    }

    /// The cursor: the next slot index to look at.
    pub fn used(&self) -> (r: &usize)
        ensures
            r == self.used,
    {
        &self.used
    }

    /// Emits a wrapper for the lowest occupied slot at or past the
    /// cursor, or `None` when no occupied slot is left.
    pub fn next<T>(&mut self, a: &Allocator<T>) -> (r: Option<Wrapper>)
        requires
            iter_wf(*old(self), *a),
        ensures
            iter_wf(*final(self), *a),
            match first_full(a.data@, old(self).used as int) {
                None => r is None,
                Some(j) => r is Some && r.unwrap().index as int == j && final(self).used as int == j
                    + 1,
            },
    {
        loop
            invariant
                iter_wf(*self, *a),
                first_full(a.data@, self.used as int) == first_full(
                    a.data@,
                    old(self).used as int,
                ),
            decreases a.data@.len() - self.used,
        {
            let cap = a.data.len();
            let f = match self.free {
                Some(f) => f,
                None => cap,
            };
            if self.used < f {
                let t = self.used;
                self.used = t + 1;
                proof {
                    if let Some(fv) = self.free {
                        if a.data@[t as int] is Empty {
                            let fs = free_from(a.data@, fv as int);
                            lemma_free_from_props(a.data@, fv as int);
                            assert(fs.contains(t as int));
                            let k = choose|k: int| 0 <= k < fs.len() && fs[k] == t as int;
                            assert(fs[k] >= fv);
                        }
                    }
                    assert(a.data@[t as int] is Full);
                }
                return Some(Wrapper { index: t });
            }
            if self.used == cap {
                return None;
            }
            let nf = match &a.data[f] {
                Block::Empty(n) => *n,
                Block::Full(_) => {
                    proof {
                        assert(false);
                    }
                    None
                },
            };
            proof {
                let d = a.data@;
                let fs = free_from(d, f as int);
                lemma_free_from_props(d, f as int);
                if let Some(n) = nf {
                    let sub = free_from(d, n as int);
                    assert(fs == seq![f as int] + sub);
                    lemma_free_from_props(d, n as int);
                    assert forall|j: int|
                        f as int + 1 <= j < d.len() && d[j] is Empty implies sub.contains(j) by {
                        lemma_free_from_membership(d, f as int, j);
                    }
                } else {
                    assert(fs == seq![f as int]);
                    assert forall|j: int| f as int + 1 <= j < d.len() implies !(d[j] is Empty) by {
                        if d[j] is Empty {
                            lemma_free_from_membership(d, f as int, j);
                            let k = choose|k: int| 0 <= k < fs.len() && fs[k] == j;
                            assert(k == 0);
                        }
                    }
                }
            }
            self.free = nf;
            self.used = f + 1;
        }
    }
}

/// A fixed-capacity slab for local use: the allocator with its slot
/// array, constructed over `N` slots.
#[derive(Debug)]
pub struct ArrayAllocator<const N: usize, T> {
    pub allocator: Allocator<T>,
}

impl<const N: usize, T> ArrayAllocator<N, T> {
    /// A fresh slab over `N` slots.
    pub fn new() -> (r: ArrayAllocator<N, T>)
        ensures
            r.allocator.wf(),
            r.allocator.cap() == N,
            N == 0 ==> r.allocator.head is None,
            N > 0 ==> r.allocator.head == Some(0usize),
            r.allocator.free_seq() == Seq::new(N as nat, |k: int| k),
    {
        ArrayAllocator { allocator: Allocator::new(N) }
    }

    /// The allocator itself.
    pub fn allocator(&self) -> (r: &Allocator<T>)
        ensures
            r == self.allocator,
    {
        &self.allocator
    }

    /// Mutable access to the allocator.
    pub fn allocator_mut(&mut self) -> (r: &mut Allocator<T>)
        ensures
            *r == old(self).allocator,
            final(self).allocator == *final(r),
    {
        &mut self.allocator
    }

    /// The slot array.
    pub fn data(&self) -> (r: &Vec<Block<T>>)
        ensures
            r == self.allocator.data,
    {
        &self.allocator.data
    }
}

/// Law: a slot is on the free chain exactly when it is free, so the
/// chain's slots and the occupied slots are disjoint and together cover
/// the whole slot range.
pub proof fn lemma_slab_partition<T>(a: Allocator<T>)
    requires
        a.wf(),
    ensures
        forall|j: int| 0 <= j < a.cap() ==> (a.free_seq().contains(j) <==> a.data@[j] is Empty),
        forall|j: int| 0 <= j < a.cap() ==> (a.free_seq().contains(j) <==> !(a.data@[j] is Full)),
{
    match a.head {
        None => {},
        Some(h) => {
            lemma_free_from_props(a.data@, h as int);
            assert forall|j: int| 0 <= j < a.cap() && a.free_seq().contains(j) implies a.data@[j]
                is Empty by {
                let fs = free_from(a.data@, h as int);
                let k = choose|k: int| 0 <= k < fs.len() && fs[k] == j;
                assert(a.data@[fs[k]] is Empty);
            }
        },
    }
}

/// Law: the free chain's indices, as walked from `head`, strictly
/// ascend, and the head names the first of them.
pub proof fn lemma_slab_chain_ascending<T>(a: Allocator<T>)
    requires
        a.wf(),
    ensures
        forall|k: int|
            0 <= k < a.free_seq().len() - 1 ==> #[trigger] a.free_seq()[k] < a.free_seq()[k + 1],
        match a.head {
            None => a.free_seq().len() == 0,
            Some(h) => a.free_seq().len() > 0 && a.free_seq()[0] == h as int,
        },
{
    match a.head {
        None => {},
        Some(h) => {
            lemma_free_from_props(a.data@, h as int);
        },
    }
}

} // verus!
