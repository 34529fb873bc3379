//! The linked-list (variable-size) allocator: first-fit allocation over a
//! singly-linked, address-ordered list of free runs threaded through the
//! cell array itself, with coalescing on release.

use crate::runs::{
    first_fit, free_cells, insert_run, lemma_first_fit_none, lemma_first_fit_props,
    lemma_free_cells_bounds, lemma_free_cells_cons, lemma_insert_run_props, lemma_run_in_free,
    lemma_wf_cons, run_cells, wf_runs,
};
use vstd::prelude::*;

verus! {

/// One cell of the allocator's array. A cell that heads a free run holds
/// the run's length in `size` and the index of the next free run in
/// `next`; cells inside a live allocation carry no meaning for the engine.
#[derive(Clone, Copy, Debug, PartialEq, Eq)]
pub struct Block {
    pub size: usize,
    pub next: Option<usize>,
}

/// The free list read from the cells, starting at the run headed by `cur`:
/// each run contributes its index and size, following `next` links. An
/// out-of-bounds or non-ascending link ends the walk, so the sequence is
/// defined for any cell contents; under `wf_from` no such cut happens.
pub open spec fn runs_from(data: Seq<Block>, cur: int) -> Seq<(int, int)>
    decreases data.len() - cur,
{
    if 0 <= cur < data.len() {
        match data[cur].next {
            None => seq![(cur, data[cur].size as int)],
            Some(nx) => {
                if cur < nx && nx < data.len() {
                    seq![(cur, data[cur].size as int)] + runs_from(data, nx as int)
                } else {
                    seq![(cur, data[cur].size as int)]
                }
            },
        }
    } else {
        Seq::empty()
    }
}

/// A well-formed free chain headed at `cur`: every run head is in bounds
/// with a positive size, the run fits before the next link, and links
/// strictly ascend. The strict gap `cur + size < next` is the engine's
/// no-adjacent-free-runs invariant.
pub open spec fn wf_from(data: Seq<Block>, cur: int) -> bool
    decreases data.len() - cur,
{
    &&& 0 <= cur < data.len()
    &&& 1 <= data[cur].size
    &&& match data[cur].next {
        None => cur + data[cur].size <= data.len(),
        Some(nx) => {
            &&& nx < data.len()
            &&& cur + data[cur].size < nx
            &&& wf_from(data, nx as int)
        },
    }
}

/// A well-formed chain reads back as a well-formed run sequence whose
/// first run starts at the chain head.
proof fn lemma_runs_from_props(data: Seq<Block>, cur: int)
    requires
        wf_from(data, cur),
    ensures
        ({
            let rs = runs_from(data, cur);
            &&& rs.len() >= 1
            &&& rs[0] == (cur, data[cur].size as int)
            &&& wf_runs(rs, data.len() as int)
            &&& forall|k: int| 0 <= k < rs.len() ==> (#[trigger] rs[k]).0 >= cur
        }),
    decreases data.len() - cur,
{
    let rs = runs_from(data, cur);
    match data[cur].next {
        None => {},
        Some(nx) => {
            lemma_runs_from_props(data, nx as int);
            let sub = runs_from(data, nx as int);
            assert(rs == seq![(cur, data[cur].size as int)] + sub);
            lemma_wf_cons((cur, data[cur].size as int), sub, data.len() as int);
            assert forall|k: int| 0 <= k < rs.len() implies (#[trigger] rs[k]).0 >= cur by {
                if k > 0 {
                    assert(rs[k] == sub[k - 1]);
                }
            }
        },
    }
}

/// Cells outside the chain's runs do not affect how the chain reads back:
/// two arrays that agree on every run-head cell yield the same free list.
proof fn lemma_chain_frame(data: Seq<Block>, data2: Seq<Block>, cur: int)
    requires
        wf_from(data, cur),
        data2.len() == data.len(),
        forall|k: int|
            0 <= k < runs_from(data, cur).len() ==> data2[(#[trigger] runs_from(data, cur)[k]).0]
                == data[runs_from(data, cur)[k].0],
    ensures
        wf_from(data2, cur),
        runs_from(data2, cur) == runs_from(data, cur),
    decreases data.len() - cur,
{
    let rs = runs_from(data, cur);
    lemma_runs_from_props(data, cur);
    assert(data2[cur] == data[cur]);
    match data[cur].next {
        None => {
            assert(runs_from(data2, cur) =~= runs_from(data, cur));
        },
        Some(nx) => {
            let sub = runs_from(data, nx as int);
            assert(rs == seq![(cur, data[cur].size as int)] + sub);
            assert forall|k: int| 0 <= k < sub.len() implies data2[(#[trigger] sub[k]).0]
                == data[sub[k].0] by {
                assert(rs[k + 1] == sub[k]);
            }
            lemma_chain_frame(data, data2, nx as int);
            assert(runs_from(data2, cur) =~= runs_from(data, cur));
        },
    }
}

/// Updating a cell that heads no run of the chain leaves the chain as it
/// was.
proof fn lemma_chain_frame_update(data: Seq<Block>, j: int, b: Block, cur: int)
    requires
        wf_from(data, cur),
        0 <= j < data.len(),
        forall|k: int|
            0 <= k < runs_from(data, cur).len() ==> (#[trigger] runs_from(data, cur)[k]).0 != j,
    ensures
        wf_from(data.update(j, b), cur),
        runs_from(data.update(j, b), cur) == runs_from(data, cur),
{
    let rs = runs_from(data, cur);
    lemma_runs_from_props(data, cur);
    assert forall|k: int| 0 <= k < rs.len() implies data.update(j, b)[(#[trigger] rs[k]).0]
        == data[rs[k].0] by {
        assert(rs[k].0 != j);
        assert(0 <= rs[k].0 < data.len());
    }
    lemma_chain_frame(data, data.update(j, b), cur);
}

/// The owning token for an allocated run of cells: its starting index and
/// its length in cells. A zero-size wrapper is the placeholder returned
/// for empty requests; releasing it is a no-op.
#[derive(Debug, PartialEq, Eq)]
pub struct Wrapper {
    pub index: usize,
    pub size: usize,
}

impl Wrapper {
    /// The index of the first cell of the owned run.
    pub fn index(&self) -> (r: usize)
        ensures
            r == self.index,
    {
        self.index
    }

    /// The length of the owned run in cells.
    pub fn size(&self) -> (r: usize)
        ensures
            r == self.size,
    {
        self.size
    }

    /// The set of cell indices this wrapper owns.
    pub open spec fn cells(self) -> Set<int> {
        run_cells((self.index as int, self.size as int))
    }

    /// A wrapper that may be released into an allocator of `cap` cells:
    /// its run lies within the array and overlaps no free cell.
    pub open spec fn releasable(self, a: Allocator) -> bool {
        self.size > 0 ==> {
            &&& self.index + self.size <= a.cap()
            &&& self.cells().disjoint(a.free_set())
        }
    }
}

/// The allocator's header: the free-list head and the total cell count.
/// In the shared-region layout this record sits just before the cells.
#[derive(Clone, Copy, Debug, PartialEq, Eq)]
pub struct InnerAllocator {
    pub head: Option<usize>,
    pub size: usize,
}

/// The linked-list allocator: the free-list head and the cell array. The
/// head names the first free run; each free run's head cell holds the
/// run's size and the next run's index.
#[derive(Debug)]
pub struct Allocator {
    pub head: Option<usize>,
    pub data: Vec<Block>,
}

impl Allocator {
    /// Total number of cells.
    pub open spec fn cap(self) -> int {
        self.data@.len() as int
    }

    /// The free list as a sequence of `(index, size)` runs.
    pub open spec fn runs(self) -> Seq<(int, int)> {
        match self.head {
            None => Seq::empty(),
            Some(h) => runs_from(self.data@, h as int),
        }
    }

    /// The set of free cell indices.
    pub open spec fn free_set(self) -> Set<int> {
        free_cells(self.runs())
    }

    /// Well-formedness: an absent head means no free cells; otherwise the
    /// chain from the head is well formed.
    pub open spec fn wf(self) -> bool {
        match self.head {
            None => true,
            Some(h) => wf_from(self.data@, h as int),
        }
    }

    /// What a successful allocation of `blocks` cells does: an empty
    /// request returns the zero placeholder and changes nothing; otherwise
    /// the wrapper takes the first-fit run's index, the free list becomes
    /// `first_fit`'s remainder, and no cell outside the old free runs is
    /// written.
    pub open spec fn alloc_transition(pre: Allocator, post: Allocator, w: Wrapper, blocks: int) -> bool {
        if blocks == 0 {
            &&& w.index == 0
            &&& w.size == 0
            &&& post.head == pre.head
            &&& post.data@ == pre.data@
        } else {
            &&& first_fit(pre.runs(), blocks) is Some
            &&& w.index as int == first_fit(pre.runs(), blocks).unwrap().0
            &&& w.size as int == blocks
            &&& post.runs() == first_fit(pre.runs(), blocks).unwrap().1
            &&& forall|j: int|
                0 <= j < pre.data@.len() && !pre.free_set().contains(j) ==> post.data@[j]
                    == pre.data@[j]
        }
    }

    /// What releasing a wrapper does: a zero-size wrapper changes
    /// nothing; otherwise its run joins the free list by coalescing
    /// insertion, and no cell outside the old free runs and the released
    /// run is written.
    pub open spec fn release_transition(pre: Allocator, post: Allocator, w: Wrapper) -> bool {
        if w.size == 0 {
            &&& post.head == pre.head
            &&& post.data@ == pre.data@
        } else {
            &&& post.runs() == insert_run(pre.runs(), w.index as int, w.size as int)
            &&& forall|j: int|
                0 <= j < pre.data@.len() && !pre.free_set().contains(j) && !w.cells().contains(j)
                    ==> post.data@[j] == pre.data@[j]
        }
    }

    /// A fresh allocator over `capacity` zeroed cells: one free run covers
    /// everything, or the free list is empty when the capacity is zero.
    pub fn new(capacity: usize) -> (r: Allocator)
        ensures
            r.wf(),
            r.cap() == capacity,
            capacity == 0 ==> r.head is None,
            capacity > 0 ==> r.head == Some(0usize),
            r.runs() == if capacity == 0 {
                Seq::<(int, int)>::empty()
            } else {
                seq![(0int, capacity as int)]
            },
    {
        let mut data: Vec<Block> = Vec::new();
        let mut i: usize = 0;
        while i < capacity
            invariant
                i <= capacity,
                data@.len() == i,
                forall|j: int|
                    0 <= j < i ==> data@[j] == (Block { size: 0, next: None }),
            decreases capacity - i,
        {
            data.push(Block { size: 0, next: None });
            i += 1;
        }
        if capacity > 0 {
            data.set(0, Block { size: capacity, next: None });
            let r = Allocator { head: Some(0), data };
            proof {
                assert(r.runs() =~= seq![(0int, capacity as int)]);
            }
            r
        } else {
            Allocator { head: None, data }
        }
    }

    /// The free-list head: the index of the lowest free run, or `None`
    /// when no cell is free.
    pub fn head(&self) -> (r: Option<usize>)
        ensures
            r == self.head,
    {
        self.head
    }

    /// Total number of cells.
    pub fn capacity(&self) -> (r: usize)
        ensures
            r == self.cap(),
    {
        self.data.len()
    }

    /// A copy of the header: the free-list head and the capacity.
    pub fn inner(&self) -> (r: InnerAllocator)
        ensures
            r.head == self.head,
            r.size == self.cap(),
    {
        InnerAllocator { head: self.head, size: self.data.len() }
    }

    /// The placeholder handle for an empty request; it owns no cells and
    /// releasing it changes nothing.
    pub fn allocate_zero(&self) -> (r: Wrapper)
        ensures
            r.index == 0 && r.size == 0,
    {
        Wrapper { index: 0, size: 0 }
    }

    /// First-fit allocation of a positive number of cells. Succeeds
    /// exactly when some free run is large enough; the chosen run is the
    /// lowest-address sufficient one, split when larger than the request.
    /// On failure the allocator is untouched; on success the free list
    /// becomes `first_fit`'s remainder and no cell outside the old free
    /// runs is written.
    pub fn allocate_nonzero(&mut self, blocks: usize) -> (r: Option<Wrapper>)
        requires
            old(self).wf(),
            blocks >= 1,
        ensures
            final(self).wf(),
            final(self).cap() == old(self).cap(),
            (r is Some) == (first_fit(old(self).runs(), blocks as int) is Some),
            (r is Some) == (exists|k: int|
                0 <= k < old(self).runs().len() && (#[trigger] old(self).runs()[k]).1
                    >= blocks as int),
            r is None ==> final(self).head == old(self).head && final(self).data@ == old(
                self,
            ).data@,
            r is Some ==> Allocator::alloc_transition(
                *old(self),
                *final(self),
                r.unwrap(),
                blocks as int,
            ) && r.unwrap().releasable(*final(self)),
    {
        proof {
            lemma_free_list_invariant(*self);
            lemma_first_fit_none(self.runs(), blocks as int);
            if first_fit(self.runs(), blocks as int) is Some {
                lemma_first_fit_props(self.runs(), blocks as int, self.cap());
            }
        }
        match self.head {
            None => None,
            Some(h) => {
                let res = alloc_from(&mut self.data, h, blocks);
                match res {
                    None => None,
                    Some((i, nh)) => {
                        self.head = nh;
                        proof {
                            let rs = first_fit(
                                runs_from(old(self).data@, h as int),
                                blocks as int,
                            ).unwrap().1;
                            if nh is None {
                                assert(self.runs() =~= rs);
                            }
                        }
                        Some(Wrapper { index: i, size: blocks })
                    },
                }
            },
        }
    }

    /// Allocation of any number of cells: an empty request yields the
    /// zero-size placeholder without touching the free list; otherwise
    /// this is `allocate_nonzero`.
    pub fn allocate(&mut self, blocks: usize) -> (r: Option<Wrapper>)
        requires
            old(self).wf(),
        ensures
            final(self).wf(),
            final(self).cap() == old(self).cap(),
            (r is Some) == (blocks == 0 || first_fit(old(self).runs(), blocks as int) is Some),
            blocks > 0 ==> (r is Some) == (exists|k: int|
                0 <= k < old(self).runs().len() && (#[trigger] old(self).runs()[k]).1
                    >= blocks as int),
            r is None ==> final(self).head == old(self).head && final(self).data@ == old(
                self,
            ).data@,
            r is Some ==> Allocator::alloc_transition(
                *old(self),
                *final(self),
                r.unwrap(),
                blocks as int,
            ) && r.unwrap().releasable(*final(self)),
    {
        if blocks == 0 {
            Some(self.allocate_zero())
        } else {
            self.allocate_nonzero(blocks)
        }
    }
}

/// Walks the chain headed at `cur` looking for the first run of at least
/// `blocks` cells, exactly as `first_fit` describes: an exact fit is
/// unlinked, a larger run is split by installing its remainder at
/// `cur + blocks`, and the caller receives the allocated index together
/// with the new head of the walked chain.
fn alloc_from(data: &mut Vec<Block>, cur: usize, blocks: usize) -> (r: Option<(usize, Option<
    usize,
>)>)
    requires
        wf_from(old(data)@, cur as int),
        blocks >= 1,
    ensures
        final(data)@.len() == old(data)@.len(),
        (r is Some) == (first_fit(runs_from(old(data)@, cur as int), blocks as int) is Some),
        r is None ==> final(data)@ == old(data)@,
        r is Some ==> ({
            let (i, rs) = first_fit(runs_from(old(data)@, cur as int), blocks as int).unwrap();
            &&& r.unwrap().0 == i
            &&& match r.unwrap().1 {
                None => rs.len() == 0,
                Some(nh) => {
                    &&& rs.len() > 0
                    &&& rs[0].0 == nh
                    &&& wf_from(final(data)@, nh as int)
                    &&& runs_from(final(data)@, nh as int) == rs
                },
            }
            &&& forall|j: int|
                0 <= j < old(data)@.len() && !free_cells(
                    runs_from(old(data)@, cur as int),
                ).contains(j) ==> final(data)@[j] == old(data)@[j]
        }),
    decreases old(data)@.len() - cur,
{
    proof {
        lemma_runs_from_props(old(data)@, cur as int);
    }
    let ghost all = runs_from(old(data)@, cur as int);
    let b = data[cur];
    if blocks == b.size {
        proof {
            if let Some(nx) = b.next {
                assert(all == seq![(cur as int, b.size as int)] + runs_from(
                    old(data)@,
                    nx as int,
                ));
                assert(all.drop_first() =~= runs_from(old(data)@, nx as int));
                lemma_runs_from_props(old(data)@, nx as int);
            } else {
                assert(all.drop_first() =~= Seq::<(int, int)>::empty());
            }
        }
        Some((cur, b.next))
    } else if blocks < b.size {
        let n = data.len();
        proof {
            assert(cur + b.size <= n);
        }
        let new_index = cur + blocks;
        let rem = Block { size: b.size - blocks, next: b.next };
        data.set(new_index, rem);
        proof {
            let d0 = old(data)@;
            let d1 = data@;
            let rs = first_fit(all, blocks as int).unwrap().1;
            if let Some(nx) = b.next {
                let sub = runs_from(d0, nx as int);
                lemma_runs_from_props(d0, nx as int);
                assert(all == seq![(cur as int, b.size as int)] + sub);
                assert(all.drop_first() =~= sub);
                // The remainder cell lies inside the old head run, before
                // every node of the rest of the chain.
                assert forall|k: int| 0 <= k < sub.len() implies (#[trigger] sub[k]).0
                    != new_index as int by {
                    assert(sub[k].0 >= nx);
                }
                lemma_chain_frame_update(d0, new_index as int, rem, nx as int);
                assert(runs_from(d1, nx as int) == sub);
                assert(runs_from(d1, new_index as int) == seq![
                    (new_index as int, rem.size as int),
                ] + sub);
                assert(runs_from(d1, new_index as int) =~= rs);
            } else {
                assert(all.drop_first() =~= Seq::<(int, int)>::empty());
                assert(runs_from(d1, new_index as int) =~= rs);
            }
            // The only changed cell is free: it lies in the old head run.
            lemma_run_in_free(all, 0);
            assert(run_cells(all[0]).contains(new_index as int));
        }
        Some((cur, Some(new_index)))
    } else {
        match b.next {
            None => {
                proof {
                    assert(all.drop_first().len() == 0);
                    assert(first_fit(all.drop_first(), blocks as int) is None);
                    assert(first_fit(all, blocks as int) is None);
                }
                None
            },
            Some(nx) => {
                proof {
                    lemma_runs_from_props(old(data)@, nx as int);
                    assert(all == seq![(cur as int, b.size as int)] + runs_from(
                        old(data)@,
                        nx as int,
                    ));
                    assert(all.drop_first() =~= runs_from(old(data)@, nx as int));
                }
                let ghost sub = runs_from(old(data)@, nx as int);
                let res = alloc_from(data, nx, blocks);
                match res {
                    None => None,
                    Some((i, nh)) => {
                        proof {
                            lemma_first_fit_props(sub, blocks as int, old(data)@.len() as int);
                            lemma_free_cells_bounds(sub, old(data)@.len() as int);
                            // The head cell of this chain was untouched by
                            // the recursive call: it is not free there.
                            assert(!free_cells(sub).contains(cur as int));
                            assert(data@[cur as int] == old(data)@[cur as int]);
                        }
                        let cb = data[cur];
                        let ghost dm = data@;
                        let nb = Block { size: cb.size, next: nh };
                        data.set(cur, nb);
                        proof {
                            let d0 = old(data)@;
                            let d1 = data@;
                            let rs_sub = first_fit(sub, blocks as int).unwrap().1;
                            let rs = first_fit(all, blocks as int).unwrap().1;
                            assert(rs == seq![(cur as int, b.size as int)] + rs_sub);
                            assert(d1 == dm.update(cur as int, nb));
                            if let Some(nhv) = nh {
                                // Relinking this head cell does not disturb
                                // the remainder chain: its run heads all
                                // lie past `cur`.
                                assert(rs_sub[0].0 == nhv as int);
                                assert(rs_sub[0].0 >= sub[0].0);
                                lemma_free_cells_bounds(rs_sub, d0.len() as int);
                                assert forall|k: int| 0 <= k < rs_sub.len() implies (
                                #[trigger] rs_sub[k]).0 != cur as int by {
                                    lemma_run_in_free(rs_sub, k);
                                    assert(run_cells(rs_sub[k]).contains(rs_sub[k].0));
                                }
                                lemma_chain_frame_update(dm, cur as int, nb, nhv as int);
                                assert(runs_from(d1, nhv as int) == rs_sub);
                                assert(runs_from(d1, cur as int) =~= rs);
                            } else {
                                assert(rs_sub.len() == 0);
                                assert(runs_from(d1, cur as int) =~= rs);
                            }
                            // Frame: the head run's cells include `cur`,
                            // and everything else the call touched was
                            // free in the rest of the chain.
                            lemma_free_cells_cons((cur as int, b.size as int), sub);
                            assert(free_cells(all) == run_cells((cur as int, b.size as int)).union(
                                free_cells(sub),
                            ));
                            assert forall|j: int|
                                0 <= j < d0.len() && !free_cells(all).contains(j) implies d1[j]
                                == d0[j] by {
                                assert(run_cells((cur as int, b.size as int)).contains(
                                    cur as int,
                                ));
                                assert(j != cur as int);
                                assert(dm[j] == d0[j]);
                            }
                        }
                        Some((i, Some(cur)))
                    },
                }
            },
        }
    }
}

/// Inserts the released run `[idx, idx + len)` into the chain headed at
/// `cur`, merging with its address-adjacent neighbours, exactly as
/// `insert_run` describes. Returns the new head of the chain, which is
/// the lower of `idx` and `cur`.
#[verifier::rlimit(100)]
#[verifier::spinoff_prover]
fn release_from(data: &mut Vec<Block>, cur: usize, idx: usize, len: usize) -> (nh: usize)
    requires
        wf_from(old(data)@, cur as int),
        len >= 1,
        idx + len <= old(data)@.len(),
        run_cells((idx as int, len as int)).disjoint(
            free_cells(runs_from(old(data)@, cur as int)),
        ),
    ensures
        final(data)@.len() == old(data)@.len(),
        wf_from(final(data)@, nh as int),
        runs_from(final(data)@, nh as int) == insert_run(
            runs_from(old(data)@, cur as int),
            idx as int,
            len as int,
        ),
        nh == if idx < cur {
            idx
        } else {
            cur
        },
        forall|j: int|
            0 <= j < old(data)@.len() && !free_cells(runs_from(old(data)@, cur as int)).contains(j)
                && !run_cells((idx as int, len as int)).contains(j) ==> final(data)@[j] == old(
                data,
            )@[j],
    decreases old(data)@.len() - cur,
{
    proof {
        lemma_runs_from_props(old(data)@, cur as int);
    }
    let ghost all = runs_from(old(data)@, cur as int);
    let n = data.len();
    let b = data[cur];
    let e = idx + len;
    if e == cur {
        // The released run ends exactly at this chain's head run: merge
        // forward into one run headed at `idx`.
        proof {
            assert(idx + len + b.size <= n);
            if let Some(nx) = b.next {
                lemma_runs_from_props(old(data)@, nx as int);
                assert(all == seq![(cur as int, b.size as int)] + runs_from(
                    old(data)@,
                    nx as int,
                ));
                assert(all.drop_first() =~= runs_from(old(data)@, nx as int));
            }
        }
        let nb = Block { size: len + b.size, next: b.next };
        data.set(idx, nb);
        proof {
            let d0 = old(data)@;
            let d1 = data@;
            let out = insert_run(all, idx as int, len as int);
            assert(out == all.update(0, (idx as int, len as int + b.size as int)));
            if let Some(nx) = b.next {
                let sub = runs_from(d0, nx as int);
                assert forall|k: int| 0 <= k < sub.len() implies (#[trigger] sub[k]).0
                    != idx as int by {
                    assert(sub[k].0 >= nx);
                }
                lemma_chain_frame_update(d0, idx as int, nb, nx as int);
                assert(runs_from(d1, idx as int) == seq![(idx as int, nb.size as int)] + sub);
                assert(runs_from(d1, idx as int) =~= out);
            } else {
                assert(runs_from(d1, idx as int) =~= out);
            }
            lemma_run_in_free(all, 0);
            assert(run_cells(all[0]).contains(cur as int));
            assert(wf_from(d1, idx as int));
        }
        idx
    } else if e < cur {
        // The released run lies wholly below this chain with a gap:
        // prepend it.
        let nb = Block { size: len, next: Some(cur) };
        data.set(idx, nb);
        proof {
            let d0 = old(data)@;
            let d1 = data@;
            let out = insert_run(all, idx as int, len as int);
            assert(out == seq![(idx as int, len as int)] + all);
            assert forall|k: int| 0 <= k < all.len() implies (#[trigger] all[k]).0 != idx as int by {
                assert(all[k].0 >= cur);
            }
            lemma_chain_frame_update(d0, idx as int, nb, cur as int);
            assert(runs_from(d1, idx as int) =~= out);
            assert(wf_from(d1, idx as int));
        }
        idx
    } else {
        // The released run lies past this run's start; by disjointness it
        // lies at or past its end.
        proof {
            lemma_run_in_free(all, 0);
            assert(cur + b.size <= idx) by {
                if idx < cur + b.size {
                    let w = if idx >= cur {
                        idx as int
                    } else {
                        cur as int
                    };
                    assert(run_cells((idx as int, len as int)).contains(w));
                    assert(run_cells(all[0]).contains(w));
                    assert(free_cells(all).contains(w));
                }
            }
            if let Some(nx) = b.next {
                lemma_runs_from_props(old(data)@, nx as int);
                assert(all == seq![(cur as int, b.size as int)] + runs_from(
                    old(data)@,
                    nx as int,
                ));
                assert(all.drop_first() =~= runs_from(old(data)@, nx as int));
            } else {
                assert(all.drop_first() =~= Seq::<(int, int)>::empty());
            }
        }
        if cur + b.size == idx {
            // The released run starts exactly at this run's end: grow this
            // run, and when the next run now touches it, swallow that too.
            match b.next {
                None => {
                    let nb = Block { size: b.size + len, next: None };
                    data.set(cur, nb);
                    proof {
                        let d1 = data@;
                        let out = insert_run(all, idx as int, len as int);
                        assert(out == insert_run(
                            Seq::<(int, int)>::empty(),
                            cur as int,
                            b.size as int + len as int,
                        ));
                        assert(runs_from(d1, cur as int) =~= out);
                        assert(run_cells(all[0]).contains(cur as int));
                        assert(wf_from(d1, cur as int));
                    }
                    cur
                },
                Some(nx) => {
                    proof {
                        let sub = runs_from(old(data)@, nx as int);
                        assert(nx >= e) by {
                            if nx < e {
                                lemma_run_in_free(sub, 0);
                                assert(run_cells(sub[0]).contains(nx as int));
                                assert(run_cells((idx as int, len as int)).contains(nx as int));
                            }
                        }
                    }
                    let nxb = data[nx];
                    if nx == e {
                        // Merge on both sides.
                        proof {
                            assert(wf_from(old(data)@, nx as int));
                            assert(nxb == old(data)@[nx as int]);
                            assert(nx + nxb.size <= n);
                            if let Some(nnx) = nxb.next {
                                assert(wf_from(old(data)@, nnx as int));
                                lemma_runs_from_props(old(data)@, nnx as int);
                            }
                        }
                        let nb = Block { size: b.size + len + nxb.size, next: nxb.next };
                        data.set(cur, nb);
                        proof {
                            let d0 = old(data)@;
                            let d1 = data@;
                            let sub = runs_from(d0, nx as int);
                            let out = insert_run(all, idx as int, len as int);
                            assert(out == insert_run(sub, cur as int, b.size as int + len as int));
                            assert(out == sub.update(
                                0,
                                (cur as int, b.size as int + len as int + sub[0].1),
                            ));
                            assert(sub[0].1 == nxb.size as int);
                            if let Some(nnx) = nxb.next {
                                let subsub = runs_from(d0, nnx as int);
                                assert(wf_from(d0, nx as int));
                                assert(d0[nx as int].next == Some(nnx));
                                assert(nx < nnx < d0.len());
                                assert(sub == seq![(nx as int, nxb.size as int)] + subsub);
                                assert(sub.drop_first() =~= subsub);
                                assert forall|k: int| 0 <= k < subsub.len() implies (
                                #[trigger] subsub[k]).0 != cur as int by {
                                    assert(subsub[k].0 >= nnx);
                                }
                                lemma_chain_frame_update(d0, cur as int, nb, nnx as int);
                                assert(runs_from(d1, cur as int) == seq![
                                    (cur as int, nb.size as int),
                                ] + subsub);
                                assert(runs_from(d1, cur as int) =~= out);
                            } else {
                                assert(sub.drop_first() =~= Seq::<(int, int)>::empty());
                                assert(runs_from(d1, cur as int) =~= out);
                            }
                            assert(run_cells(all[0]).contains(cur as int));
                            assert(wf_from(d1, cur as int));
                        }
                        cur
                    } else {
                        // Merge on the left only: the next run stays.
                        let nb = Block { size: b.size + len, next: Some(nx) };
                        data.set(cur, nb);
                        proof {
                            let d0 = old(data)@;
                            let d1 = data@;
                            let sub = runs_from(d0, nx as int);
                            let out = insert_run(all, idx as int, len as int);
                            assert(out == insert_run(sub, cur as int, b.size as int + len as int));
                            assert(out == seq![(cur as int, b.size as int + len as int)] + sub);
                            assert forall|k: int| 0 <= k < sub.len() implies (#[trigger] sub[k]).0
                                != cur as int by {
                                assert(sub[k].0 >= nx);
                            }
                            lemma_chain_frame_update(d0, cur as int, nb, nx as int);
                            assert(runs_from(d1, cur as int) =~= out);
                            assert(run_cells(all[0]).contains(cur as int));
                            assert(wf_from(d1, nx as int));
                            assert(wf_from(d1, cur as int));
                        }
                        cur
                    }
                },
            }
        } else {
            // The released run starts past this run's end with a gap: it
            // belongs further along the chain.
            match b.next {
                None => {
                    // Append it as the last run.
                    let nb = Block { size: len, next: None };
                    data.set(idx, nb);
                    let cb = Block { size: b.size, next: Some(idx) };
                    data.set(cur, cb);
                    proof {
                        let d1 = data@;
                        let out = insert_run(all, idx as int, len as int);
                        assert(out == seq![all[0]] + insert_run(
                            Seq::<(int, int)>::empty(),
                            idx as int,
                            len as int,
                        ));
                        assert(runs_from(d1, idx as int) =~= seq![(idx as int, len as int)]);
                        assert(runs_from(d1, cur as int) =~= out);
                        assert(run_cells(all[0]).contains(cur as int));
                        assert(run_cells((idx as int, len as int)).contains(idx as int));
                        assert(wf_from(d1, idx as int));
                        assert(wf_from(d1, cur as int));
                    }
                    cur
                },
                Some(nx) => {
                    let ghost sub = runs_from(old(data)@, nx as int);
                    proof {
                        lemma_free_cells_cons(all[0], sub);
                        assert(all == seq![all[0]] + sub);
                        assert(free_cells(all) == run_cells(all[0]).union(free_cells(sub)));
                    }
                    let nh2 = release_from(data, nx, idx, len);
                    proof {
                        let ins = insert_run(sub, idx as int, len as int);
                        lemma_insert_run_props(sub, idx as int, len as int, n as int);
                        lemma_free_cells_bounds(ins, n as int);
                        lemma_free_cells_bounds(sub, n as int);
                        assert(sub[0].0 == nx as int);
                        assert(!free_cells(sub).contains(cur as int));
                        assert(!run_cells((idx as int, len as int)).contains(cur as int));
                        assert(data@[cur as int] == old(data)@[cur as int]);
                    }
                    let cb = data[cur];
                    let ghost dm = data@;
                    let nb = Block { size: cb.size, next: Some(nh2) };
                    data.set(cur, nb);
                    proof {
                        let d0 = old(data)@;
                        let d1 = data@;
                        let ins = insert_run(sub, idx as int, len as int);
                        let out = insert_run(all, idx as int, len as int);
                        assert(out == seq![all[0]] + ins);
                        assert(d1 == dm.update(cur as int, nb));
                        assert(ins[0].0 == nh2 as int);
                        assert forall|k: int| 0 <= k < ins.len() implies (#[trigger] ins[k]).0
                            != cur as int by {
                            lemma_run_in_free(ins, k);
                            assert(run_cells(ins[k]).contains(ins[k].0));
                        }
                        lemma_chain_frame_update(dm, cur as int, nb, nh2 as int);
                        assert(runs_from(d1, nh2 as int) == ins);
                        assert(runs_from(d1, cur as int) =~= out);
                        assert(run_cells(all[0]).contains(cur as int));
                        assert forall|j: int|
                            0 <= j < d0.len() && !free_cells(all).contains(j) && !run_cells(
                                (idx as int, len as int),
                            ).contains(j) implies d1[j] == d0[j] by {
                            assert(j != cur as int);
                            assert(dm[j] == d0[j]);
                        }
                        assert(wf_from(d1, cur as int));
                    }
                    cur
                },
            }
        }
    }
}

impl Allocator {
    /// Returns a wrapper's run to the free list, coalescing with any
    /// address-adjacent free neighbours; the free list stays in strictly
    /// ascending order. Releasing a zero-size wrapper changes nothing.
    /// The new head is the lower of the released index and the old head.
    pub fn release(&mut self, w: Wrapper)
        requires
            old(self).wf(),
            w.releasable(*old(self)),
        ensures
            final(self).wf(),
            final(self).cap() == old(self).cap(),
            Allocator::release_transition(*old(self), *final(self), w),
            w.size > 0 ==> final(self).head == Some(
                match old(self).head {
                    None => w.index,
                    Some(h) => if w.index < h {
                        w.index
                    } else {
                        h
                    },
                },
            ),
    {
        if w.size == 0 {
            return ;
        }
        match self.head {
            None => {
                self.data.set(w.index, Block { size: w.size, next: None });
                self.head = Some(w.index);
                proof {
                    assert(self.runs() =~= insert_run(
                        old(self).runs(),
                        w.index as int,
                        w.size as int,
                    ));
                }
            },
            Some(h) => {
                let nh = release_from(&mut self.data, h, w.index, w.size);
                self.head = Some(nh);
            },
        }
    }
}


/// The size of one cell in bytes: the engine's allocation grain.
pub open spec fn block_bytes() -> int {
    vstd::layout::size_of::<Block>() as int
}

/// Bytes rounded up to whole cells. A cell has a positive size on any
/// real platform; the guard only keeps the definition total.
pub open spec fn ceil_blocks(bytes: int) -> int {
    if block_bytes() < 1 {
        0
    } else {
        (bytes + block_bytes() - 1) / block_bytes()
    }
}

/// Cells needed to hold one `T`.
pub open spec fn value_blocks<T>() -> int {
    ceil_blocks(vstd::layout::size_of::<T>() as int)
}

/// Cells needed to hold `len` values of type `T`.
pub open spec fn slice_blocks<T>(len: int) -> int {
    if len == 0 {
        0
    } else {
        ceil_blocks(len * vstd::layout::size_of::<T>() as int)
    }
}

/// Rounds one `T`'s size up to whole cells.
fn value_block_count<T>() -> (r: usize)
    ensures
        r as int == value_blocks::<T>(),
{
    vstd::layout::layout_for_type_is_valid::<T>();
    vstd::layout::layout_for_type_is_valid::<Block>();
    let sz = core::mem::size_of::<T>();
    let bb = core::mem::size_of::<Block>();
    if bb == 0 {
        0
    } else {
        (sz + bb - 1) / bb
    }
}

/// Rounds `len` values' bytes up to whole cells; an empty slice takes no
/// cells.
fn slice_block_count<T>(len: usize) -> (r: usize)
    requires
        len > 0 ==> len as int * vstd::layout::size_of::<T>() as int + block_bytes()
            <= usize::MAX as int,
    ensures
        r as int == slice_blocks::<T>(len as int),
{
    if len == 0 {
        0
    } else {
        let sz = core::mem::size_of::<T>();
        let bytes = len * sz;
        let bb = core::mem::size_of::<Block>();
        if bb == 0 {
            0
        } else {
            (bytes + bb - 1) / bb
        }
    }
}

/// Reads the free list out as `(index, size)` pairs, in chain order.
fn free_list_from(data: &Vec<Block>, cur: usize) -> (r: Vec<(usize, usize)>)
    requires
        wf_from(data@, cur as int),
    ensures
        r@.len() == runs_from(data@, cur as int).len(),
        forall|k: int|
            0 <= k < r@.len() ==> (#[trigger] r@[k]).0 as int == runs_from(data@, cur as int)[k].0
                && r@[k].1 as int == runs_from(data@, cur as int)[k].1,
    decreases data@.len() - cur,
{
    proof {
        lemma_runs_from_props(data@, cur as int);
    }
    let b = data[cur];
    match b.next {
        None => {
            let mut v: Vec<(usize, usize)> = Vec::new();
            v.push((cur, b.size));
            v
        },
        Some(nx) => {
            let mut v = free_list_from(data, nx);
            let ghost sub = runs_from(data@, nx as int);
            let ghost tail = v@;
            v.insert(0, (cur, b.size));
            proof {
                let rs = runs_from(data@, cur as int);
                assert(rs == seq![(cur as int, b.size as int)] + sub);
                assert(v@ =~= seq![(cur, b.size)] + tail);
                assert forall|k: int|
                    0 <= k < v@.len() implies (#[trigger] v@[k]).0 as int == rs[k].0 && v@[k].1
                    as int == rs[k].1 by {
                    if k > 0 {
                        assert(v@[k] == tail[k - 1]);
                        assert(rs[k] == sub[k - 1]);
                    }
                }
            }
            v
        },
    }
}

impl Allocator {
    /// The free list as executable data: each entry is a run's starting
    /// index and its size in cells, in ascending address order.
    pub fn free_list(&self) -> (r: Vec<(usize, usize)>)
        requires
            self.wf(),
        ensures
            r@.len() == self.runs().len(),
            forall|k: int|
                0 <= k < r@.len() ==> (#[trigger] r@[k]).0 as int == self.runs()[k].0 && r@[k].1
                    as int == self.runs()[k].1,
    {
        match self.head {
            None => Vec::new(),
            Some(h) => free_list_from(&self.data, h),
        }
    }
}

/// Law: in a well-formed allocator the free list read from `head` by
/// following `next` is strictly ascending, no two consecutive runs touch
/// (`a.index + a.size < b.index`), every run lies within the capacity,
/// and the head names the first run.
pub proof fn lemma_free_list_invariant(a: Allocator)
    requires
        a.wf(),
    ensures
        wf_runs(a.runs(), a.cap()),
        forall|k: int|
            0 <= k < a.runs().len() - 1 ==> (#[trigger] a.runs()[k]).0 + a.runs()[k].1
                < a.runs()[k + 1].0,
        match a.head {
            None => a.runs().len() == 0,
            Some(h) => a.runs().len() > 0 && a.runs()[0].0 == h as int,
        },
{
    match a.head {
        None => {},
        Some(h) => {
            lemma_runs_from_props(a.data@, h as int);
        },
    }
}

/// A single-value view over an allocated run: the wrapper reserves enough
/// cells for one `T`, and `value` is its contents — `None` until the
/// first write, as a fresh allocation is uninitialized.
#[derive(Debug)]
pub struct Value<T> {
    pub wrapper: Wrapper,
    pub value: Option<T>,
}

impl<T> Value<T> {
    /// The index of the first owned cell.
    pub fn index(&self) -> (r: usize)
        ensures
            r == self.wrapper.index,
    {
        self.wrapper.index
    }

    /// The length of the owned run in cells.
    pub fn size(&self) -> (r: usize)
        ensures
            r == self.wrapper.size,
    {
        self.wrapper.size
    }

    /// The underlying wrapper.
    pub fn wrapper(&self) -> (r: &Wrapper)
        ensures
            r == self.wrapper,
    {
        &self.wrapper
    }

    /// Writes the value.
    pub fn set(&mut self, v: T)
        ensures
            final(self).wrapper == old(self).wrapper,
            final(self).value == Some(v),
    {
        self.value = Some(v);
    }

    /// Reads the value; the cell must have been written.
    pub fn get(&self) -> (r: &T)
        requires
            self.value is Some,
        ensures
            *r == self.value.unwrap(),
    {
        self.value.as_ref().unwrap()
    }
}

/// A slice view over an allocated run: the wrapper reserves enough cells
/// for `len` values of `T`; `items` are the contents, each `None` until
/// first written.
#[derive(Debug)]
pub struct Slice<T> {
    pub wrapper: Wrapper,
    pub len: usize,
    pub items: Vec<Option<T>>,
}

impl<T> Slice<T> {
    /// The contents vector always matches the logical length.
    pub open spec fn wf(self) -> bool {
        self.items@.len() == self.len
    }

    /// The index of the first owned cell.
    pub fn index(&self) -> (r: usize)
        ensures
            r == self.wrapper.index,
    {
        self.wrapper.index
    }

    /// The length of the owned run in cells.
    pub fn size(&self) -> (r: usize)
        ensures
            r == self.wrapper.size,
    {
        self.wrapper.size
    }

    /// The underlying wrapper.
    pub fn wrapper(&self) -> (r: &Wrapper)
        ensures
            r == self.wrapper,
    {
        &self.wrapper
    }

    /// The logical length, measured in values of `T`.
    pub fn len(&self) -> (r: usize)
        ensures
            r == self.len,
    {
        self.len
    }

    /// Whether the slice holds no values.
    pub fn is_empty(&self) -> (r: bool)
        ensures
            r == (self.len == 0),
    {
        self.len == 0
    }

    /// Writes the value at position `i`.
    pub fn set(&mut self, i: usize, v: T)
        requires
            old(self).wf(),
            i < old(self).len,
        ensures
            final(self).wf(),
            final(self).wrapper == old(self).wrapper,
            final(self).len == old(self).len,
            final(self).items@ == old(self).items@.update(i as int, Some(v)),
    {
        self.items.set(i, Some(v));
    }

    /// Reads the value at position `i`; it must have been written.
    pub fn get(&self, i: usize) -> (r: &T)
        requires
            self.wf(),
            i < self.len,
            self.items@[i as int] is Some,
        ensures
            *r == self.items@[i as int].unwrap(),
    {
        self.items[i].as_ref().unwrap()
    }
}


impl Allocator {
    /// Allocates enough cells for one `T` and wraps them as a
    /// single-value view; the value starts unwritten. For a zero-sized
    /// `T` this is the zero placeholder. Succeeds exactly when the
    /// underlying cell allocation does.
    pub fn allocate_value<T>(&mut self) -> (r: Option<Value<T>>)
        requires
            old(self).wf(),
        ensures
            final(self).wf(),
            final(self).cap() == old(self).cap(),
            (r is Some) == (value_blocks::<T>() == 0 || first_fit(
                old(self).runs(),
                value_blocks::<T>(),
            ) is Some),
            r is None ==> final(self).head == old(self).head && final(self).data@ == old(
                self,
            ).data@,
            r is Some ==> ({
                let v = r.unwrap();
                &&& v.value is None
                &&& Allocator::alloc_transition(
                    *old(self),
                    *final(self),
                    v.wrapper,
                    value_blocks::<T>(),
                )
                &&& v.wrapper.releasable(*final(self))
            }),
    {
        let blocks = value_block_count::<T>();
        match self.allocate(blocks) {
            None => None,
            Some(w) => Some(Value { wrapper: w, value: None }),
        }
    }

    /// Releases the run behind a single-value view; the stored value, if
    /// any, is dropped with the view.
    pub fn release_value<T>(&mut self, v: Value<T>)
        requires
            old(self).wf(),
            v.wrapper.releasable(*old(self)),
        ensures
            final(self).wf(),
            final(self).cap() == old(self).cap(),
            Allocator::release_transition(*old(self), *final(self), v.wrapper),
    {
        let Value { wrapper, value: _ } = v;
        self.release(wrapper);
    }

    /// The empty slice view: no cells, no values.
    pub fn allocate_zero_slice<T>(&self) -> (r: Slice<T>)
        ensures
            r.wrapper.index == 0,
            r.wrapper.size == 0,
            r.len == 0,
            r.wf(),
    {
        Slice { wrapper: self.allocate_zero(), len: 0, items: Vec::new() }
    }

    /// Allocates enough cells for `len > 0` values of `T` and wraps them
    /// as a slice view of logical length `len`, every position unwritten.
    /// Succeeds exactly when the underlying cell allocation does.
    pub fn allocate_nonzero_slice<T>(&mut self, len: usize) -> (r: Option<Slice<T>>)
        requires
            old(self).wf(),
            len >= 1,
            vstd::layout::size_of::<T>() >= 1,
            len as int * vstd::layout::size_of::<T>() as int + block_bytes() <= usize::MAX as int,
        ensures
            final(self).wf(),
            final(self).cap() == old(self).cap(),
            (r is Some) == (slice_blocks::<T>(len as int) == 0 || first_fit(
                old(self).runs(),
                slice_blocks::<T>(len as int),
            ) is Some),
            r is None ==> final(self).head == old(self).head && final(self).data@ == old(
                self,
            ).data@,
            r is Some ==> ({
                let sl = r.unwrap();
                &&& sl.len == len
                &&& sl.wf()
                &&& forall|i: int| 0 <= i < len ==> sl.items@[i] is None
                &&& Allocator::alloc_transition(
                    *old(self),
                    *final(self),
                    sl.wrapper,
                    slice_blocks::<T>(len as int),
                )
                &&& sl.wrapper.releasable(*final(self))
            }),
    {
        let blocks = slice_block_count::<T>(len);
        match self.allocate(blocks) {
            None => None,
            Some(w) => {
                let mut items: Vec<Option<T>> = Vec::new();
                let mut i: usize = 0;
                while i < len
                    invariant
                        i <= len,
                        items@.len() == i,
                        forall|j: int| 0 <= j < i ==> items@[j] is None,
                    decreases len - i,
                {
                    items.push(None);
                    i += 1;
                }
                Some(Slice { wrapper: w, len, items })
            },
        }
    }

    /// Allocates a slice view of logical length `len`: the empty slice
    /// for `len == 0`, else `allocate_nonzero_slice`.
    pub fn allocate_slice<T>(&mut self, len: usize) -> (r: Option<Slice<T>>)
        requires
            old(self).wf(),
            len > 0 ==> vstd::layout::size_of::<T>() >= 1,
            len > 0 ==> len as int * vstd::layout::size_of::<T>() as int + block_bytes()
                <= usize::MAX as int,
        ensures
            final(self).wf(),
            final(self).cap() == old(self).cap(),
            (r is Some) == (slice_blocks::<T>(len as int) == 0 || first_fit(
                old(self).runs(),
                slice_blocks::<T>(len as int),
            ) is Some),
            r is None ==> final(self).head == old(self).head && final(self).data@ == old(
                self,
            ).data@,
            len == 0 ==> r is Some && final(self).head == old(self).head && final(self).data@
                == old(self).data@,
            r is Some ==> ({
                let sl = r.unwrap();
                &&& sl.len == len
                &&& sl.wf()
                &&& forall|i: int| 0 <= i < len ==> sl.items@[i] is None
                &&& Allocator::alloc_transition(
                    *old(self),
                    *final(self),
                    sl.wrapper,
                    slice_blocks::<T>(len as int),
                )
                &&& sl.wrapper.releasable(*final(self))
            }),
    {
        if len == 0 {
            Some(self.allocate_zero_slice())
        } else {
            self.allocate_nonzero_slice(len)
        }
    }

    /// Releases the run behind a slice view; the stored values are
    /// dropped with the view.
    pub fn release_slice<T>(&mut self, sl: Slice<T>)
        requires
            old(self).wf(),
            sl.wrapper.releasable(*old(self)),
        ensures
            final(self).wf(),
            final(self).cap() == old(self).cap(),
            Allocator::release_transition(*old(self), *final(self), sl.wrapper),
    {
        let Slice { wrapper, len: _, items: _ } = sl;
        self.release(wrapper);
    }
}


impl<T> Slice<T> {
    /// Resizes the slice to `new_len` values: a new run is allocated, the
    /// overlapping prefix of the contents moves over, the old run is
    /// released, and positions past the old length start unwritten.
    /// Resizing to the current length changes nothing at all. When no
    /// sufficient run exists the slice and the allocator are untouched
    /// and `None` is returned.
    #[verifier::rlimit(100)]
    #[verifier::spinoff_prover]
    pub fn resize(&mut self, a: &mut Allocator, new_len: usize) -> (r: Option<()>)
        requires
            old(a).wf(),
            old(self).wf(),
            old(self).wrapper.releasable(*old(a)),
            old(self).len != new_len && new_len > 0 ==> vstd::layout::size_of::<T>() >= 1
                && new_len as int * vstd::layout::size_of::<T>() as int + block_bytes()
                <= usize::MAX as int,
        ensures
            final(a).wf(),
            final(a).cap() == old(a).cap(),
            final(self).wf(),
            (r is Some) == (old(self).len == new_len || slice_blocks::<T>(new_len as int) == 0
                || first_fit(old(a).runs(), slice_blocks::<T>(new_len as int)) is Some),
            r is None ==> final(self).wrapper == old(self).wrapper && final(self).len == old(
                self,
            ).len && final(self).items@ == old(self).items@ && final(a).head == old(a).head
                && final(a).data@ == old(a).data@,
            r is Some && old(self).len == new_len ==> final(self).wrapper == old(self).wrapper
                && final(self).items@ == old(self).items@ && final(a).head == old(a).head
                && final(a).data@ == old(a).data@,
            r is Some ==> final(self).len == new_len,
            r is Some ==> forall|i: int|
                0 <= i < old(self).len && i < new_len ==> final(self).items@[i] == old(
                    self,
                ).items@[i],
            r is Some ==> forall|i: int|
                old(self).len <= i < new_len ==> final(self).items@[i] is None,
            r is Some ==> final(self).wrapper.releasable(*final(a)),
            r is Some && old(self).len != new_len ==> ({
                let nb = slice_blocks::<T>(new_len as int);
                let mid = if nb == 0 {
                    old(a).runs()
                } else {
                    first_fit(old(a).runs(), nb).unwrap().1
                };
                let ow = old(self).wrapper;
                &&& final(self).wrapper.size as int == nb
                &&& nb > 0 ==> final(self).wrapper.index as int == first_fit(
                    old(a).runs(),
                    nb,
                ).unwrap().0
                &&& nb == 0 ==> final(self).wrapper.index == 0
                &&& final(a).runs() == if ow.size == 0 {
                    mid
                } else {
                    insert_run(mid, ow.index as int, ow.size as int)
                }
            }),
    {
        if self.len == new_len {
            return Some(());
        }
        let blocks = slice_block_count::<T>(new_len);
        match a.allocate(blocks) {
            None => None,
            Some(w) => {
                proof {
                    lemma_free_list_invariant(*old(a));
                    if blocks > 0 {
                        lemma_first_fit_props(old(a).runs(), blocks as int, old(a).cap());
                    }
                }
                // Move the overlapping prefix of the contents over.
                let mut old_items: Vec<Option<T>> = Vec::new();
                core::mem::swap(&mut old_items, &mut self.items);
                let ghost orig = old_items@;
                let m = if new_len < self.len {
                    new_len
                } else {
                    self.len
                };
                let mut new_items: Vec<Option<T>> = Vec::new();
                let mut i: usize = 0;
                while i < m
                    invariant
                        i <= m,
                        m <= old_items@.len(),
                        old_items@.len() == orig.len(),
                        new_items@.len() == i,
                        forall|j: int| 0 <= j < i ==> new_items@[j] == orig[j],
                        forall|j: int| i <= j < orig.len() ==> old_items@[j] == orig[j],
                    decreases m - i,
                {
                    let slot = &mut old_items[i];
                    let t = slot.take();
                    new_items.push(t);
                    i += 1;
                }
                while new_items.len() < new_len
                    invariant
                        m <= new_len,
                        m <= new_items@.len() <= new_len,
                        forall|j: int| 0 <= j < m ==> new_items@[j] == orig[j],
                        forall|j: int| m <= j < new_items@.len() ==> new_items@[j] is None,
                    decreases new_len - new_items@.len(),
                {
                    new_items.push(None);
                }
                let ow = Wrapper { index: self.wrapper.index, size: self.wrapper.size };
                self.wrapper = w;
                self.len = new_len;
                self.items = new_items;
                let ghost amid = *a;
                proof {
                    // The old run is still no part of the shrunken free
                    // list, so it can be released.
                    assert(ow.releasable(amid));
                }
                let ghost gow = ow;
                a.release(ow);
                proof {
                    let ow = gow;
                    lemma_free_list_invariant(amid);
                    if ow.size > 0 {
                        lemma_insert_run_props(amid.runs(), ow.index as int, ow.size as int, amid.cap());
                    }
                    // The new run is free neither in the shrunken list nor
                    // in the released old run, so the new slice can be
                    // released in turn.
                    assert(self.wrapper.releasable(*a));
                }
                Some(())
            },
        }
    }
}


/// A fixed-capacity allocator for local use: the allocator with its cell
/// array, constructed over `N` cells.
#[derive(Debug)]
pub struct ArrayAllocator<const N: usize> {
    pub allocator: Allocator,
}

impl<const N: usize> ArrayAllocator<N> {
    /// A fresh allocator over `N` cells.
    pub fn new() -> (r: ArrayAllocator<N>)
        ensures
            r.allocator.wf(),
            r.allocator.cap() == N,
            N == 0 ==> r.allocator.head is None,
            N > 0 ==> r.allocator.head == Some(0usize),
            r.allocator.runs() == if N == 0 {
                Seq::<(int, int)>::empty()
            } else {
                seq![(0int, N as int)]
            },
    {
        ArrayAllocator { allocator: Allocator::new(N) }
    }

    /// The allocator itself.
    pub fn allocator(&self) -> (r: &Allocator)
        ensures
            r == self.allocator,
    {
        &self.allocator
    }

    /// Mutable access to the allocator.
    pub fn allocator_mut(&mut self) -> (r: &mut Allocator)
        ensures
            *r == old(self).allocator,
            final(self).allocator == *final(r),
    {
        &mut self.allocator
    }
}


/// Law: allocating `blocks` cells and then releasing the returned
/// wrapper restores the allocator's free list exactly as it was.
pub proof fn lemma_allocate_release_roundtrip(
    pre: Allocator,
    mid: Allocator,
    post: Allocator,
    w: Wrapper,
    blocks: int,
)
    requires
        pre.wf(),
        blocks >= 1,
        Allocator::alloc_transition(pre, mid, w, blocks),
        Allocator::release_transition(mid, post, w),
    ensures
        post.runs() == pre.runs(),
{
    lemma_free_list_invariant(pre);
    crate::runs::lemma_first_fit_insert_roundtrip(pre.runs(), blocks, pre.cap());
}


/// Law: an allocation never touches another handle's cells, so a handle
/// that could be released before an allocation still can be after it.
pub proof fn lemma_allocate_keeps_releasable(
    pre: Allocator,
    post: Allocator,
    got: Wrapper,
    w: Wrapper,
    blocks: int,
)
    requires
        pre.wf(),
        post.cap() == pre.cap(),
        Allocator::alloc_transition(pre, post, got, blocks),
        w.releasable(pre),
    ensures
        w.releasable(post),
{
    if blocks > 0 {
        lemma_free_list_invariant(pre);
        lemma_first_fit_props(pre.runs(), blocks, pre.cap());
        assert forall|x: int| post.free_set().contains(x) implies pre.free_set().contains(x) by {}
    }
}

/// Law: releasing one handle keeps every other handle releasable — its
/// cells stay off the free list because the two handles' cells are
/// disjoint.
pub proof fn lemma_release_keeps_releasable(
    pre: Allocator,
    post: Allocator,
    released: Wrapper,
    w: Wrapper,
)
    requires
        pre.wf(),
        post.cap() == pre.cap(),
        released.releasable(pre),
        Allocator::release_transition(pre, post, released),
        w.releasable(pre),
        w.cells().disjoint(released.cells()),
    ensures
        w.releasable(post),
{
    if released.size > 0 {
        lemma_free_list_invariant(pre);
        lemma_insert_run_props(
            pre.runs(),
            released.index as int,
            released.size as int,
            pre.cap(),
        );
        assert(post.free_set() == pre.free_set().union(released.cells()));
        assert forall|x: int| w.cells().contains(x) implies !post.free_set().contains(x) by {}
    }
}

} // verus!
