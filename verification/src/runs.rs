//! The mathematical model of the linked-list engine's free list: a sequence
//! of runs `(index, size)` in strictly ascending, non-adjacent order, with
//! the two operations the engine performs on it — first-fit allocation and
//! coalescing insertion of a released run.

use vstd::prelude::*;

verus! {

/// The set of cell indices covered by the run `r`.
pub open spec fn run_cells(r: (int, int)) -> Set<int> {
    Set::new(|x: int| r.0 <= x < r.0 + r.1)
}

/// The set of cell indices covered by any run of `runs`.
pub open spec fn free_cells(runs: Seq<(int, int)>) -> Set<int>
    decreases runs.len(),
{
    if runs.len() == 0 {
        Set::empty()
    } else {
        run_cells(runs[0]).union(free_cells(runs.drop_first()))
    }
}

/// All cell indices of an allocator with `cap` cells.
pub open spec fn cell_range(cap: int) -> Set<int> {
    Set::new(|x: int| 0 <= x < cap)
}

/// A well-formed free list over `cap` cells: every run is non-empty and in
/// bounds, and consecutive runs are strictly ascending with at least one
/// live cell between them (adjacent free runs would have been merged).
pub open spec fn wf_runs(runs: Seq<(int, int)>, cap: int) -> bool {
    &&& forall|k: int|
        0 <= k < runs.len() ==> {
            &&& (#[trigger] runs[k]).0 >= 0
            &&& runs[k].1 >= 1
            &&& runs[k].0 + runs[k].1 <= cap
        }
    &&& forall|k: int|
        0 <= k < runs.len() - 1 ==> (#[trigger] runs[k]).0 + runs[k].1 < runs[k + 1].0
}

/// First-fit allocation of `n` cells: the first run of size exactly `n` is
/// unlinked; the first larger run is split, keeping its tail free; smaller
/// runs are passed over. Returns the allocated index and the remaining
/// free list, or `None` when no run is large enough.
pub open spec fn first_fit(runs: Seq<(int, int)>, n: int) -> Option<(int, Seq<(int, int)>)>
    decreases runs.len(),
{
    if runs.len() == 0 {
        None
    } else if n == runs[0].1 {
        Some((runs[0].0, runs.drop_first()))
    } else if n < runs[0].1 {
        Some((runs[0].0, seq![(runs[0].0 + n, runs[0].1 - n)] + runs.drop_first()))
    } else {
        match first_fit(runs.drop_first(), n) {
            None => None,
            Some(r) => Some((r.0, seq![runs[0]] + r.1)),
        }
    }
}

/// Address-ordered insertion of the run `(i, s)`, merging with the runs on
/// either side when they are exactly adjacent.
pub open spec fn insert_run(runs: Seq<(int, int)>, i: int, s: int) -> Seq<(int, int)>
    decreases runs.len(),
{
    if runs.len() == 0 {
        seq![(i, s)]
    } else if i + s == runs[0].0 {
        runs.update(0, (i, s + runs[0].1))
    } else if i + s < runs[0].0 {
        seq![(i, s)] + runs
    } else if runs[0].0 + runs[0].1 == i {
        insert_run(runs.drop_first(), runs[0].0, runs[0].1 + s)
    } else {
        seq![runs[0]] + insert_run(runs.drop_first(), i, s)
    }
}

pub(crate) proof fn lemma_wf_drop(runs: Seq<(int, int)>, cap: int)
    requires
        wf_runs(runs, cap),
        runs.len() > 0,
    ensures
        wf_runs(runs.drop_first(), cap),
{
    let t = runs.drop_first();
    assert forall|k: int| 0 <= k < t.len() implies {
        &&& (#[trigger] t[k]).0 >= 0
        &&& t[k].1 >= 1
        &&& t[k].0 + t[k].1 <= cap
    } by {
        assert(t[k] == runs[k + 1]);
    }
    assert forall|k: int| 0 <= k < t.len() - 1 implies (#[trigger] t[k]).0 + t[k].1 < t[k + 1].0 by {
        assert(t[k] == runs[k + 1]);
        assert(t[k + 1] == runs[k + 2]);
    }
}

pub(crate) proof fn lemma_wf_cons(r: (int, int), tail: Seq<(int, int)>, cap: int)
    requires
        wf_runs(tail, cap),
        r.0 >= 0,
        r.1 >= 1,
        r.0 + r.1 <= cap,
        tail.len() > 0 ==> r.0 + r.1 < tail[0].0,
    ensures
        wf_runs(seq![r] + tail, cap),
{
    let s = seq![r] + tail;
    assert forall|k: int| 0 <= k < s.len() implies {
        &&& (#[trigger] s[k]).0 >= 0
        &&& s[k].1 >= 1
        &&& s[k].0 + s[k].1 <= cap
    } by {
        if k > 0 {
            assert(s[k] == tail[k - 1]);
        }
    }
    assert forall|k: int| 0 <= k < s.len() - 1 implies (#[trigger] s[k]).0 + s[k].1 < s[k + 1].0 by {
        if k > 0 {
            assert(s[k] == tail[k - 1]);
            assert(s[k + 1] == tail[k]);
        } else {
            assert(s[1] == tail[0]);
        }
    }
}

pub(crate) proof fn lemma_free_cells_cons(r: (int, int), tail: Seq<(int, int)>)
    ensures
        free_cells(seq![r] + tail) == run_cells(r).union(free_cells(tail)),
{
    let s = seq![r] + tail;
    assert(s.len() > 0);
    assert(s[0] == r);
    assert(s.drop_first() =~= tail);
}

pub(crate) proof fn lemma_free_cells_bounds(runs: Seq<(int, int)>, cap: int)
    requires
        wf_runs(runs, cap),
    ensures
        forall|x: int| free_cells(runs).contains(x) ==> 0 <= x < cap,
        forall|x: int| free_cells(runs).contains(x) ==> runs.len() > 0 && runs[0].0 <= x,
    decreases runs.len(),
{
    if runs.len() > 0 {
        lemma_wf_drop(runs, cap);
        lemma_free_cells_bounds(runs.drop_first(), cap);
        assert forall|x: int| free_cells(runs).contains(x) implies 0 <= x < cap && runs[0].0 <= x by {
            if free_cells(runs.drop_first()).contains(x) {
                assert(runs.drop_first()[0] == runs[1]);
            }
        }
    }
}

/// Every cell of every run is a free cell.
pub(crate) proof fn lemma_run_in_free(runs: Seq<(int, int)>, k: int)
    requires
        0 <= k < runs.len(),
    ensures
        run_cells(runs[k]).subset_of(free_cells(runs)),
    decreases runs.len(),
{
    if k > 0 {
        lemma_run_in_free(runs.drop_first(), k - 1);
        assert(runs.drop_first()[k - 1] == runs[k]);
    }
}

/// What first-fit allocation does to the free cells: when it succeeds it
/// hands out `n` previously free cells starting at the returned index, and
/// exactly those cells leave the free list; the remaining list is again
/// well formed.
#[verifier::rlimit(50)]
pub proof fn lemma_first_fit_props(runs: Seq<(int, int)>, n: int, cap: int)
    requires
        wf_runs(runs, cap),
        n >= 1,
        first_fit(runs, n) is Some,
    ensures
        ({
            let (i, rs) = first_fit(runs, n).unwrap();
            &&& wf_runs(rs, cap)
            &&& runs.len() > 0 && i >= runs[0].0
            &&& 0 <= i && i + n <= cap
            &&& run_cells((i, n)).subset_of(free_cells(runs))
            &&& free_cells(rs) == free_cells(runs).difference(run_cells((i, n)))
            &&& rs.len() > 0 ==> rs[0].0 >= runs[0].0
        }),
    decreases runs.len(),
{
    let (i, rs) = first_fit(runs, n).unwrap();
    let r0 = runs[0];
    let tail = runs.drop_first();
    lemma_wf_drop(runs, cap);
    lemma_free_cells_bounds(tail, cap);
    if n == r0.1 {
        assert(rs == tail);
        assert(run_cells((i, n)) =~= run_cells(r0));
        assert(free_cells(rs) =~= free_cells(runs).difference(run_cells((i, n)))) by {
            if tail.len() > 0 {
                assert(tail[0] == runs[1]);
            }
        }
    } else if n < r0.1 {
        let rem = (r0.0 + n, r0.1 - n);
        assert(rs == seq![rem] + tail);
        lemma_free_cells_cons(rem, tail);
        lemma_wf_cons(rem, tail, cap);
        assert(free_cells(rs) =~= free_cells(runs).difference(run_cells((i, n)))) by {
            if tail.len() > 0 {
                assert(tail[0] == runs[1]);
            }
        }
        assert(run_cells((i, n)).subset_of(free_cells(runs))) by {
            lemma_run_in_free(runs, 0);
        }
    } else {
        let sub = first_fit(tail, n).unwrap();
        lemma_first_fit_props(tail, n, cap);
        assert(rs == seq![r0] + sub.1);
        assert(i == sub.0);
        lemma_free_cells_cons(r0, sub.1);
        if tail.len() > 0 {
            assert(tail[0] == runs[1]);
        }
        lemma_wf_cons(r0, sub.1, cap);
        assert(run_cells((i, n)).subset_of(free_cells(runs))) by {
            lemma_free_cells_cons(r0, tail);
            assert(free_cells(runs) =~= run_cells(r0).union(free_cells(tail)));
        }
        assert(free_cells(rs) =~= free_cells(runs).difference(run_cells((i, n)))) by {
            assert(run_cells(r0).disjoint(run_cells((i, n)))) by {
                lemma_free_cells_bounds(tail, cap);
                assert(run_cells((i, n)).subset_of(free_cells(tail)));
                if tail.len() > 0 {
                    assert(tail[0] == runs[1]);
                }
            }
        }
    }
}

/// First-fit fails exactly when every run is smaller than the request.
pub proof fn lemma_first_fit_none(runs: Seq<(int, int)>, n: int)
    ensures
        (first_fit(runs, n) is None) <==> (forall|k: int|
            0 <= k < runs.len() ==> (#[trigger] runs[k]).1 < n),
    decreases runs.len(),
{
    if runs.len() > 0 {
        lemma_first_fit_none(runs.drop_first(), n);
        if first_fit(runs, n) is None {
            assert forall|k: int| 0 <= k < runs.len() implies (#[trigger] runs[k]).1 < n by {
                if k > 0 {
                    assert(runs.drop_first()[k - 1] == runs[k]);
                }
            }
        } else {
            if runs[0].1 < n {
                assert(first_fit(runs.drop_first(), n) is Some);
                let w = choose|k: int|
                    0 <= k < runs.drop_first().len() && (#[trigger] runs.drop_first()[k]).1 >= n;
                assert(runs[w + 1] == runs.drop_first()[w]);
            }
        }
    }
}

/// What coalescing insertion does to the free cells: the released cells
/// join the free set, nothing else changes, the list stays well formed,
/// and its head is the lower of the released index and the old head.
pub proof fn lemma_insert_run_props(runs: Seq<(int, int)>, i: int, s: int, cap: int)
    requires
        wf_runs(runs, cap),
        s >= 1,
        0 <= i,
        i + s <= cap,
        run_cells((i, s)).disjoint(free_cells(runs)),
    ensures
        ({
            let out = insert_run(runs, i, s);
            &&& wf_runs(out, cap)
            &&& free_cells(out) == free_cells(runs).union(run_cells((i, s)))
            &&& out.len() >= 1
            &&& out[0].0 == if runs.len() == 0 || i < runs[0].0 {
                i
            } else {
                runs[0].0
            }
        }),
    decreases runs.len(),
{
    let out = insert_run(runs, i, s);
    if runs.len() == 0 {
        lemma_free_cells_cons((i, s), Seq::empty());
        assert(out == seq![(i, s)] + Seq::<(int, int)>::empty());
        assert(free_cells(out) =~= free_cells(runs).union(run_cells((i, s))));
        lemma_wf_cons((i, s), Seq::empty(), cap);
    } else {
        let r0 = runs[0];
        let tail = runs.drop_first();
        lemma_wf_drop(runs, cap);
        lemma_free_cells_bounds(tail, cap);
        lemma_free_cells_cons(r0, tail);
        assert(free_cells(runs) =~= run_cells(r0).union(free_cells(tail)));
        lemma_run_in_free(runs, 0);
        if i + s == r0.0 {
            assert(out == runs.update(0, (i, s + r0.1)));
            assert(out[0] == (i, s + r0.1));
            assert(out.drop_first() =~= tail);
            lemma_free_cells_cons((i, s + r0.1), tail);
            assert(out =~= seq![(i, s + r0.1)] + tail);
            assert(run_cells((i, s + r0.1)) =~= run_cells((i, s)).union(run_cells(r0)));
            assert(free_cells(out) =~= free_cells(runs).union(run_cells((i, s))));
            if tail.len() > 0 {
                assert(tail[0] == runs[1]);
            }
            lemma_wf_cons((i, s + r0.1), tail, cap);
        } else if i + s < r0.0 {
            assert(out == seq![(i, s)] + runs);
            lemma_free_cells_cons((i, s), runs);
            assert(free_cells(out) =~= free_cells(runs).union(run_cells((i, s))));
            lemma_wf_cons((i, s), runs, cap);
        } else if r0.0 + r0.1 == i {
            // The released run sits flush against the head run: merge them
            // and insert the merged run into the tail, where it may merge
            // again on its right.
            let m = (r0.0, r0.1 + s);
            assert(run_cells(m) =~= run_cells(r0).union(run_cells((i, s))));
            assert(run_cells(m).disjoint(free_cells(tail))) by {
                if tail.len() > 0 {
                    assert(tail[0] == runs[1]);
                }
            }
            lemma_insert_run_props(tail, r0.0, r0.1 + s, cap);
            assert(out == insert_run(tail, r0.0, r0.1 + s));
            assert(free_cells(out) =~= free_cells(runs).union(run_cells((i, s))));
            assert(out[0].0 == r0.0) by {
                if tail.len() > 0 {
                    assert(tail[0] == runs[1]);
                }
            }
        } else {
            // Disjointness forces the released run to lie strictly past the
            // head run.
            assert(r0.0 + r0.1 < i) by {
                assert(run_cells(r0).subset_of(free_cells(runs)));
                if i < r0.0 + r0.1 {
                    let w = if i >= r0.0 {
                        i
                    } else {
                        r0.0
                    };
                    assert(run_cells((i, s)).contains(w));
                    assert(run_cells(r0).contains(w));
                }
            }
            lemma_insert_run_props(tail, i, s, cap);
            let sub = insert_run(tail, i, s);
            assert(out == seq![r0] + sub);
            lemma_free_cells_cons(r0, sub);
            assert(free_cells(out) =~= free_cells(runs).union(run_cells((i, s))));
            if tail.len() > 0 {
                assert(tail[0] == runs[1]);
            }
            lemma_wf_cons(r0, sub, cap);
        }
    }
}

/// Law: allocating `n` cells and then releasing them restores the free
/// list exactly — not merely the same free cells, but the same runs.
pub proof fn lemma_first_fit_insert_roundtrip(runs: Seq<(int, int)>, n: int, cap: int)
    requires
        wf_runs(runs, cap),
        n >= 1,
        first_fit(runs, n) is Some,
    ensures
        ({
            let (i, rs) = first_fit(runs, n).unwrap();
            insert_run(rs, i, n) == runs
        }),
    decreases runs.len(),
{
    let (i, rs) = first_fit(runs, n).unwrap();
    let r0 = runs[0];
    let tail = runs.drop_first();
    lemma_wf_drop(runs, cap);
    if tail.len() > 0 {
        assert(tail[0] == runs[1]);
    }
    if n == r0.1 {
        assert(rs == tail);
        // The run came off whole; reinserting it cannot touch the next run,
        // which starts strictly past its end.
        if tail.len() == 0 {
            assert(insert_run(rs, i, n) =~= runs);
        } else {
            assert(i + n < tail[0].0);
            assert(insert_run(rs, i, n) == seq![(i, n)] + tail);
            assert(seq![(i, n)] + tail =~= runs);
        }
    } else if n < r0.1 {
        let rem = (r0.0 + n, r0.1 - n);
        assert(rs == seq![rem] + tail);
        assert(rs[0] == rem);
        assert(i + n == rem.0);
        assert(insert_run(rs, i, n) == rs.update(0, (i, n + rem.1)));
        assert(rs.update(0, (i, n + rem.1)) =~= runs);
    } else {
        lemma_first_fit_props(tail, n, cap);
        lemma_first_fit_insert_roundtrip(tail, n, cap);
        let sub = first_fit(tail, n).unwrap();
        assert(rs == seq![r0] + sub.1);
        assert(rs[0] == r0);
        // The allocated index lies in the tail, strictly past the head run.
        assert(i >= tail[0].0);
        assert(r0.0 + r0.1 < i);
        assert(rs.drop_first() =~= sub.1);
        assert(insert_run(rs, i, n) == seq![r0] + insert_run(sub.1, i, n));
        assert(seq![r0] + insert_run(sub.1, i, n) =~= runs);
    }
}

/// Law: the free cells and the cells of live handles partition the whole
/// cell range; a successful allocation moves its cells from the free side
/// to the live side and keeps the partition.
pub proof fn lemma_first_fit_keeps_partition(
    runs: Seq<(int, int)>,
    n: int,
    live: Set<int>,
    cap: int,
)
    requires
        wf_runs(runs, cap),
        n >= 1,
        first_fit(runs, n) is Some,
        free_cells(runs).disjoint(live),
        free_cells(runs).union(live) == cell_range(cap),
    ensures
        ({
            let (i, rs) = first_fit(runs, n).unwrap();
            &&& free_cells(rs).disjoint(live.union(run_cells((i, n))))
            &&& free_cells(rs).union(live.union(run_cells((i, n)))) == cell_range(cap)
        }),
{
    lemma_first_fit_props(runs, n, cap);
    let (i, rs) = first_fit(runs, n).unwrap();
    assert(free_cells(rs).union(live.union(run_cells((i, n)))) =~= cell_range(cap));
}

/// Law: releasing a live handle's cells moves them from the live side to
/// the free side and keeps the partition.
pub proof fn lemma_insert_run_keeps_partition(
    runs: Seq<(int, int)>,
    i: int,
    s: int,
    live: Set<int>,
    cap: int,
)
    requires
        wf_runs(runs, cap),
        s >= 1,
        0 <= i,
        i + s <= cap,
        run_cells((i, s)).subset_of(live),
        free_cells(runs).disjoint(live),
        free_cells(runs).union(live) == cell_range(cap),
    ensures
        free_cells(insert_run(runs, i, s)).disjoint(live.difference(run_cells((i, s)))),
        free_cells(insert_run(runs, i, s)).union(live.difference(run_cells((i, s)))) == cell_range(
            cap,
        ),
{
    lemma_insert_run_props(runs, i, s, cap);
    assert(free_cells(insert_run(runs, i, s)).union(live.difference(run_cells((i, s))))
        =~= cell_range(cap));
}

/// Law: a fresh allocator's whole capacity can be taken by one request of
/// exactly `cap` cells; afterwards the free list is empty, so every
/// further request fails, and releasing the handle restores the initial
/// free list.
pub proof fn lemma_capacity_cycle(cap: int, n: int)
    requires
        cap >= 1,
        n >= 1,
    ensures
        first_fit(seq![(0, cap)], cap) == Some((0int, Seq::<(int, int)>::empty())),
        first_fit(Seq::<(int, int)>::empty(), n) is None,
        insert_run(Seq::<(int, int)>::empty(), 0, cap) == seq![(0int, cap)],
{
    let one = seq![(0int, cap)];
    assert(one.drop_first() =~= Seq::<(int, int)>::empty());
    assert(one[0] == (0int, cap));
}

} // verus!
