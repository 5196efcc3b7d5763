//! The solver: one step resolves a cell of maximum entropy and propagates.

use vstd::prelude::*;
use rand::rngs::StdRng;
use crate::error::ContradictionError;
use crate::grid::cell_valid;
use crate::grid::fully_collapsed;
use crate::grid::open_with_entropy;
use crate::grid::Grid;
use crate::grid::GridView;
use crate::laws::keeps_collapsed;
use crate::laws::lemma_shrinks_transitive;
use crate::laws::lemma_step;
use crate::laws::lemma_undecided_bound;
use crate::laws::resolving_steps;
use crate::laws::settled;
use crate::laws::shrinks;
use crate::laws::undecided;
use crate::propagation::propagate;
use crate::propagation::propagated;
use crate::random::choose_entry;
use crate::ranking::has_entropy;
use crate::ranking::keep_entropy;
use crate::ranking::sorted_by_entropy;
use crate::ranking::with_entropy;

verus! {

/// Cell `c` is not collapsed, and no cell that is not collapsed has a larger
/// entropy.
pub open spec fn picks_max(cells: Seq<Set<usize>>, c: usize) -> bool {
    &&& c < cells.len()
    &&& cells[c as int].len() != 1
    &&& forall|i: int|
        0 <= i < cells.len() && (#[trigger] cells[i]).len() != 1 ==> cells[i].len() <= cells[c as int].len()
}

/// Some cell is not collapsed, and every such cell is empty: whichever cell
/// is selected next cannot be collapsed.
pub open spec fn stuck(cells: Seq<Set<usize>>) -> bool {
    &&& !fully_collapsed(cells)
    &&& forall|i: int| 0 <= i < cells.len() && (#[trigger] cells[i]).len() != 1 ==> cells[i].len() == 0
}

/// The grid in which cell `c` holds tile `t` alone.
pub open spec fn collapsed_at(grid: GridView, c: usize, t: usize) -> GridView {
    grid.with_cells(grid.cells.update(c as int, set![t]))
}

/// The grid after cell `c` has been collapsed to tile `t` and the
/// consequences have been propagated from `c`.
pub open spec fn resolved(grid: GridView, c: usize, t: usize) -> GridView {
    collapsed_at(grid, c, t).with_cells(propagated(collapsed_at(grid, c, t), seq![c]))
}

/// What one step does to a grid and what it reports: a fully collapsed
/// grid is left alone and reported as done; a stuck grid is left alone and
/// reported as a contradiction; otherwise a cell of maximum entropy among
/// those not collapsed is resolved to one of its candidates.
pub open spec fn step_outcome(pre: GridView, post: GridView, r: Result<bool, ContradictionError>) -> bool {
    if fully_collapsed(pre.cells) {
        r == Ok::<bool, ContradictionError>(true) && post == pre
    } else if stuck(pre.cells) {
        r is Err && post == pre
    } else {
        r == Ok::<bool, ContradictionError>(false) && exists|c: usize, t: usize|
            picks_max(pre.cells, c) && pre.cells[c as int].contains(t) && post == #[trigger] resolved(
                pre,
                c,
                t,
            )
    }
}

/// The cells that are not collapsed, each as its position and entropy, in
/// the order of the positions.
pub open spec fn open_list(cells: Seq<Set<usize>>) -> Seq<(usize, usize)>
    decreases cells.len(),
{
    if cells.len() == 0 {
        Seq::empty()
    } else if cells.last().len() != 1 {
        open_list(cells.drop_last()).push(((cells.len() - 1) as usize, cells.last().len() as usize))
    } else {
        open_list(cells.drop_last())
    }
}

/// The open list holds the cells that are not collapsed, with their
/// entropies, and nothing else.
pub proof fn lemma_open_list(cells: Seq<Set<usize>>)
    requires
        cells.len() <= usize::MAX,
        forall|k: int| 0 <= k < cells.len() ==> (#[trigger] cells[k]).len() <= usize::MAX,
    ensures
        forall|k: int|
            0 <= k < open_list(cells).len() ==> open_with_entropy(
                cells,
                (#[trigger] open_list(cells)[k]).0 as int,
                open_list(cells)[k].1 as nat,
            ),
        forall|c: int|
            0 <= c < cells.len() && (#[trigger] cells[c]).len() != 1 ==> open_list(cells).contains(
                (c as usize, cells[c].len() as usize),
            ),
    decreases cells.len(),
{
    if cells.len() > 0 {
        let shorter = cells.drop_last();
        let listed = open_list(cells);
        let before = open_list(shorter);
        assert forall|k: int| 0 <= k < shorter.len() implies (#[trigger] shorter[k]).len()
            <= usize::MAX by {
            assert(shorter[k] == cells[k]);
        }
        lemma_open_list(shorter);
        assert forall|k: int| 0 <= k < listed.len() implies open_with_entropy(
            cells,
            (#[trigger] listed[k]).0 as int,
            listed[k].1 as nat,
        ) by {
            if k < before.len() {
                assert(listed[k] == before[k]);
                assert(open_with_entropy(shorter, before[k].0 as int, before[k].1 as nat));
                assert(shorter[before[k].0 as int] == cells[before[k].0 as int]);
            } else {
                assert(cells.last() == cells[cells.len() - 1]);
            }
        }
        assert forall|c: int| 0 <= c < cells.len() && (#[trigger] cells[c]).len() != 1 implies listed.contains(
            (c as usize, cells[c].len() as usize),
        ) by {
            let item = (c as usize, cells[c].len() as usize);
            if c < shorter.len() {
                assert(shorter[c] == cells[c]);
                assert(before.contains(item));
                let k = choose|k: int| 0 <= k < before.len() && before[k] == item;
                assert(listed[k] == item);
            } else {
                assert(listed[listed.len() - 1] == item);
            }
        }
    }
}

/// Lists every cell that is not collapsed, as its position and entropy, in
/// the order of the positions.
pub fn open_entries(grid: &Grid) -> (entries: Vec<(usize, usize)>)
    requires
        grid.wf(),
    ensures
        entries@ == open_list(grid@.cells),
{
    let mut entries: Vec<(usize, usize)> = Vec::new();
    let mut c: usize = 0;
    while c < grid.cells.len()
        invariant
            grid.wf(),
            c <= grid.cells.len(),
            entries@ == open_list(grid@.cells.take(c as int)),
        decreases grid.cells.len() - c,
    {
        let cell = &grid.cells[c];
        proof {
            let longer = grid@.cells.take(c + 1);
            assert(longer.drop_last() =~= grid@.cells.take(c as int));
            assert(longer.last() == grid@.cells[c as int]);
        }
        if !cell.is_collapsed() {
            let e = cell.entropy();
            entries.push((c, e));
        }
        c += 1;
    }
    assert(grid@.cells.take(c as int) =~= grid@.cells);
    entries
}

/// Lists every cell that is not collapsed in ascending order of entropy;
/// cells of one entropy stay in the order of their positions.
pub fn ranked(grid: &Grid) -> (entries: Vec<(usize, usize)>)
    requires
        grid.wf(),
    ensures
        entries@.to_multiset() == open_list(grid@.cells).to_multiset(),
        forall|a: int, b: int| 0 <= a <= b < entries@.len() ==> entries@[a].1 <= entries@[b].1,
        forall|e: usize| #[trigger] with_entropy(entries@, e) == with_entropy(open_list(grid@.cells), e),
{
    sorted_by_entropy(open_entries(grid))
}

/// Draws one of the cells that are not collapsed and have entropy `m`.
/// There is a draw exactly if there is such a cell.
pub fn select(grid: &Grid, m: usize, rng: &mut StdRng) -> (picked: Option<usize>)
    requires
        grid.wf(),
    ensures
        picked is Some <==> exists|c: int| open_with_entropy(grid@.cells, c, m as nat),
        picked matches Some(c) ==> open_with_entropy(grid@.cells, c as int, m as nat),
{
    let ghost listed = open_list(grid@.cells);
    let pool = keep_entropy(&ranked(grid), m);
    let ghost pooled = pool@;
    proof {
        assert(pooled == with_entropy(listed, m));
        assert forall|k: int| 0 <= k < grid@.cells.len() implies (#[trigger] grid@.cells[k]).len()
            <= usize::MAX by {
            grid.cells@[k].lemma_finite();
        }
        lemma_open_list(grid@.cells);
        if exists|c: int| open_with_entropy(grid@.cells, c, m as nat) {
            let c = choose|c: int| open_with_entropy(grid@.cells, c, m as nat);
            let item = (c as usize, m);
            assert(grid@.cells[c].len() != 1);
            assert(listed.contains(item));
            let k = choose|k: int| 0 <= k < listed.len() && listed[k] == item;
            listed.lemma_filter_contains(has_entropy(m), k);
            assert(pooled.contains(item));
        }
    }
    match choose_entry(pool, rng) {
        Some(entry) => {
            proof {
                let k = choose|k: int| 0 <= k < pooled.len() && pooled[k] == entry;
                listed.lemma_filter_pred(has_entropy(m), k);
                listed.lemma_filter_contains_rev(has_entropy(m), entry);
                let q = choose|q: int| 0 <= q < listed.len() && listed[q] == entry;
                assert(open_with_entropy(grid@.cells, listed[q].0 as int, listed[q].1 as nat));
            }
            Some(entry.0)
        },
        None => None,
    }
}

/// Collapses cell `c` to tile `t` and propagates from `c`, if `c` is a
/// position of the grid and `t` one of its candidates; otherwise changes
/// nothing. Returns whether it did.
pub fn resolve(grid: &mut Grid, c: usize, t: usize) -> (done: bool)
    requires
        old(grid).wf(),
    ensures
        final(grid).wf(),
        done == (c < old(grid)@.cells.len() && old(grid)@.cells[c as int].contains(t)),
        done ==> final(grid)@ == resolved(old(grid)@, c, t),
        !done ==> final(grid)@ == old(grid)@,
{
    if c >= grid.cells.len() {
        return false;
    }
    let ghost pre = grid@;
    let ghost held = grid.cells@;
    assert(pre.cells[c as int] == held[c as int]@);
    let done = grid.cells[c].collapse_to(t);
    proof {
        assert(grid@.cells[c as int] == grid.cells@[c as int]@);
        assert forall|k: int| 0 <= k < held.len() && k != c implies grid@.cells[k] == pre.cells[k] by {
            assert(grid.cells@[k] == held[k]);
            assert(pre.cells[k] == held[k]@);
        }
    }
    if !done {
        assert(grid@.cells =~= pre.cells);
        return false;
    }
    proof {
        assert(grid@.cells =~= collapsed_at(pre, c, t).cells);
        lemma_collapsed_at_valid(pre, c, t);
    }
    propagate(grid, c);
    true
}

/// Collapsing a cell to one of its candidates leaves a valid grid.
pub proof fn lemma_collapsed_at_valid(grid: GridView, c: usize, t: usize)
    requires
        grid.valid(),
        c < grid.cells.len(),
        grid.cells[c as int].contains(t),
    ensures
        collapsed_at(grid, c, t).valid(),
{
    let start = collapsed_at(grid, c, t);
    assert(cell_valid(grid.cells[c as int], grid.tiles.len()));
    assert forall|k: int| 0 <= k < start.cells.len() implies cell_valid(
        #[trigger] start.cells[k],
        start.tiles.len(),
    ) by {
        assert(cell_valid(grid.cells[k], grid.tiles.len()));
    }
}

/// One step of the solver. Reports `true` when every cell is collapsed
/// already, and then does nothing. Otherwise it draws a cell of maximum
/// entropy among those not collapsed, collapses it to one of its
/// candidates, drawn too, propagates from it and reports `false`. If the
/// drawn cell has no candidate, the grid is left as it is and the
/// contradiction is reported.
pub fn wfc(grid: &mut Grid, rng: &mut StdRng) -> (r: Result<bool, ContradictionError>)
    requires
        old(grid).wf(),
    ensures
        final(grid).wf(),
        step_outcome(old(grid)@, final(grid)@, r),
        shrinks(old(grid)@, final(grid)@),
        keeps_collapsed(old(grid)@, final(grid)@),
        settled(old(grid)@) ==> settled(final(grid)@),
        r == Ok::<bool, ContradictionError>(false) ==> undecided(final(grid)@.cells) < undecided(
            old(grid)@.cells,
        ),
{
    let ghost pre = grid@;
    let max = grid.max_entropy_among_uncollapsed();
    let m = match max {
        None => {
            proof {
                lemma_step(pre, grid@, Ok(true));
            }
            return Ok(true);
        },
        Some(m) => m,
    };
    let c = match select(grid, m, rng) {
        Some(c) => c,
        None => {
            return Err(ContradictionError {  });
        },
    };
    assert(picks_max(pre.cells, c));
    let ghost held = grid.cells@;
    assert(pre.cells[c as int] == held[c as int]@);
    let drawn = grid.cells[c].collapse(rng);
    proof {
        assert(grid@.cells[c as int] == grid.cells@[c as int]@);
        assert forall|k: int| 0 <= k < held.len() && k != c implies grid@.cells[k] == pre.cells[k] by {
            assert(grid.cells@[k] == held[k]);
            assert(pre.cells[k] == held[k]@);
        }
    }
    match drawn {
        Err(e) => {
            proof {
                assert(grid@.cells =~= pre.cells);
                assert(stuck(pre.cells));
                lemma_step(pre, grid@, Err(e));
            }
            Err(e)
        },
        Ok(t) => {
            proof {
                assert(grid@.cells =~= collapsed_at(pre, c, t).cells);
                lemma_collapsed_at_valid(pre, c, t);
                assert(pre.cells[c as int].len() != 0);
            }
            propagate(grid, c);
            proof {
                assert(grid@ == resolved(pre, c, t));
                lemma_step(pre, grid@, Ok(false));
            }
            Ok(false)
        },
    }
}

/// The sequence leads from `pre` to `post` by steps that each resolve a
/// cell.
pub open spec fn leads(trace: Seq<GridView>, pre: GridView, post: GridView) -> bool {
    &&& trace.len() > 0
    &&& trace[0] == pre
    &&& trace.last() == post
    &&& resolving_steps(trace)
}

/// Steps until every cell is collapsed or a contradiction shows. Returns
/// the number of cells that were resolved on the way: the grid went
/// through that many resolving steps, and the step after them found it
/// fully collapsed or stuck.
pub fn run(grid: &mut Grid, rng: &mut StdRng) -> (r: Result<usize, ContradictionError>)
    requires
        old(grid).wf(),
    ensures
        final(grid).wf(),
        exists|trace: Seq<GridView>| leads(trace, old(grid)@, final(grid)@),
        r matches Ok(steps) ==> exists|trace: Seq<GridView>|
            leads(trace, old(grid)@, final(grid)@) && trace.len() == steps + 1,
        r is Ok <==> fully_collapsed(final(grid)@.cells),
        r is Err <==> stuck(final(grid)@.cells),
        shrinks(old(grid)@, final(grid)@),
        keeps_collapsed(old(grid)@, final(grid)@),
        settled(old(grid)@) ==> settled(final(grid)@),
        r matches Ok(steps) ==> steps <= undecided(old(grid)@.cells) <= old(grid)@.cells.len(),
{
    let mut steps: usize = 0;
    let ghost pre = grid@;
    let ghost mut trace: Seq<GridView> = seq![grid@];
    proof {
        lemma_undecided_bound(pre.cells);
    }
    loop
        invariant
            grid.wf(),
            pre == old(grid)@,
            pre.valid(),
            resolving_steps(trace),
            trace.len() == steps + 1,
            trace[0] == pre,
            trace.last() == grid@,
            shrinks(pre, grid@),
            keeps_collapsed(pre, grid@),
            settled(pre) ==> settled(grid@),
            steps + undecided(grid@.cells) <= undecided(pre.cells),
            undecided(pre.cells) <= pre.cells.len() <= usize::MAX,
        decreases undecided(grid@.cells),
    {
        let ghost before = grid@;
        let outcome = wfc(grid, rng);
        proof {
            lemma_shrinks_transitive(pre, before, grid@);
            assert forall|k: int|
                0 <= k < pre.cells.len() && (#[trigger] pre.cells[k]).len() == 1 implies grid@.cells[k]
                == pre.cells[k] by {
                assert(before.cells[k] == pre.cells[k]);
            }
        }
        match outcome {
            Ok(true) => {
                assert(leads(trace, pre, grid@));
                return Ok(steps);
            },
            Ok(false) => {
                steps += 1;
                proof {
                    let longer = trace.push(grid@);
                    assert forall|k: int| 0 < k < longer.len() implies step_outcome(
                        longer[k - 1],
                        #[trigger] longer[k],
                        Ok::<bool, ContradictionError>(false),
                    ) by {
                        if k < trace.len() {
                            assert(longer[k] == trace[k]);
                            assert(longer[k - 1] == trace[k - 1]);
                        }
                    }
                    trace = longer;
                }
            },
            Err(e) => {
                assert(leads(trace, pre, grid@));
                return Err(e);
            },
        }
    }
}

} // verus!
