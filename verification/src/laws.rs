//! What holds of every grid the solver works on.

use vstd::prelude::*;
use vstd::set_lib::lemma_len_subset;
use crate::catalog::fits;
use crate::catalog::fits_all;
use crate::catalog::opposite_of;
use crate::catalog::TileDefinition;
use crate::cell::lemma_full_range;
use crate::grid::cell_valid;
use crate::grid::fresh_grid;
use crate::grid::fully_collapsed;
use crate::grid::GridView;
use crate::lattice::lemma_neighbor_in_range;
use crate::lattice::lemma_neighbor_seq_contains;
use crate::lattice::lemma_neighbor_symmetry;
use crate::lattice::neighbor_at;
use crate::lattice::neighbor_seq;
use crate::propagation::agree;
use crate::propagation::fits_listed;
use crate::propagation::lemma_visit_single;
use crate::propagation::lemma_round;
use crate::propagation::lemma_visit_agrees;
use crate::propagation::Worklist;
use crate::propagation::pop_and_visit;
use crate::propagation::propagated;
use crate::propagation::stack_valid;
use crate::propagation::total_entropy;
use crate::error::ContradictionError;
use crate::solver::collapsed_at;
use crate::solver::picks_max;
use crate::solver::resolved;
use crate::solver::step_outcome;
use crate::solver::stuck;

verus! {

/// `post` has the shape and catalog of `pre`, and each of its cells keeps
/// some of the candidates it has in `pre`, and gains none.
pub open spec fn shrinks(pre: GridView, post: GridView) -> bool {
    &&& post.width == pre.width
    &&& post.height == pre.height
    &&& post.tiles == pre.tiles
    &&& post.cells.len() == pre.cells.len()
    &&& forall|k: int| 0 <= k < pre.cells.len() ==> (#[trigger] post.cells[k]).subset_of(pre.cells[k])
}

/// Every cell that is collapsed in `pre` is the same in `post`.
pub open spec fn keeps_collapsed(pre: GridView, post: GridView) -> bool {
    forall|k: int|
        0 <= k < pre.cells.len() && (#[trigger] pre.cells[k]).len() == 1 ==> post.cells[k] == pre.cells[k]
}

/// The number of cells with two or more candidates.
pub open spec fn undecided(cells: Seq<Set<usize>>) -> nat
    decreases cells.len(),
{
    if cells.len() == 0 {
        0
    } else {
        undecided(cells.drop_last()) + if cells.last().len() >= 2 {
            1nat
        } else {
            0nat
        }
    }
}

/// There are no more undecided cells than cells.
pub proof fn lemma_undecided_bound(cells: Seq<Set<usize>>)
    ensures
        undecided(cells) <= cells.len(),
    decreases cells.len(),
{
    if cells.len() > 0 {
        lemma_undecided_bound(cells.drop_last());
    }
}

/// Where no entropy grows, the number of undecided cells does not grow.
pub proof fn lemma_undecided_monotone(pre: Seq<Set<usize>>, post: Seq<Set<usize>>)
    requires
        pre.len() == post.len(),
        forall|k: int| 0 <= k < pre.len() ==> (#[trigger] post[k]).len() <= pre[k].len(),
    ensures
        undecided(post) <= undecided(pre),
    decreases pre.len(),
{
    if pre.len() > 0 {
        assert forall|k: int| 0 <= k < pre.drop_last().len() implies (#[trigger] post.drop_last()[k]).len()
            <= pre.drop_last()[k].len() by {
            assert(post.drop_last()[k] == post[k]);
        }
        lemma_undecided_monotone(pre.drop_last(), post.drop_last());
        assert(post.last() == post[post.len() - 1]);
    }
}

/// Where no entropy grows and one undecided cell is decided, the number of
/// undecided cells falls.
pub proof fn lemma_undecided_falls(pre: Seq<Set<usize>>, post: Seq<Set<usize>>, c: int)
    requires
        pre.len() == post.len(),
        forall|k: int| 0 <= k < pre.len() ==> (#[trigger] post[k]).len() <= pre[k].len(),
        0 <= c < pre.len(),
        pre[c].len() >= 2,
        post[c].len() < 2,
    ensures
        undecided(post) < undecided(pre),
    decreases pre.len(),
{
    assert forall|k: int| 0 <= k < pre.drop_last().len() implies (#[trigger] post.drop_last()[k]).len()
        <= pre.drop_last()[k].len() by {
        assert(post.drop_last()[k] == post[k]);
    }
    assert(post.last() == post[post.len() - 1]);
    if c == pre.len() - 1 {
        lemma_undecided_monotone(pre.drop_last(), post.drop_last());
    } else {
        lemma_undecided_falls(pre.drop_last(), post.drop_last(), c);
    }
}

/// Propagation leaves a valid grid in which no cell has gained a candidate,
/// and leaves alone every collapsed cell that is not queued.
pub proof fn lemma_propagated(grid: GridView, stack: Seq<usize>)
    requires
        grid.valid(),
        stack_valid(stack, grid.cells.len()),
    ensures
        grid.with_cells(propagated(grid, stack)).valid(),
        shrinks(grid, grid.with_cells(propagated(grid, stack))),
        forall|k: int|
            0 <= k < grid.cells.len() && (#[trigger] grid.cells[k]).len() == 1 && !stack.contains(k as usize)
                ==> propagated(grid, stack)[k] == grid.cells[k],
    decreases total_entropy(grid.cells), stack.len(),
{
    let out = propagated(grid, stack);
    if stack.len() > 0 {
        let i = stack.last();
        let next = pop_and_visit(grid, stack);
        let after = grid.with_cells(next.cells);
        lemma_round(grid, stack);
        lemma_propagated(after, next.stack);
        assert(out == propagated(after, next.stack));
        assert forall|k: int| 0 <= k < grid.cells.len() implies (#[trigger] out[k]).subset_of(
            grid.cells[k],
        ) by {
            assert(after.with_cells(out).cells[k].subset_of(after.cells[k]));
        }
        assert forall|k: int|
            0 <= k < grid.cells.len() && (#[trigger] grid.cells[k]).len() == 1 && !stack.contains(
                k as usize,
            ) implies out[k] == grid.cells[k] by {
            assert(stack[stack.len() - 1] == i);
            assert(k != i);
            assert(after.cells[k] == grid.cells[k]);
            assert forall|m: int| 0 <= m < next.stack.len() implies next.stack[m] != k as usize by {
                if m < stack.len() - 1 {
                    assert(next.stack.subrange(0, stack.len() - 1)[m] == stack.drop_last()[m]);
                    assert(stack[m] != k as usize);
                } else {
                    assert(grid.cells[next.stack[m] as int].len() != 1);
                }
            }
            assert(!next.stack.contains(k as usize));
        }
    }
}

/// Resolving a cell to one of its candidates leaves a valid grid in which no
/// cell has gained a candidate, the resolved cell has at most one, and
/// every other collapsed cell is as it was.
pub proof fn lemma_resolved(grid: GridView, c: usize, t: usize)
    requires
        grid.valid(),
        c < grid.cells.len(),
        grid.cells[c as int].contains(t),
    ensures
        resolved(grid, c, t).valid(),
        shrinks(grid, resolved(grid, c, t)),
        resolved(grid, c, t).cells[c as int].len() <= 1,
        forall|k: int|
            0 <= k < grid.cells.len() && (#[trigger] grid.cells[k]).len() == 1 && k != c ==> resolved(
                grid,
                c,
                t,
            ).cells[k] == grid.cells[k],
{
    let start = collapsed_at(grid, c, t);
    let out = resolved(grid, c, t);
    assert(cell_valid(grid.cells[c as int], grid.tiles.len()));
    assert forall|k: int| 0 <= k < start.cells.len() implies cell_valid(
        #[trigger] start.cells[k],
        start.tiles.len(),
    ) by {
        assert(cell_valid(grid.cells[k], grid.tiles.len()));
    }
    assert(seq![c][0] == c);
    lemma_propagated(start, seq![c]);
    assert forall|k: int| 0 <= k < grid.cells.len() implies (#[trigger] out.cells[k]).subset_of(
        grid.cells[k],
    ) by {
        assert(start.with_cells(out.cells).cells[k].subset_of(start.cells[k]));
    }
    assert(out.cells[c as int].subset_of(set![t])) by {
        assert(start.with_cells(out.cells).cells[c as int].subset_of(start.cells[c as int]));
    }
    lemma_len_subset(out.cells[c as int], set![t]);
    assert forall|k: int|
        0 <= k < grid.cells.len() && (#[trigger] grid.cells[k]).len() == 1 && k != c implies out.cells[k]
        == grid.cells[k] by {
        assert(start.cells[k] == grid.cells[k]);
        assert(!seq![c].contains(k as usize));
    }
}

/// Cell `a` agrees with its neighbor in direction `d`, if it has one.
pub open spec fn agrees_towards(grid: GridView, a: usize, d: int) -> bool {
    match neighbor_at(a, grid.width, grid.height, d) {
        Some(b) => agree(grid.tiles, grid.cells[a as int], d, grid.cells[b as int]),
        None => true,
    }
}

/// Cell `a` agrees with each of its neighbors.
pub open spec fn agrees_around(grid: GridView, a: usize) -> bool {
    forall|d: int| 0 <= d < 4 ==> #[trigger] agrees_towards(grid, a, d)
}

/// Every collapsed cell agrees with each of its neighbors: its tile fits
/// whatever is still possible next to it.
pub open spec fn settled(grid: GridView) -> bool {
    forall|a: usize|
        a < grid.cells.len() && grid.cells[a as int].len() == 1 ==> #[trigger] agrees_around(grid, a)
}

/// The same, but for cell `c`, of which nothing is asked.
pub open spec fn settled_except(grid: GridView, c: usize) -> bool {
    forall|a: usize|
        a < grid.cells.len() && a != c && grid.cells[a as int].len() == 1 ==> #[trigger] agrees_around(
            grid,
            a,
        )
}

/// The tile of a collapsed cell.
pub open spec fn tile_of(cell: Set<usize>) -> usize {
    cell.choose()
}

/// The tile at `i` shows its neighbor in direction `d`, if it has one, the
/// code that the neighbor's tile shows back.
pub open spec fn matches_towards(grid: GridView, i: usize, d: int) -> bool {
    match neighbor_at(i, grid.width, grid.height, d) {
        Some(j) => fits(grid.tiles, tile_of(grid.cells[i as int]), d, tile_of(grid.cells[j as int])),
        None => true,
    }
}

/// Every pair of adjacent tiles shows matching codes on the shared edge.
pub open spec fn locally_consistent(grid: GridView) -> bool {
    forall|i: usize, d: int|
        i < grid.cells.len() && 0 <= d < 4 ==> #[trigger] matches_towards(grid, i, d)
}

/// Fitting is symmetric: looked at from the other tile, the direction is
/// the opposite one.
pub proof fn lemma_fits_symmetric(tiles: Seq<TileDefinition>, t: usize, d: int, n: usize)
    requires
        0 <= d < 4,
    ensures
        fits(tiles, t, d, n) == fits(tiles, n, opposite_of(d), t),
{
}

/// Agreement is symmetric in the same way.
pub proof fn lemma_agree_symmetric(tiles: Seq<TileDefinition>, a: Set<usize>, d: int, b: Set<usize>)
    requires
        0 <= d < 4,
        agree(tiles, a, d, b),
    ensures
        agree(tiles, b, opposite_of(d), a),
{
    assert forall|n: usize| b.contains(n) implies fits_all(tiles, n, opposite_of(d), a) by {
        assert forall|t: usize| a.contains(t) implies fits(tiles, n, opposite_of(d), t) by {
            assert(fits_all(tiles, t, d, b));
            lemma_fits_symmetric(tiles, t, d, n);
        }
    }
}

/// Agreement survives the removal of candidates on either side.
pub proof fn lemma_agree_subsets(
    tiles: Seq<TileDefinition>,
    a: Set<usize>,
    d: int,
    b: Set<usize>,
    a2: Set<usize>,
    b2: Set<usize>,
)
    requires
        agree(tiles, a, d, b),
        a2.subset_of(a),
        b2.subset_of(b),
    ensures
        agree(tiles, a2, d, b2),
{
    assert forall|t: usize| a2.contains(t) implies fits_all(tiles, t, d, b2) by {
        assert(fits_all(tiles, t, d, b));
    }
}

/// A round that starts with every collapsed cell but the visited one in
/// agreement with its neighbors ends with all of them in agreement.
pub proof fn lemma_round_settles(grid: GridView, stack: Seq<usize>)
    requires
        grid.valid(),
        stack_valid(stack, grid.cells.len()),
        stack.len() > 0,
        settled_except(grid, stack.last()),
    ensures
        settled(grid.with_cells(pop_and_visit(grid, stack).cells)),
{
    let i = stack.last();
    let neighs = neighbor_seq(i, grid.width, grid.height);
    let w = Worklist { cells: grid.cells, stack: stack.drop_last() };
    let next = pop_and_visit(grid, stack);
    let after = grid.with_cells(next.cells);
    lemma_round(grid, stack);
    assert forall|k: int| 0 <= k < neighs.len() implies (#[trigger] neighs[k]).1 < w.cells.len()
        && neighs[k].1 != i by {
        assert(neighs.contains(neighs[k]));
        lemma_neighbor_seq_contains(i, grid.width, grid.height, neighs[k].0, neighs[k].1);
        lemma_neighbor_in_range(i, grid.width, grid.height, neighs[k].0 as int, neighs[k].1);
    }
    assert(cell_valid(grid.cells[i as int], grid.tiles.len()));
    lemma_visit_agrees(grid.tiles, w, i, neighs);
    assert forall|a: usize| a < after.cells.len() && after.cells[a as int].len() == 1 implies #[trigger] agrees_around(
        after,
        a,
    ) by {
        assert forall|d: int| 0 <= d < 4 implies #[trigger] agrees_towards(after, a, d) by {
            match neighbor_at(a, grid.width, grid.height, d) {
                None => {},
                Some(b) => {
                    lemma_neighbor_in_range(a, grid.width, grid.height, d, b);
                    assert(after.cells[b as int].subset_of(grid.cells[b as int]));
                    assert(after.cells[a as int].subset_of(grid.cells[a as int]));
                    if a != i {
                        assert(after.cells[a as int] == grid.cells[a as int]);
                        assert(agrees_around(grid, a));
                        assert(agrees_towards(grid, a, d));
                        lemma_agree_subsets(
                            grid.tiles,
                            grid.cells[a as int],
                            d,
                            grid.cells[b as int],
                            after.cells[a as int],
                            after.cells[b as int],
                        );
                    } else if grid.cells[b as int].len() == 1 {
                        lemma_neighbor_symmetry(a, grid.width, grid.height, d, b);
                        assert(agrees_around(grid, b));
                        assert(agrees_towards(grid, b, opposite_of(d)));
                        lemma_agree_symmetric(
                            grid.tiles,
                            grid.cells[b as int],
                            opposite_of(d),
                            grid.cells[a as int],
                        );
                        assert(opposite_of(opposite_of(d)) == d);
                        lemma_agree_subsets(
                            grid.tiles,
                            grid.cells[a as int],
                            d,
                            grid.cells[b as int],
                            after.cells[a as int],
                            after.cells[b as int],
                        );
                    } else {
                        lemma_neighbor_seq_contains(a, grid.width, grid.height, d as usize, b);
                        let k = choose|k: int| 0 <= k < neighs.len() && neighs[k] == (d as usize, b);
                        assert(neighs[k].1 == b && neighs[k].0 == d);
                        assert(after.cells[b as int] == grid.cells[b as int]);
                    }
                },
            }
        }
    }
}

/// Propagation that starts with every collapsed cell in agreement with its
/// neighbors, but perhaps the one it visits first, ends with all of them in
/// agreement.
pub proof fn lemma_propagated_settled(grid: GridView, stack: Seq<usize>)
    requires
        grid.valid(),
        stack_valid(stack, grid.cells.len()),
        stack.len() > 0 ==> settled_except(grid, stack.last()),
        stack.len() == 0 ==> settled(grid),
    ensures
        settled(grid.with_cells(propagated(grid, stack))),
    decreases total_entropy(grid.cells), stack.len(),
{
    if stack.len() > 0 {
        let next = pop_and_visit(grid, stack);
        let after = grid.with_cells(next.cells);
        lemma_round(grid, stack);
        lemma_round_settles(grid, stack);
        lemma_propagated_settled(after, next.stack);
        assert(propagated(grid, stack) == propagated(after, next.stack));
    } else {
        assert(grid.with_cells(grid.cells) == grid);
    }
}

/// Resolving a cell keeps every collapsed cell in agreement with its
/// neighbors.
pub proof fn lemma_resolved_settled(grid: GridView, c: usize, t: usize)
    requires
        grid.valid(),
        c < grid.cells.len(),
        grid.cells[c as int].contains(t),
        settled(grid),
    ensures
        settled(resolved(grid, c, t)),
{
    let start = collapsed_at(grid, c, t);
    assert(cell_valid(grid.cells[c as int], grid.tiles.len()));
    assert forall|k: int| 0 <= k < start.cells.len() implies cell_valid(
        #[trigger] start.cells[k],
        start.tiles.len(),
    ) by {
        assert(cell_valid(grid.cells[k], grid.tiles.len()));
    }
    assert(seq![c][0] == c);
    assert forall|a: usize|
        a < start.cells.len() && a != c && start.cells[a as int].len() == 1 implies #[trigger] agrees_around(
        start,
        a,
    ) by {
        assert(agrees_around(grid, a));
        assert forall|d: int| 0 <= d < 4 implies #[trigger] agrees_towards(start, a, d) by {
            assert(agrees_towards(grid, a, d));
            match neighbor_at(a, grid.width, grid.height, d) {
                None => {},
                Some(b) => {
                    lemma_neighbor_in_range(a, grid.width, grid.height, d, b);
                    assert(start.cells[b as int].subset_of(grid.cells[b as int]));
                    lemma_agree_subsets(
                        grid.tiles,
                        grid.cells[a as int],
                        d,
                        grid.cells[b as int],
                        start.cells[a as int],
                        start.cells[b as int],
                    );
                },
            }
        }
    }
    lemma_propagated_settled(start, seq![c]);
}

/// Local consistency on completion: in a fully collapsed grid whose
/// collapsed cells agree with their neighbors, adjacent tiles match.
pub proof fn lemma_settled_completion(grid: GridView)
    requires
        grid.valid(),
        settled(grid),
        fully_collapsed(grid.cells),
    ensures
        locally_consistent(grid),
{
    assert forall|i: usize, d: int| i < grid.cells.len() && 0 <= d < 4 implies #[trigger] matches_towards(
        grid,
        i,
        d,
    ) by {
        match neighbor_at(i, grid.width, grid.height, d) {
            None => {},
            Some(j) => {
                lemma_neighbor_in_range(i, grid.width, grid.height, d, j);
                assert(agrees_around(grid, i));
                assert(agrees_towards(grid, i, d));
                assert(cell_valid(grid.cells[i as int], grid.tiles.len()));
                assert(cell_valid(grid.cells[j as int], grid.tiles.len()));
                assert(grid.cells[i as int].len() == 1);
                assert(grid.cells[j as int].len() == 1);
                let t = tile_of(grid.cells[i as int]);
                let n = tile_of(grid.cells[j as int]);
                assert(grid.cells[i as int].contains(t));
                assert(grid.cells[j as int].contains(n));
                assert(fits_all(grid.tiles, t, d, grid.cells[j as int]));
            },
        }
    }
}

/// Tile `t` at position `c` fits whatever is still possible in each
/// neighbor of `c` that is not collapsed.
pub open spec fn fits_around(grid: GridView, c: usize, t: usize) -> bool {
    fits_listed(grid.tiles, grid.cells, t, neighbor_seq(c, grid.width, grid.height))
}

/// What becomes of the cell that is resolved: it keeps its tile if the tile
/// fits whatever is still possible around it, and loses it otherwise, which
/// leaves the cell empty.
pub proof fn lemma_resolved_cell(grid: GridView, c: usize, t: usize)
    requires
        grid.valid(),
        c < grid.cells.len(),
        grid.cells[c as int].contains(t),
    ensures
        resolved(grid, c, t).cells[c as int] == if fits_around(grid, c, t) {
            set![t]
        } else {
            Set::<usize>::empty()
        },
{
    let start = collapsed_at(grid, c, t);
    let stack = seq![c];
    let neighs = neighbor_seq(c, grid.width, grid.height);
    crate::solver::lemma_collapsed_at_valid(grid, c, t);
    assert(stack[0] == c);
    assert(stack.last() == c);
    let w = Worklist { cells: start.cells, stack: stack.drop_last() };
    let next = pop_and_visit(start, stack);
    let after = start.with_cells(next.cells);
    lemma_round(start, stack);
    assert forall|k: int| 0 <= k < neighs.len() implies (#[trigger] neighs[k]).1 < w.cells.len()
        && neighs[k].1 != c by {
        assert(neighs.contains(neighs[k]));
        lemma_neighbor_seq_contains(c, grid.width, grid.height, neighs[k].0, neighs[k].1);
        lemma_neighbor_in_range(c, grid.width, grid.height, neighs[k].0 as int, neighs[k].1);
    }
    lemma_visit_single(grid.tiles, w, c, neighs, t);
    assert(fits_listed(grid.tiles, start.cells, t, neighs) == fits_listed(grid.tiles, grid.cells, t, neighs))
        by {
        assert forall|k: int| 0 <= k < neighs.len() implies start.cells[(#[trigger] neighs[k]).1 as int]
            == grid.cells[neighs[k].1 as int] by {}
    }
    lemma_propagated(after, next.stack);
    assert(propagated(start, stack) == propagated(after, next.stack));
    let out = propagated(after, next.stack);
    assert(after.with_cells(out).cells[c as int].subset_of(after.cells[c as int]));
    if fits_around(grid, c, t) {
        assert(after.cells[c as int].len() == 1);
        assert forall|m: int| 0 <= m < next.stack.len() implies next.stack[m] != c by {}
        assert(!next.stack.contains(c));
    } else {
        assert(out[c as int] =~= Set::<usize>::empty());
    }
}

/// Losing candidates twice is losing candidates.
pub proof fn lemma_shrinks_transitive(a: GridView, b: GridView, c: GridView)
    requires
        shrinks(a, b),
        shrinks(b, c),
    ensures
        shrinks(a, c),
{
    assert forall|k: int| 0 <= k < a.cells.len() implies (#[trigger] c.cells[k]).subset_of(a.cells[k]) by {
        assert(b.cells[k].subset_of(a.cells[k]));
    }
}

/// What one step does, whatever was drawn: the grid stays valid, no cell
/// gains a candidate, no collapsed cell changes, collapsed cells stay in
/// agreement with their neighbors, and a step that resolves a cell leaves
/// fewer undecided cells.
pub proof fn lemma_step(pre: GridView, post: GridView, r: Result<bool, ContradictionError>)
    requires
        pre.valid(),
        step_outcome(pre, post, r),
    ensures
        post.valid(),
        shrinks(pre, post),
        keeps_collapsed(pre, post),
        settled(pre) ==> settled(post),
        r == Ok::<bool, ContradictionError>(false) ==> undecided(post.cells) < undecided(pre.cells),
        r != Ok::<bool, ContradictionError>(false) ==> post == pre,
{
    if !fully_collapsed(pre.cells) && !stuck(pre.cells) {
        let (c, t) = choose|c: usize, t: usize|
            picks_max(pre.cells, c) && pre.cells[c as int].contains(t) && post == #[trigger] resolved(
                pre,
                c,
                t,
            );
        lemma_resolved(pre, c, t);
        if settled(pre) {
            lemma_resolved_settled(pre, c, t);
        }
        assert forall|k: int| 0 <= k < pre.cells.len() implies (#[trigger] post.cells[k]).len()
            <= pre.cells[k].len() by {
            assert(cell_valid(pre.cells[k], pre.tiles.len()));
            lemma_len_subset(post.cells[k], pre.cells[k]);
        }
        let open = choose|i: int|
            0 <= i < pre.cells.len() && (#[trigger] pre.cells[i]).len() != 1 && pre.cells[i].len() != 0;
        assert(pre.cells[open].len() <= pre.cells[c as int].len());
        lemma_undecided_falls(pre.cells, post.cells, c as int);
    }
}

/// `post` is what one step can make of `pre`.
pub open spec fn step_relates(pre: GridView, post: GridView) -> bool {
    exists|r: Result<bool, ContradictionError>| step_outcome(pre, post, r)
}

/// Each grid of the sequence but the first is what one step can make of
/// the grid before it.
pub open spec fn steps_from(trace: Seq<GridView>) -> bool {
    forall|k: int| 0 < k < trace.len() ==> step_relates(trace[k - 1], #[trigger] trace[k])
}

/// What every step keeps, whatever it reports.
pub proof fn lemma_step_relates(pre: GridView, post: GridView)
    requires
        pre.valid(),
        step_relates(pre, post),
    ensures
        post.valid(),
        shrinks(pre, post),
        keeps_collapsed(pre, post),
        settled(pre) ==> settled(post),
{
    let r = choose|r: Result<bool, ContradictionError>| step_outcome(pre, post, r);
    lemma_step(pre, post, r);
}

/// Each grid of the sequence but the first is what a step that resolves a
/// cell can make of the grid before it.
pub open spec fn resolving_steps(trace: Seq<GridView>) -> bool {
    forall|k: int|
        0 < k < trace.len() ==> step_outcome(
            trace[k - 1],
            #[trigger] trace[k],
            Ok::<bool, ContradictionError>(false),
        )
}

/// A fresh grid is valid, and with two tiles or more it has no collapsed
/// cell, so all of them agree with their neighbors.
pub proof fn lemma_fresh_grid(width: usize, height: usize, tiles: Seq<TileDefinition>)
    requires
        0 < width,
        0 < height,
        width * height <= usize::MAX,
        0 < tiles.len() <= usize::MAX,
    ensures
        fresh_grid(width, height, tiles).valid(),
        tiles.len() >= 2 ==> settled(fresh_grid(width, height, tiles)),
        undecided(fresh_grid(width, height, tiles).cells) <= width * height,
{
    let grid = fresh_grid(width, height, tiles);
    lemma_full_range(tiles.len() as usize);
    lemma_undecided_bound(grid.cells);
}

/// Along any sequence of steps from a valid grid, every grid is valid and
/// has lost candidates only, and whatever agreement there was is kept.
pub proof fn lemma_steps_keep(trace: Seq<GridView>, k: int)
    requires
        trace.len() > 0,
        trace[0].valid(),
        steps_from(trace),
        0 <= k < trace.len(),
    ensures
        trace[k].valid(),
        shrinks(trace[0], trace[k]),
        settled(trace[0]) ==> settled(trace[k]),
    decreases k,
{
    if k > 0 {
        lemma_steps_keep(trace, k - 1);
        lemma_step_relates(trace[k - 1], trace[k]);
        lemma_shrinks_transitive(trace[0], trace[k - 1], trace[k]);
    }
}

/// Entropy monotonicity: along any sequence of steps, a cell never gains a
/// candidate, so its entropy never grows.
pub proof fn lemma_entropy_never_grows(trace: Seq<GridView>, a: int, b: int, p: int)
    requires
        trace.len() > 0,
        trace[0].valid(),
        steps_from(trace),
        0 <= a <= b < trace.len(),
        0 <= p < trace[0].cells.len(),
    ensures
        trace[b].cells[p].subset_of(trace[a].cells[p]),
        trace[b].cells[p].len() <= trace[a].cells[p].len(),
    decreases b - a,
{
    lemma_steps_keep(trace, a);
    assert(cell_valid(trace[a].cells[p], trace[a].tiles.len()));
    if a < b {
        lemma_entropy_never_grows(trace, a, b - 1, p);
        lemma_steps_keep(trace, b - 1);
        lemma_step_relates(trace[b - 1], trace[b]);
        assert(trace[b].cells[p].subset_of(trace[b - 1].cells[p]));
        lemma_len_subset(trace[b].cells[p], trace[a].cells[p]);
    }
}

/// Collapse stability: a cell that is collapsed when a step begins holds
/// the same tile after that step and after every later one.
pub proof fn lemma_collapsed_stays(trace: Seq<GridView>, a: int, b: int, p: int)
    requires
        trace.len() > 0,
        trace[0].valid(),
        steps_from(trace),
        0 <= a <= b < trace.len(),
        0 <= p < trace[0].cells.len(),
        trace[a].cells[p].len() == 1,
    ensures
        trace[b].cells[p] == trace[a].cells[p],
    decreases b - a,
{
    if a < b {
        lemma_collapsed_stays(trace, a, b - 1, p);
        lemma_steps_keep(trace, b - 1);
        lemma_step_relates(trace[b - 1], trace[b]);
    }
}

/// Termination: a sequence of steps that each resolve a cell is no longer
/// than the number of undecided cells it starts with, which is at most the
/// number of cells. The step after the last of them reports completion or a
/// contradiction.
pub proof fn lemma_steps_bounded(trace: Seq<GridView>)
    requires
        trace.len() > 0,
        trace[0].valid(),
        resolving_steps(trace),
    ensures
        trace.len() - 1 + undecided(trace.last().cells) <= undecided(trace[0].cells),
        undecided(trace[0].cells) <= trace[0].width * trace[0].height,
    decreases trace.len(),
{
    lemma_undecided_bound(trace[0].cells);
    if trace.len() > 1 {
        let shorter = trace.drop_last();
        assert(resolving_steps(shorter)) by {
            assert forall|k: int| 0 < k < shorter.len() implies step_outcome(
                shorter[k - 1],
                #[trigger] shorter[k],
                Ok::<bool, ContradictionError>(false),
            ) by {
                assert(shorter[k] == trace[k]);
                assert(shorter[k - 1] == trace[k - 1]);
            }
        }
        lemma_steps_bounded(shorter);
        let n = trace.len() - 1;
        assert(steps_from(shorter)) by {
            assert forall|k: int| 0 < k < shorter.len() implies step_relates(
                shorter[k - 1],
                #[trigger] shorter[k],
            ) by {
                assert(step_outcome(shorter[k - 1], shorter[k], Ok::<bool, ContradictionError>(false)));
            }
        }
        lemma_steps_keep(shorter, n - 1);
        assert(shorter.last() == trace[n - 1]);
        assert(step_outcome(trace[n - 1], trace[n], Ok::<bool, ContradictionError>(false)));
        lemma_step(trace[n - 1], trace[n], Ok::<bool, ContradictionError>(false));
    }
}

/// A step reports completion exactly on a fully collapsed grid, a
/// contradiction exactly on a stuck one, and resolves a cell otherwise.
pub proof fn lemma_step_reports(pre: GridView, post: GridView, r: Result<bool, ContradictionError>)
    requires
        step_outcome(pre, post, r),
    ensures
        r == Ok::<bool, ContradictionError>(true) <==> fully_collapsed(pre.cells),
        r is Err <==> stuck(pre.cells),
        r == Ok::<bool, ContradictionError>(false) <==> !fully_collapsed(pre.cells) && !stuck(pre.cells),
{
}

/// Local consistency on completion: when steps from a grid whose collapsed
/// cells agree with their neighbors, such as a fresh grid over two tiles or
/// more, end in a fully collapsed grid, adjacent tiles of that grid match.
pub proof fn lemma_completion_is_consistent(trace: Seq<GridView>)
    requires
        trace.len() > 0,
        trace[0].valid(),
        settled(trace[0]),
        steps_from(trace),
        fully_collapsed(trace.last().cells),
    ensures
        locally_consistent(trace.last()),
{
    lemma_steps_keep(trace, trace.len() - 1);
    lemma_settled_completion(trace.last());
}

} // verus!
