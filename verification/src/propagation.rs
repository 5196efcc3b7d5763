//! Constraint propagation: after a cell has been resolved, a worklist of
//! positions is worked off. Visiting a position prunes its own candidates
//! against each neighbor that is not collapsed, and queues that neighbor
//! when something was pruned.

use vstd::prelude::*;
use vstd::set_lib::lemma_len_subset;
use vstd::set_lib::lemma_subset_equality;
use crate::catalog::fits;
use crate::catalog::fits_all;
use crate::catalog::tiles_fit;
use crate::catalog::TileDefinition;
use crate::grid::cell_valid;
use crate::grid::Grid;
use crate::grid::GridView;
use crate::lattice::lemma_neighbor_in_range;
use crate::lattice::lemma_neighbor_seq_contains;
use crate::lattice::neighbor_seq;
use crate::lattice::neighbors;

verus! {

/// The cells, and the positions still to visit, last one first.
pub struct Worklist {
    pub cells: Seq<Set<usize>>,
    pub stack: Seq<usize>,
}

/// The candidates of `own` that fit every candidate of `other` across `d`.
pub open spec fn revise(tiles: Seq<TileDefinition>, own: Set<usize>, d: int, other: Set<usize>) -> Set<
    usize,
> {
    Set::new(|t: usize| own.contains(t) && fits_all(tiles, t, d, other))
}

/// Visiting `i` looks at its neighbor `j` in direction `d`. A collapsed
/// neighbor is passed over. Otherwise `i` keeps the candidates that fit all
/// of `j`'s, and `j` is queued if `i` lost one and `j` is not queued yet.
pub open spec fn visit_one(tiles: Seq<TileDefinition>, w: Worklist, i: usize, d: usize, j: usize) -> Worklist {
    let kept = revise(tiles, w.cells[i as int], d as int, w.cells[j as int]);
    if w.cells[j as int].len() == 1 || kept == w.cells[i as int] {
        w
    } else {
        Worklist {
            cells: w.cells.update(i as int, kept),
            stack: if w.stack.contains(j) {
                w.stack
            } else {
                w.stack.push(j)
            },
        }
    }
}

/// Visiting `i` looks at the listed neighbors one after the other.
pub open spec fn visit(tiles: Seq<TileDefinition>, w: Worklist, i: usize, neighs: Seq<(usize, usize)>) -> Worklist
    decreases neighs.len(),
{
    if neighs.len() == 0 {
        w
    } else {
        visit(tiles, visit_one(tiles, w, i, neighs[0].0, neighs[0].1), i, neighs.drop_first())
    }
}

/// The sum of the entropies of all cells.
pub open spec fn total_entropy(cells: Seq<Set<usize>>) -> nat
    decreases cells.len(),
{
    if cells.len() == 0 {
        0
    } else {
        total_entropy(cells.drop_last()) + cells.last().len()
    }
}

/// Every queued position is a position of the grid.
pub open spec fn stack_valid(stack: Seq<usize>, count: nat) -> bool {
    forall|k: int| 0 <= k < stack.len() ==> #[trigger] stack[k] < count
}

/// One round of the worklist: the last queued position is taken off and
/// visited.
pub open spec fn pop_and_visit(grid: GridView, stack: Seq<usize>) -> Worklist {
    visit(
        grid.tiles,
        Worklist { cells: grid.cells, stack: stack.drop_last() },
        stack.last(),
        neighbor_seq(stack.last(), grid.width, grid.height),
    )
}

/// The cells once the worklist has run empty.
pub open spec fn propagated(grid: GridView, stack: Seq<usize>) -> Seq<Set<usize>>
    decreases total_entropy(grid.cells), stack.len(),
    when grid.valid() && stack_valid(stack, grid.cells.len())
    via propagated_decreases
{
    if stack.len() == 0 {
        grid.cells
    } else {
        let next = pop_and_visit(grid, stack);
        propagated(grid.with_cells(next.cells), next.stack)
    }
}

/// A round prunes a candidate or shortens the stack, so the rounds end.
#[via_fn]
proof fn propagated_decreases(grid: GridView, stack: Seq<usize>) {
    if stack.len() != 0 {
        lemma_round(grid, stack);
    }
}

/// Replacing one cell changes the total entropy by the difference of the
/// two entropies.
pub proof fn lemma_total_entropy_update(cells: Seq<Set<usize>>, i: int, cell: Set<usize>)
    requires
        0 <= i < cells.len(),
    ensures
        total_entropy(cells.update(i, cell)) + cells[i].len() == total_entropy(cells) + cell.len(),
    decreases cells.len(),
{
    let updated = cells.update(i, cell);
    if i == cells.len() - 1 {
        assert(updated.drop_last() =~= cells.drop_last());
    } else {
        lemma_total_entropy_update(cells.drop_last(), i, cell);
        assert(updated.drop_last() =~= cells.drop_last().update(i, cell));
    }
}

/// Pruning yields a subset, which is smaller unless nothing was pruned.
pub proof fn lemma_revise(tiles: Seq<TileDefinition>, own: Set<usize>, d: int, other: Set<usize>)
    requires
        own.finite(),
    ensures
        revise(tiles, own, d, other).subset_of(own),
        revise(tiles, own, d, other).finite(),
        revise(tiles, own, d, other).len() <= own.len(),
        revise(tiles, own, d, other) != own ==> revise(tiles, own, d, other).len() < own.len(),
{
    let kept = revise(tiles, own, d, other);
    lemma_len_subset(kept, own);
    if kept.len() == own.len() {
        lemma_subset_equality(kept, own);
    }
}

/// What a visit of `i` changes: cell `i` alone, which keeps a subset of its
/// candidates; the stack grows at its end, by positions of cells that are
/// not collapsed, and only if cell `i` lost a candidate.
pub proof fn lemma_visit(tiles: Seq<TileDefinition>, w: Worklist, i: usize, neighs: Seq<(usize, usize)>)
    requires
        i < w.cells.len(),
        w.cells[i as int].finite(),
        forall|k: int| 0 <= k < neighs.len() ==> (#[trigger] neighs[k]).1 < w.cells.len() && neighs[k].1 != i,
    ensures
        ({
            let after = visit(tiles, w, i, neighs);
            &&& after.cells == w.cells.update(i as int, after.cells[i as int])
            &&& after.cells[i as int].subset_of(w.cells[i as int])
            &&& after.cells[i as int].finite()
            &&& after.cells[i as int].len() <= w.cells[i as int].len()
            &&& after.cells[i as int] == w.cells[i as int] ==> after == w
            &&& after.cells[i as int] != w.cells[i as int] ==> after.cells[i as int].len()
                < w.cells[i as int].len()
            &&& after.stack.len() >= w.stack.len()
            &&& after.stack.subrange(0, w.stack.len() as int) == w.stack
            &&& forall|k: int|
                w.stack.len() <= k < after.stack.len() ==> (#[trigger] after.stack[k]) < w.cells.len()
                    && w.cells[after.stack[k] as int].len() != 1 && after.stack[k] != i
        }),
    decreases neighs.len(),
{
    let after = visit(tiles, w, i, neighs);
    if neighs.len() == 0 {
        assert(w.cells.update(i as int, w.cells[i as int]) =~= w.cells);
        assert(w.stack.subrange(0, w.stack.len() as int) =~= w.stack);
    } else {
        let d = neighs[0].0;
        let j = neighs[0].1;
        let own = w.cells[i as int];
        let mid = visit_one(tiles, w, i, d, j);
        lemma_revise(tiles, own, d as int, w.cells[j as int]);
        let rest = neighs.drop_first();
        assert forall|k: int| 0 <= k < rest.len() implies (#[trigger] rest[k]).1 < mid.cells.len()
            && rest[k].1 != i by {
            assert(rest[k] == neighs[k + 1]);
        }
        lemma_visit(tiles, mid, i, rest);
        assert(after == visit(tiles, mid, i, rest));
        assert(after.cells =~= w.cells.update(i as int, after.cells[i as int]));
        assert(after.stack.subrange(0, w.stack.len() as int) =~= w.stack) by {
            assert(mid.stack.subrange(0, w.stack.len() as int) =~= w.stack);
            assert(after.stack.subrange(0, mid.stack.len() as int) == mid.stack);
            assert forall|k: int| 0 <= k < w.stack.len() implies after.stack[k] == w.stack[k] by {
                assert(after.stack.subrange(0, mid.stack.len() as int)[k] == mid.stack[k]);
            }
        }
        if after.cells[i as int] == own {
            assert(mid.cells[i as int].subset_of(own));
            assert(mid.cells[i as int] =~= own);
            assert(mid.cells =~= w.cells);
        }
        assert forall|k: int| w.stack.len() <= k < after.stack.len() implies (
        #[trigger] after.stack[k]) < w.cells.len() && w.cells[after.stack[k] as int].len() != 1
            && after.stack[k] != i by {
            if k < mid.stack.len() {
                assert(after.stack.subrange(0, mid.stack.len() as int)[k] == mid.stack[k]);
                assert(after.stack[k] == j);
            } else {
                assert(mid.cells[after.stack[k] as int] == w.cells[after.stack[k] as int]);
            }
        }
    }
}

/// One candidate set agrees with another across `d`: each tile of the first
/// fits each tile of the second.
pub open spec fn agree(tiles: Seq<TileDefinition>, a: Set<usize>, d: int, b: Set<usize>) -> bool {
    forall|t: usize| a.contains(t) ==> fits_all(tiles, t, d, b)
}

/// After a visit of `i`, what is left in cell `i` agrees with every listed
/// neighbor that is not collapsed.
pub proof fn lemma_visit_agrees(tiles: Seq<TileDefinition>, w: Worklist, i: usize, neighs: Seq<(usize, usize)>)
    requires
        i < w.cells.len(),
        w.cells[i as int].finite(),
        forall|k: int| 0 <= k < neighs.len() ==> (#[trigger] neighs[k]).1 < w.cells.len() && neighs[k].1 != i,
    ensures
        forall|k: int|
            0 <= k < neighs.len() && w.cells[(#[trigger] neighs[k]).1 as int].len() != 1 ==> agree(
                tiles,
                visit(tiles, w, i, neighs).cells[i as int],
                neighs[k].0 as int,
                w.cells[neighs[k].1 as int],
            ),
    decreases neighs.len(),
{
    if neighs.len() > 0 {
        let d = neighs[0].0;
        let j = neighs[0].1;
        let own = w.cells[i as int];
        let mid = visit_one(tiles, w, i, d, j);
        let rest = neighs.drop_first();
        let after = visit(tiles, w, i, neighs);
        lemma_revise(tiles, own, d as int, w.cells[j as int]);
        assert forall|k: int| 0 <= k < rest.len() implies (#[trigger] rest[k]).1 < mid.cells.len()
            && rest[k].1 != i by {
            assert(rest[k] == neighs[k + 1]);
        }
        lemma_visit(tiles, mid, i, rest);
        lemma_visit_agrees(tiles, mid, i, rest);
        assert(after == visit(tiles, mid, i, rest));
        assert forall|k: int|
            0 <= k < neighs.len() && w.cells[(#[trigger] neighs[k]).1 as int].len() != 1 implies agree(
            tiles,
            after.cells[i as int],
            neighs[k].0 as int,
            w.cells[neighs[k].1 as int],
        ) by {
            if k == 0 {
                assert(agree(tiles, mid.cells[i as int], d as int, w.cells[j as int])) by {
                    let kept = revise(tiles, own, d as int, w.cells[j as int]);
                    assert(mid.cells[i as int] == kept);
                }
            } else {
                assert(rest[k - 1] == neighs[k]);
                assert(mid.cells[neighs[k].1 as int] == w.cells[neighs[k].1 as int]);
            }
        }
    }
}

/// Tile `t` fits every candidate of every listed neighbor that is not
/// collapsed.
pub open spec fn fits_listed(
    tiles: Seq<TileDefinition>,
    cells: Seq<Set<usize>>,
    t: usize,
    neighs: Seq<(usize, usize)>,
) -> bool {
    forall|k: int|
        0 <= k < neighs.len() && cells[(#[trigger] neighs[k]).1 as int].len() != 1 ==> fits_all(
            tiles,
            t,
            neighs[k].0 as int,
            cells[neighs[k].1 as int],
        )
}

/// A visit of a cell that holds `t` alone leaves it `t` if `t` fits what is
/// possible around it, and leaves it empty otherwise.
pub proof fn lemma_visit_single(
    tiles: Seq<TileDefinition>,
    w: Worklist,
    i: usize,
    neighs: Seq<(usize, usize)>,
    t: usize,
)
    requires
        i < w.cells.len(),
        w.cells[i as int] == set![t],
        forall|k: int| 0 <= k < neighs.len() ==> (#[trigger] neighs[k]).1 < w.cells.len() && neighs[k].1 != i,
    ensures
        visit(tiles, w, i, neighs).cells[i as int] == if fits_listed(tiles, w.cells, t, neighs) {
            set![t]
        } else {
            Set::<usize>::empty()
        },
    decreases neighs.len(),
{
    if neighs.len() > 0 {
        let d = neighs[0].0;
        let j = neighs[0].1;
        let mid = visit_one(tiles, w, i, d, j);
        let rest = neighs.drop_first();
        let after = visit(tiles, w, i, neighs);
        let kept = revise(tiles, set![t], d as int, w.cells[j as int]);
        assert forall|k: int| 0 <= k < rest.len() implies (#[trigger] rest[k]).1 < mid.cells.len()
            && rest[k].1 != i by {
            assert(rest[k] == neighs[k + 1]);
        }
        assert(after == visit(tiles, mid, i, rest));
        if w.cells[j as int].len() == 1 || fits_all(tiles, t, d as int, w.cells[j as int]) {
            if w.cells[j as int].len() != 1 {
                assert(kept =~= set![t]);
            }
            assert(mid == w);
            lemma_visit_single(tiles, mid, i, rest, t);
            if fits_listed(tiles, w.cells, t, rest) {
                assert forall|k: int|
                    0 <= k < neighs.len() && w.cells[(#[trigger] neighs[k]).1 as int].len()
                        != 1 implies fits_all(tiles, t, neighs[k].0 as int, w.cells[neighs[k].1 as int]) by {
                    if k > 0 {
                        assert(rest[k - 1] == neighs[k]);
                    }
                }
            } else {
                let k = choose|k: int|
                    0 <= k < rest.len() && w.cells[(#[trigger] rest[k]).1 as int].len() != 1 && !fits_all(
                        tiles,
                        t,
                        rest[k].0 as int,
                        w.cells[rest[k].1 as int],
                    );
                assert(neighs[k + 1] == rest[k]);
            }
        } else {
            assert(kept =~= Set::<usize>::empty());
            assert(!kept.contains(t));
            assert(mid.cells[i as int] == kept);
            assert(mid.cells[i as int].finite());
            lemma_visit(tiles, mid, i, rest);
            assert(after.cells[i as int] =~= Set::<usize>::empty());
        }
    }
}

/// One round on a valid grid leaves a valid grid and a valid stack, and
/// either prunes a candidate or only shortens the stack.
pub proof fn lemma_round(grid: GridView, stack: Seq<usize>)
    requires
        grid.valid(),
        stack_valid(stack, grid.cells.len()),
        stack.len() > 0,
    ensures
        ({
            let next = pop_and_visit(grid, stack);
            let i = stack.last() as int;
            &&& grid.with_cells(next.cells).valid()
            &&& stack_valid(next.stack, grid.cells.len())
            &&& next.cells == grid.cells.update(i, next.cells[i])
            &&& next.cells[i].subset_of(grid.cells[i])
            &&& next.cells == grid.cells ==> next.stack == stack.drop_last()
            &&& next.cells != grid.cells ==> total_entropy(next.cells) < total_entropy(grid.cells)
            &&& forall|k: int|
                stack.len() - 1 <= k < next.stack.len() ==> grid.cells[(#[trigger] next.stack[k]) as int].len()
                    != 1
            &&& forall|k: int|
                stack.len() - 1 <= k < next.stack.len() ==> (#[trigger] next.stack[k]) != stack.last()
            &&& next.stack.len() >= stack.len() - 1
            &&& next.stack.subrange(0, stack.len() - 1) == stack.drop_last()
        }),
{
    let i = stack.last();
    let neighs = neighbor_seq(i, grid.width, grid.height);
    let w = Worklist { cells: grid.cells, stack: stack.drop_last() };
    assert forall|k: int| 0 <= k < neighs.len() implies (#[trigger] neighs[k]).1 < w.cells.len()
        && neighs[k].1 != i by {
        assert(neighs.contains(neighs[k]));
        lemma_neighbor_seq_contains(i, grid.width, grid.height, neighs[k].0, neighs[k].1);
        lemma_neighbor_in_range(i, grid.width, grid.height, neighs[k].0 as int, neighs[k].1);
    }
    assert(cell_valid(grid.cells[i as int], grid.tiles.len()));
    lemma_visit(grid.tiles, w, i, neighs);
    let next = pop_and_visit(grid, stack);
    lemma_total_entropy_update(grid.cells, i as int, next.cells[i as int]);
    assert forall|k: int| 0 <= k < next.cells.len() implies cell_valid(
        #[trigger] next.cells[k],
        grid.tiles.len(),
    ) by {
        assert(cell_valid(grid.cells[k], grid.tiles.len()));
    }
    assert forall|k: int| 0 <= k < next.stack.len() implies #[trigger] next.stack[k]
        < grid.cells.len() by {
        if k < w.stack.len() {
            assert(next.stack.subrange(0, w.stack.len() as int)[k] == w.stack[k]);
            assert(w.stack[k] == stack[k]);
        }
    }
    if next.cells != grid.cells {
        assert(next.cells[i as int] != grid.cells[i as int]) by {
            if next.cells[i as int] == grid.cells[i as int] {
                assert(next.cells =~= grid.cells);
            }
        }
    }
}

/// The candidates left while `i` is pruned against a neighbor, when the
/// first `k` of its listed candidates have been tested.
spec fn partly_revised(tiles: Seq<TileDefinition>, own: Seq<usize>, k: int, d: int, other: Set<usize>) -> Set<
    usize,
> {
    Set::new(
        |t: usize|
            own.contains(t) && (fits_all(tiles, t, d, other) || own.subrange(k, own.len() as int).contains(
                t,
            )),
    )
}

/// Before the first test nothing is pruned; after the last, the cell is
/// pruned against the neighbor.
proof fn lemma_partly_revised_ends(tiles: Seq<TileDefinition>, own: Seq<usize>, d: int, other: Set<usize>)
    ensures
        partly_revised(tiles, own, 0, d, other) == own.to_set(),
        partly_revised(tiles, own, own.len() as int, d, other) == revise(tiles, own.to_set(), d, other),
{
    assert(own.subrange(0, own.len() as int) =~= own);
    assert(partly_revised(tiles, own, 0, d, other) =~= own.to_set());
    assert(own.subrange(own.len() as int, own.len() as int) =~= Seq::<usize>::empty());
    assert(partly_revised(tiles, own, own.len() as int, d, other) =~= revise(
        tiles,
        own.to_set(),
        d,
        other,
    ));
}

/// Testing one more candidate removes it or leaves the cell as it is.
proof fn lemma_partly_revised_step(tiles: Seq<TileDefinition>, own: Seq<usize>, k: int, d: int, other: Set<usize>)
    requires
        own.no_duplicates(),
        0 <= k < own.len(),
    ensures
        partly_revised(tiles, own, k, d, other).contains(own[k]),
        partly_revised(tiles, own, k + 1, d, other) == if fits_all(tiles, own[k], d, other) {
            partly_revised(tiles, own, k, d, other)
        } else {
            partly_revised(tiles, own, k, d, other).remove(own[k])
        },
{
    let before = partly_revised(tiles, own, k, d, other);
    let after = partly_revised(tiles, own, k + 1, d, other);
    let tail = own.subrange(k, own.len() as int);
    let shorter = own.subrange(k + 1, own.len() as int);
    assert(tail[0] == own[k]);
    assert(own.contains(own[k]));
    assert forall|t: usize| tail.contains(t) <==> t == own[k] || shorter.contains(t) by {
        if tail.contains(t) {
            let m = choose|m: int| 0 <= m < tail.len() && tail[m] == t;
            if m > 0 {
                assert(shorter[m - 1] == t);
            }
        }
        if shorter.contains(t) {
            let m = choose|m: int| 0 <= m < shorter.len() && shorter[m] == t;
            assert(tail[m + 1] == t);
        }
    }
    assert(!shorter.contains(own[k])) by {
        if shorter.contains(own[k]) {
            let m = choose|m: int| 0 <= m < shorter.len() && shorter[m] == own[k];
            assert(own[k + 1 + m] == own[k]);
        }
    }
    if fits_all(tiles, own[k], d, other) {
        assert(after =~= before);
    } else {
        assert(after =~= before.remove(own[k]));
    }
}

/// Whether `t` fits every listed tile across `d`.
fn fits_every(tiles: &Vec<TileDefinition>, t: usize, d: usize, others: &Vec<usize>) -> (r: bool)
    requires
        t < tiles.len(),
        d < 4,
        forall|k: int| 0 <= k < others@.len() ==> others@[k] < tiles.len(),
    ensures
        r == fits_all(tiles@, t, d as int, others@.to_set()),
{
    let mut k: usize = 0;
    while k < others.len()
        invariant
            k <= others.len(),
            t < tiles.len(),
            d < 4,
            forall|m: int| 0 <= m < others@.len() ==> others@[m] < tiles.len(),
            forall|m: int| 0 <= m < k ==> fits(tiles@, t, d as int, others@[m]),
        decreases others.len() - k,
    {
        if !tiles_fit(tiles, t, d, others[k]) {
            assert(others@.to_set().contains(others@[k as int])) by {
                assert(others@.contains(others@[k as int]));
            }
            return false;
        }
        k += 1;
    }
    assert forall|n: usize| others@.to_set().contains(n) implies fits(tiles@, t, d as int, n) by {
        let m = choose|m: int| 0 <= m < others@.len() && others@[m] == n;
        assert(fits(tiles@, t, d as int, others@[m]));
    }
    true
}

/// Whether `j` is on the stack.
fn queued(stack: &Vec<usize>, j: usize) -> (r: bool)
    ensures
        r == stack@.contains(j),
{
    let mut k: usize = 0;
    while k < stack.len()
        invariant
            k <= stack.len(),
            forall|m: int| 0 <= m < k ==> stack@[m] != j,
        decreases stack.len() - k,
    {
        if stack[k] == j {
            return true;
        }
        k += 1;
    }
    false
}

/// Prunes cell `i` against cell `j`, its neighbor in direction `d`: every
/// candidate of `i` that does not fit all candidates of `j` is removed.
/// Returns whether a candidate was removed.
pub fn prune_against(grid: &mut Grid, i: usize, d: usize, j: usize) -> (changed: bool)
    requires
        old(grid).wf(),
        i < old(grid)@.cells.len(),
        j < old(grid)@.cells.len(),
        i != j,
        d < 4,
    ensures
        final(grid).wf(),
        final(grid)@ == old(grid)@.with_cells(
            old(grid)@.cells.update(
                i as int,
                revise(old(grid)@.tiles, old(grid)@.cells[i as int], d as int, old(grid)@.cells[j as int]),
            ),
        ),
        changed == (final(grid)@.cells[i as int] != old(grid)@.cells[i as int]),
{
    let others = grid.cells[j].candidates();
    let own = grid.cells[i].candidates();
    let ghost other = grid@.cells[j as int];
    let ghost before = grid@;
    proof {
        lemma_partly_revised_ends(grid@.tiles, own@, d as int, other);
        assert(cell_valid(grid@.cells[j as int], grid@.tiles.len()));
        assert(cell_valid(grid@.cells[i as int], grid@.tiles.len()));
        assert(grid@.cells[j as int] == grid.cells@[j as int]@);
        assert(grid@.cells[i as int] == grid.cells@[i as int]@);
        assert forall|k: int| 0 <= k < others@.len() implies others@[k] < grid.tiles.len() by {
            assert(others@.contains(others@[k]));
            assert(others@.to_set().contains(others@[k]));
        }
        assert(grid@.cells =~= before.cells.update(i as int, own@.to_set()));
    }
    let mut changed = false;
    let mut k: usize = 0;
    while k < own.len()
        invariant
            k <= own.len(),
            grid.wf(),
            own@.no_duplicates(),
            own@.to_set() == before.cells[i as int],
            others@.to_set() == other,
            other == before.cells[j as int],
            forall|m: int| 0 <= m < others@.len() ==> others@[m] < grid.tiles.len(),
            i < before.cells.len(),
            j < before.cells.len(),
            i != j,
            d < 4,
            before.valid(),
            grid@ == before.with_cells(
                before.cells.update(i as int, partly_revised(before.tiles, own@, k as int, d as int, other)),
            ),
            changed == (partly_revised(before.tiles, own@, k as int, d as int, other) != own@.to_set()),
        decreases own.len() - k,
    {
        let t = own[k];
        let ghost current = grid@;
        let ghost held = grid.cells@;
        proof {
            lemma_partly_revised_step(before.tiles, own@, k as int, d as int, other);
            assert(own@.contains(t));
            assert(own@.to_set().contains(t));
        }
        if !fits_every(&grid.tiles, t, d, &others) {
            if grid.cells[i].restrict(t) {
                changed = true;
            }
            proof {
                let next = partly_revised(before.tiles, own@, k + 1, d as int, other);
                assert(!next.contains(t));
                assert(grid.cells@.len() == held.len());
                assert(current.cells[i as int] == held[i as int]@);
                assert(grid@.cells[i as int] == grid.cells@[i as int]@);
                assert(grid@.cells[i as int] == next);
                assert forall|m: int| 0 <= m < held.len() && m != i implies grid@.cells[m]
                    == before.cells[m] by {
                    assert(grid.cells@[m] == held[m]);
                    assert(current.cells[m] == held[m]@);
                }
                assert(grid@.cells =~= before.cells.update(i as int, next));
                assert forall|m: int| 0 <= m < grid@.cells.len() implies cell_valid(
                    #[trigger] grid@.cells[m],
                    grid@.tiles.len(),
                ) by {
                    assert(cell_valid(current.cells[m], current.tiles.len()));
                }
            }
        }
        k += 1;
    }
    changed
}

/// Works off the worklist that holds `start` alone.
pub fn propagate(grid: &mut Grid, start: usize)
    requires
        old(grid).wf(),
        start < old(grid)@.cells.len(),
    ensures
        final(grid).wf(),
        final(grid)@ == old(grid)@.with_cells(propagated(old(grid)@, seq![start])),
{
    let mut stack: Vec<usize> = Vec::new();
    stack.push(start);
    let ghost initial = grid@;
    proof {
        assert(stack@ =~= seq![start]);
    }
    while stack.len() > 0
        invariant
            grid.wf(),
            stack_valid(stack@, grid@.cells.len()),
            grid@ == initial.with_cells(grid@.cells),
            propagated(grid@, stack@) == propagated(initial, seq![start]),
        decreases total_entropy(grid@.cells), stack@.len(),
    {
        let ghost round_grid = grid@;
        let ghost round_stack = stack@;
        let i = stack.pop().unwrap();
        let neighs = neighbors(i, grid.width, grid.height);
        let ghost w0 = Worklist { cells: grid@.cells, stack: stack@ };
        proof {
            lemma_round(round_grid, round_stack);
            assert(neighs@.skip(0) =~= neighs@);
        }
        let mut k: usize = 0;
        while k < neighs.len()
            invariant
                k <= neighs.len(),
                grid.wf(),
                i < grid@.cells.len(),
                grid@ == initial.with_cells(grid@.cells),
                neighs@ == neighbor_seq(i, grid@.width, grid@.height),
                visit(grid@.tiles, Worklist { cells: grid@.cells, stack: stack@ }, i, neighs@.skip(k as int))
                    == visit(grid@.tiles, w0, i, neighs@),
            decreases neighs.len() - k,
        {
            let d = neighs[k].0;
            let j = neighs[k].1;
            let ghost w = Worklist { cells: grid@.cells, stack: stack@ };
            proof {
                assert(neighs@.contains(neighs@[k as int]));
                lemma_neighbor_seq_contains(i, grid@.width, grid@.height, d, j);
                lemma_neighbor_in_range(i, grid@.width, grid@.height, d as int, j);
                let rest = neighs@.skip(k as int);
                assert(rest[0] == neighs@[k as int]);
                assert(rest.drop_first() =~= neighs@.skip(k + 1));
            }
            if !grid.cells[j].is_collapsed() {
                let changed = prune_against(grid, i, d, j);
                if changed {
                    if !queued(&stack, j) {
                        stack.push(j);
                    }
                } else {
                    assert(grid@.cells =~= w.cells);
                }
            }
            assert(Worklist { cells: grid@.cells, stack: stack@ } == visit_one(grid@.tiles, w, i, d, j));
            k += 1;
        }
        proof {
            assert(neighs@.skip(neighs@.len() as int) =~= Seq::<(usize, usize)>::empty());
            let next = pop_and_visit(round_grid, round_stack);
            assert(next == Worklist { cells: grid@.cells, stack: stack@ });
            assert(grid@ == round_grid.with_cells(next.cells));
        }
    }
}

} // verus!
