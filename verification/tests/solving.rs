use rand::rngs::StdRng;
use rand::SeedableRng;
use wavefront::catalog::opposite;
use wavefront::catalog::pipe_tiles;
use wavefront::catalog::tiles_fit;
use wavefront::catalog::TileDefinition;
use wavefront::error::ContradictionError;
use wavefront::grid::Grid;
use wavefront::propagation::propagate;
use wavefront::propagation::prune_against;
use wavefront::ranking::keep_entropy;
use wavefront::render::render;
use wavefront::solver::open_entries;
use wavefront::solver::ranked;
use wavefront::solver::resolve;
use wavefront::solver::run;
use wavefront::solver::select;
use wavefront::solver::wfc;

fn tile(glyph: char, edges: [u8; 4]) -> TileDefinition {
    TileDefinition { glyph, edges }
}

/// 'a' shows 0 everywhere; 'd' shows 1 to the right and 0 elsewhere.
fn lopsided() -> Vec<TileDefinition> {
    vec![tile('a', [0, 0, 0, 0]), tile('d', [0, 0, 0, 1])]
}

/// 'A' shows 0 everywhere, 'B' shows 1 everywhere.
fn exclusive() -> Vec<TileDefinition> {
    vec![tile('A', [0, 0, 0, 0]), tile('B', [1, 1, 1, 1])]
}

/// Two tiles that fit each other on every edge.
fn agreeable() -> Vec<TileDefinition> {
    vec![tile('x', [0, 0, 0, 0]), tile('y', [0, 0, 0, 0])]
}

fn cells(grid: &Grid) -> Vec<Vec<usize>> {
    (0..grid.len()).map(|i| grid.cell(i).candidates()).collect()
}

fn entropies(grid: &Grid) -> Vec<usize> {
    (0..grid.len()).map(|i| grid.cell(i).entropy()).collect()
}

fn adjacent_tiles_match(grid: &Grid) -> bool {
    for i in 0..grid.len() {
        for (d, j) in grid.neighbors_of(i) {
            let t = grid.cell(i).tile().unwrap();
            let n = grid.cell(j).tile().unwrap();
            if grid.tiles()[t].edges[d] != grid.tiles()[n].edges[opposite(d)] {
                return false;
            }
            if !tiles_fit(grid.tiles(), t, d, n) {
                return false;
            }
        }
    }
    true
}

#[test]
fn single_cell_collapses_in_one_step() {
    for seed in 0..20u64 {
        let mut rng = StdRng::seed_from_u64(seed);
        let mut grid = Grid::create(1, 1, pipe_tiles()).ok().unwrap();
        assert_eq!(wfc(&mut grid, &mut rng), Ok(false));
        assert!(grid.cell(0).is_collapsed());
        assert!(grid.is_fully_collapsed());
        let held = grid.cell(0).tile();
        assert_eq!(wfc(&mut grid, &mut rng), Ok(true));
        assert_eq!(grid.cell(0).tile(), held);
    }
}

#[test]
fn step_on_a_collapsed_grid_does_nothing() {
    let mut rng = StdRng::seed_from_u64(3);
    let mut grid = Grid::create(3, 3, vec![tile('+', [1, 1, 1, 1])]).ok().unwrap();
    assert_eq!(wfc(&mut grid, &mut rng), Ok(true));
    assert_eq!(cells(&grid), vec![vec![0]; 9]);
    assert!(adjacent_tiles_match(&grid));
}

#[test]
fn resolve_keeps_a_tile_that_fits_all_around() {
    let mut grid = Grid::create(2, 1, lopsided()).ok().unwrap();
    assert!(resolve(&mut grid, 0, 0));
    assert_eq!(cells(&grid), vec![vec![0], vec![0, 1]]);
    assert!(resolve(&mut grid, 1, 1));
    assert_eq!(cells(&grid), vec![vec![0], vec![1]]);
    assert!(grid.is_fully_collapsed());
    assert!(adjacent_tiles_match(&grid));
    let text: String = render(&grid).into_iter().collect();
    assert_eq!(text, "ad\n");
}

#[test]
fn resolve_prunes_the_visited_cell() {
    let mut grid = Grid::create(2, 1, lopsided()).ok().unwrap();
    assert!(resolve(&mut grid, 0, 1));
    assert_eq!(cells(&grid), vec![vec![], vec![0, 1]]);
    let text: String = render(&grid).into_iter().collect();
    assert_eq!(text, "02\n");
}

#[test]
fn resolve_propagates_along_the_row() {
    let mut grid = Grid::create(3, 1, lopsided()).ok().unwrap();
    assert!(resolve(&mut grid, 0, 1));
    assert_eq!(cells(&grid), vec![vec![], vec![0], vec![0, 1]]);
    assert_eq!(grid.max_entropy_among_uncollapsed(), Some(2));
    assert!(!grid.is_fully_collapsed());
}

#[test]
fn resolve_propagates_back_to_the_start_of_the_row() {
    let mut grid = Grid::create(3, 1, lopsided()).ok().unwrap();
    assert!(resolve(&mut grid, 2, 1));
    assert_eq!(cells(&grid), vec![vec![0, 1], vec![], vec![]]);
}

#[test]
fn resolve_refuses_what_is_not_there() {
    let mut grid = Grid::create(2, 1, lopsided()).ok().unwrap();
    assert!(!resolve(&mut grid, 2, 0));
    assert!(!resolve(&mut grid, 0, 2));
    assert_eq!(cells(&grid), vec![vec![0, 1], vec![0, 1]]);
    assert!(resolve(&mut grid, 0, 0));
    assert!(!resolve(&mut grid, 0, 1));
    assert_eq!(cells(&grid), vec![vec![0], vec![0, 1]]);
}

#[test]
fn prune_against_removes_what_does_not_fit_every_candidate() {
    let mut grid = Grid::create(2, 1, lopsided()).ok().unwrap();
    assert!(prune_against(&mut grid, 0, 3, 1));
    assert_eq!(cells(&grid), vec![vec![0], vec![0, 1]]);
    assert!(!prune_against(&mut grid, 0, 3, 1));
    // Both tiles show 0 to the left, as 'a' does to the right.
    assert!(!prune_against(&mut grid, 1, 1, 0));
    assert_eq!(cells(&grid), vec![vec![0], vec![0, 1]]);
    // Neither fits both 'a' and 'd' on its left.
    let mut grid = Grid::create(2, 1, lopsided()).ok().unwrap();
    assert!(prune_against(&mut grid, 1, 1, 0));
    assert_eq!(cells(&grid), vec![vec![0, 1], vec![]]);
}

#[test]
fn propagate_visits_what_it_queues() {
    let mut grid = Grid::create(3, 1, lopsided()).ok().unwrap();
    propagate(&mut grid, 0);
    // Cell 0 loses 'd', cell 1 is queued and loses 'd' against cell 2.
    assert_eq!(cells(&grid), vec![vec![0], vec![0], vec![0, 1]]);
    let mut grid = Grid::create(3, 1, lopsided()).ok().unwrap();
    propagate(&mut grid, 2);
    // No tile fits both 'a' and 'd' on its left: cells 2 and 1 lose all.
    assert_eq!(cells(&grid), vec![vec![0, 1], vec![], vec![]]);
}

#[test]
fn propagate_leaves_a_grid_of_agreeable_tiles_alone() {
    let mut grid = Grid::create(3, 3, agreeable()).ok().unwrap();
    propagate(&mut grid, 4);
    assert_eq!(cells(&grid), vec![vec![0, 1]; 9]);
}

#[test]
fn open_entries_lists_positions_in_order() {
    let mut grid = Grid::create(3, 1, lopsided()).ok().unwrap();
    assert_eq!(open_entries(&grid), vec![(0, 2), (1, 2), (2, 2)]);
    assert!(resolve(&mut grid, 2, 1));
    assert_eq!(open_entries(&grid), vec![(0, 2), (1, 0), (2, 0)]);
    let mut grid = Grid::create(3, 1, lopsided()).ok().unwrap();
    assert!(resolve(&mut grid, 0, 1));
    assert_eq!(open_entries(&grid), vec![(0, 0), (2, 2)]);
}

#[test]
fn ranked_orders_by_entropy_and_keeps_ties_in_place() {
    let mut grid = Grid::create(3, 1, lopsided()).ok().unwrap();
    assert!(resolve(&mut grid, 2, 1));
    assert_eq!(ranked(&grid), vec![(1, 0), (2, 0), (0, 2)]);
}

#[test]
fn keep_entropy_keeps_the_matching_entries() {
    let entries = vec![(4, 0), (1, 2), (0, 3), (2, 2), (3, 0)];
    assert_eq!(keep_entropy(&entries, 2), vec![(1, 2), (2, 2)]);
    assert_eq!(keep_entropy(&entries, 0), vec![(4, 0), (3, 0)]);
    assert_eq!(keep_entropy(&entries, 1), Vec::<(usize, usize)>::new());
}

#[test]
fn select_draws_a_cell_of_the_asked_entropy() {
    let mut grid = Grid::create(3, 1, lopsided()).ok().unwrap();
    assert!(resolve(&mut grid, 2, 1));
    let mut seen = vec![false; 3];
    for seed in 0..100u64 {
        let mut rng = StdRng::seed_from_u64(seed);
        assert_eq!(select(&grid, 2, &mut rng), Some(0));
        assert_eq!(select(&grid, 1, &mut rng), None);
        assert_eq!(select(&grid, 3, &mut rng), None);
        let empty = select(&grid, 0, &mut rng).unwrap();
        assert!(empty == 1 || empty == 2);
        seen[empty] = true;
    }
    assert_eq!(seen, vec![false, true, true]);
}

#[test]
fn select_passes_over_collapsed_cells() {
    let mut grid = Grid::create(2, 1, lopsided()).ok().unwrap();
    assert!(resolve(&mut grid, 0, 0));
    let mut rng = StdRng::seed_from_u64(5);
    assert_eq!(select(&grid, 1, &mut rng), None);
    assert_eq!(select(&grid, 2, &mut rng), Some(1));
}

#[test]
fn step_resolves_a_cell_of_maximum_entropy() {
    for seed in 0..50u64 {
        let mut rng = StdRng::seed_from_u64(seed);
        let mut grid = Grid::create(3, 1, lopsided()).ok().unwrap();
        assert!(resolve(&mut grid, 0, 1));
        // Cells: nothing, 'a', 'a' or 'd'. Only cell 2 has the maximum entropy.
        assert_eq!(wfc(&mut grid, &mut rng), Ok(false));
        assert_eq!(grid.cell(0).entropy(), 0);
        assert_eq!(grid.cell(1).candidates(), vec![0]);
        assert!(grid.cell(2).is_collapsed());
        // What is left is the empty cell: the next step cannot collapse it.
        let before = cells(&grid);
        assert_eq!(wfc(&mut grid, &mut rng), Err(ContradictionError {}));
        assert_eq!(cells(&grid), before);
    }
}

#[test]
fn two_cells_with_exclusive_tiles() {
    for seed in 0..50u64 {
        let mut rng = StdRng::seed_from_u64(seed);
        let mut grid = Grid::create(2, 1, exclusive()).ok().unwrap();
        // The resolved cell is pruned against the other tile next to it.
        assert_eq!(wfc(&mut grid, &mut rng), Ok(false));
        let mut after_first = entropies(&grid);
        after_first.sort();
        assert_eq!(after_first, vec![0, 2]);
        assert_eq!(wfc(&mut grid, &mut rng), Ok(false));
        let mut after_second = entropies(&grid);
        after_second.sort();
        assert_eq!(after_second, vec![0, 1]);
        assert_eq!(wfc(&mut grid, &mut rng), Err(ContradictionError {}));
        assert!(!grid.is_fully_collapsed());
    }
}

#[test]
fn two_cells_with_exclusive_tiles_by_hand() {
    let mut grid = Grid::create(2, 1, exclusive()).ok().unwrap();
    assert!(resolve(&mut grid, 0, 0));
    assert_eq!(cells(&grid), vec![vec![], vec![0, 1]]);
    assert!(resolve(&mut grid, 1, 1));
    assert_eq!(cells(&grid), vec![vec![], vec![1]]);
    let mut rng = StdRng::seed_from_u64(0);
    assert_eq!(run(&mut grid, &mut rng), Err(ContradictionError {}));
}

#[test]
fn run_collapses_a_grid_over_agreeable_tiles() {
    for seed in 0..20u64 {
        let mut rng = StdRng::seed_from_u64(seed);
        let mut grid = Grid::create(3, 2, agreeable()).ok().unwrap();
        assert_eq!(run(&mut grid, &mut rng), Ok(6));
        assert!(grid.is_fully_collapsed());
        assert_eq!(grid.max_entropy_among_uncollapsed(), None);
        assert!(adjacent_tiles_match(&grid));
        assert_eq!(wfc(&mut grid, &mut rng), Ok(true));
    }
}

#[test]
fn run_stops_within_one_step_per_cell() {
    for seed in 0..20u64 {
        let mut rng = StdRng::seed_from_u64(seed);
        let mut grid = Grid::create(5, 4, pipe_tiles()).ok().unwrap();
        let mut steps = 0;
        loop {
            match wfc(&mut grid, &mut rng) {
                Ok(false) => steps += 1,
                Ok(true) => {
                    assert!(grid.is_fully_collapsed());
                    assert!(adjacent_tiles_match(&grid));
                    break;
                },
                Err(ContradictionError {}) => {
                    assert!(!grid.is_fully_collapsed());
                    assert_eq!(grid.max_entropy_among_uncollapsed(), Some(0));
                    break;
                },
            }
            assert!(steps <= 20);
        }
    }
}

#[test]
fn entropy_never_grows() {
    for seed in 0..20u64 {
        let mut rng = StdRng::seed_from_u64(seed);
        let mut grid = Grid::create(4, 4, pipe_tiles()).ok().unwrap();
        let mut before = entropies(&grid);
        while wfc(&mut grid, &mut rng) == Ok(false) {
            let after = entropies(&grid);
            for i in 0..after.len() {
                assert!(after[i] <= before[i]);
            }
            before = after;
        }
    }
}

#[test]
fn collapsed_cells_keep_their_tile_from_step_to_step() {
    for seed in 0..20u64 {
        let mut rng = StdRng::seed_from_u64(seed);
        let mut grid = Grid::create(4, 4, lopsided()).ok().unwrap();
        let mut before = cells(&grid);
        while wfc(&mut grid, &mut rng) == Ok(false) {
            let after = cells(&grid);
            for i in 0..after.len() {
                if before[i].len() == 1 {
                    assert_eq!(after[i], before[i]);
                }
            }
            before = after;
        }
    }
}

#[test]
fn completed_grids_are_locally_consistent() {
    let mut completed = 0;
    for seed in 0..200u64 {
        let mut rng = StdRng::seed_from_u64(seed);
        let mut grid = Grid::create(2, 2, lopsided()).ok().unwrap();
        if run(&mut grid, &mut rng).is_ok() {
            assert!(grid.is_fully_collapsed());
            assert!(adjacent_tiles_match(&grid));
            completed += 1;
        } else {
            assert!(!grid.is_fully_collapsed());
        }
    }
    assert!(completed > 0);
}
