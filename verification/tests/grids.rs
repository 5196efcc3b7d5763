use wavefront::catalog::pipe_tiles;
use wavefront::catalog::TileDefinition;
use wavefront::error::ConfigurationError;
use wavefront::grid::Grid;
use wavefront::render::first_digit;
use wavefront::render::render;

fn plain(glyph: char) -> TileDefinition {
    TileDefinition { glyph, edges: [0, 0, 0, 0] }
}

#[test]
fn create_fills_every_cell_with_the_full_range() {
    let grid = Grid::create(4, 3, pipe_tiles()).ok().unwrap();
    assert_eq!(grid.width(), 4);
    assert_eq!(grid.height(), 3);
    assert_eq!(grid.len(), 12);
    assert_eq!(grid.tiles().len(), 11);
    for i in 0..12 {
        assert_eq!(grid.cell(i).entropy(), 11);
        assert_eq!(grid.cell(i).candidates(), vec![0, 1, 2, 3, 4, 5, 6, 7, 8, 9, 10]);
    }
}

#[test]
fn create_refuses_a_grid_without_cells() {
    assert_eq!(Grid::create(0, 3, pipe_tiles()).err(), Some(ConfigurationError::EmptyGrid));
    assert_eq!(Grid::create(3, 0, pipe_tiles()).err(), Some(ConfigurationError::EmptyGrid));
    assert_eq!(Grid::create(0, 0, pipe_tiles()).err(), Some(ConfigurationError::EmptyGrid));
}

#[test]
fn create_refuses_an_empty_catalog() {
    assert_eq!(Grid::create(3, 3, Vec::new()).err(), Some(ConfigurationError::EmptyCatalog));
}

#[test]
fn create_reports_the_missing_cells_first() {
    assert_eq!(Grid::create(0, 3, Vec::new()).err(), Some(ConfigurationError::EmptyGrid));
}

#[test]
fn fresh_grid_is_not_collapsed() {
    let grid = Grid::create(2, 2, pipe_tiles()).ok().unwrap();
    assert!(!grid.is_fully_collapsed());
    assert_eq!(grid.max_entropy_among_uncollapsed(), Some(11));
}

#[test]
fn grid_over_one_tile_is_collapsed_from_the_start() {
    let grid = Grid::create(3, 2, vec![plain('x')]).ok().unwrap();
    assert!(grid.is_fully_collapsed());
    assert_eq!(grid.max_entropy_among_uncollapsed(), None);
    assert_eq!(grid.cell(5).tile(), Some(0));
}

#[test]
fn neighbors_of_follows_the_dimensions() {
    let grid = Grid::create(4, 3, pipe_tiles()).ok().unwrap();
    assert_eq!(grid.neighbors_of(0), vec![(0, 4), (3, 1)]);
    assert_eq!(grid.neighbors_of(5), vec![(0, 9), (1, 4), (2, 1), (3, 6)]);
    assert_eq!(grid.neighbors_of(11), vec![(1, 10), (2, 7)]);
}

#[test]
fn first_digit_of_a_number() {
    assert_eq!(first_digit(0), '0');
    assert_eq!(first_digit(7), '7');
    assert_eq!(first_digit(9), '9');
    assert_eq!(first_digit(10), '1');
    assert_eq!(first_digit(11), '1');
    assert_eq!(first_digit(99), '9');
    assert_eq!(first_digit(250), '2');
    assert_eq!(first_digit(4096), '4');
}

#[test]
fn render_shows_entropy_until_a_cell_is_collapsed() {
    let grid = Grid::create(3, 2, pipe_tiles()).ok().unwrap();
    let text: String = render(&grid).into_iter().collect();
    assert_eq!(text, "111\n111\n");
    let grid = Grid::create(2, 1, vec![plain('a'), plain('b'), plain('c')]).ok().unwrap();
    let text: String = render(&grid).into_iter().collect();
    assert_eq!(text, "33\n");
}

#[test]
fn render_shows_the_glyph_of_a_collapsed_cell() {
    let grid = Grid::create(2, 2, vec![plain('x')]).ok().unwrap();
    let text: String = render(&grid).into_iter().collect();
    assert_eq!(text, "xx\nxx\n");
}
