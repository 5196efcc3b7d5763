use wavefront::catalog::opposite;
use wavefront::catalog::pipe_tiles;
use wavefront::catalog::tiles_fit;
use wavefront::lattice::neighbors;

#[test]
fn opposite_swaps_facing_directions() {
    assert_eq!(opposite(0), 2);
    assert_eq!(opposite(1), 3);
    assert_eq!(opposite(2), 0);
    assert_eq!(opposite(3), 1);
}

#[test]
fn neighbors_of_the_middle() {
    assert_eq!(neighbors(4, 3, 3), vec![(0, 7), (1, 3), (2, 1), (3, 5)]);
}

#[test]
fn neighbors_of_the_corners() {
    assert_eq!(neighbors(0, 3, 3), vec![(0, 3), (3, 1)]);
    assert_eq!(neighbors(2, 3, 3), vec![(0, 5), (1, 1)]);
    assert_eq!(neighbors(6, 3, 3), vec![(2, 3), (3, 7)]);
    assert_eq!(neighbors(8, 3, 3), vec![(1, 7), (2, 5)]);
}

#[test]
fn neighbors_on_the_edges() {
    assert_eq!(neighbors(1, 3, 3), vec![(0, 4), (1, 0), (3, 2)]);
    assert_eq!(neighbors(3, 3, 3), vec![(0, 6), (2, 0), (3, 4)]);
    assert_eq!(neighbors(5, 3, 3), vec![(0, 8), (1, 4), (2, 2)]);
    assert_eq!(neighbors(7, 3, 3), vec![(1, 6), (2, 4), (3, 8)]);
}

#[test]
fn neighbors_of_a_single_cell() {
    assert_eq!(neighbors(0, 1, 1), Vec::<(usize, usize)>::new());
}

#[test]
fn neighbors_in_a_row_and_in_a_column() {
    assert_eq!(neighbors(0, 2, 1), vec![(3, 1)]);
    assert_eq!(neighbors(1, 2, 1), vec![(1, 0)]);
    assert_eq!(neighbors(0, 1, 2), vec![(0, 1)]);
    assert_eq!(neighbors(1, 1, 2), vec![(2, 0)]);
    assert_eq!(neighbors(1, 3, 1), vec![(1, 0), (3, 2)]);
}

#[test]
fn neighbors_in_a_large_grid() {
    assert_eq!(neighbors(0, 100, 100), vec![(0, 100), (3, 1)]);
    assert_eq!(neighbors(99, 100, 100), vec![(0, 199), (1, 98)]);
    assert_eq!(neighbors(5050, 100, 100), vec![(0, 5150), (1, 5049), (2, 4950), (3, 5051)]);
    assert_eq!(neighbors(9999, 100, 100), vec![(1, 9998), (2, 9899)]);
}

#[test]
fn neighbors_are_symmetric() {
    let (width, height) = (4usize, 3usize);
    for i in 0..width * height {
        for (d, j) in neighbors(i, width, height) {
            assert!(j < width * height);
            assert_ne!(i, j);
            assert!(neighbors(j, width, height).contains(&(opposite(d), i)));
        }
    }
}

#[test]
fn pipe_catalog_has_eleven_tiles() {
    let tiles = pipe_tiles();
    assert_eq!(tiles.len(), 11);
    let glyphs: Vec<char> = tiles.iter().map(|t| t.glyph).collect();
    assert_eq!(glyphs, vec!['┗', '┓', '┏', '┛', '━', '┃', '┣', '┫', '┳', '┻', '╋']);
    assert_eq!(tiles[0].edges, [1, 0, 0, 1]);
    assert_eq!(tiles[1].edges, [0, 1, 1, 0]);
    assert_eq!(tiles[2].edges, [0, 0, 1, 1]);
    assert_eq!(tiles[3].edges, [1, 1, 0, 0]);
    assert_eq!(tiles[4].edges, [0, 1, 0, 1]);
    assert_eq!(tiles[5].edges, [1, 0, 1, 0]);
    assert_eq!(tiles[6].edges, [1, 0, 1, 1]);
    assert_eq!(tiles[7].edges, [1, 1, 1, 0]);
    assert_eq!(tiles[8].edges, [0, 1, 1, 1]);
    assert_eq!(tiles[9].edges, [1, 1, 0, 1]);
    assert_eq!(tiles[10].edges, [1, 1, 1, 1]);
}

#[test]
fn tiles_fit_when_the_facing_codes_are_equal() {
    let tiles = pipe_tiles();
    // '┗' shows 1 to the right, '┓' shows 1 to the left.
    assert!(tiles_fit(&tiles, 0, 3, 1));
    // '┗' shows 1 to the right, '┏' shows 0 to the left.
    assert!(!tiles_fit(&tiles, 0, 3, 2));
    // '┗' shows 1 downwards, '┓' shows 1 upwards.
    assert!(tiles_fit(&tiles, 0, 0, 1));
    // '┗' shows 0 upwards, '┓' shows 0 downwards.
    assert!(tiles_fit(&tiles, 0, 2, 1));
    // '┗' shows 0 to the left, '┓' shows 0 to the right.
    assert!(tiles_fit(&tiles, 0, 1, 1));
    assert!(!tiles_fit(&tiles, 10, 1, 1));
}

#[test]
fn tiles_fit_is_symmetric() {
    let tiles = pipe_tiles();
    for t in 0..tiles.len() {
        for n in 0..tiles.len() {
            for d in 0..4 {
                assert_eq!(tiles_fit(&tiles, t, d, n), tiles_fit(&tiles, n, opposite(d), t));
            }
        }
    }
}
