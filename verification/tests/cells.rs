use rand::rngs::StdRng;
use rand::SeedableRng;
use wavefront::cell::Tile;
use wavefront::error::ContradictionError;

#[test]
fn new_cell_allows_every_tile() {
    let tile = Tile::new(11);
    assert_eq!(tile.entropy(), 11);
    assert!(!tile.is_collapsed());
    assert_eq!(tile.candidates(), vec![0, 1, 2, 3, 4, 5, 6, 7, 8, 9, 10]);
    assert_eq!(tile.tile(), None);
    assert!(tile.allows(0));
    assert!(tile.allows(10));
    assert!(!tile.allows(11));
}

#[test]
fn new_cell_of_one_tile_is_collapsed() {
    let tile = Tile::new(1);
    assert_eq!(tile.entropy(), 1);
    assert!(tile.is_collapsed());
    assert_eq!(tile.tile(), Some(0));
}

#[test]
fn new_cell_without_tiles_is_empty() {
    let tile = Tile::new(0);
    assert_eq!(tile.entropy(), 0);
    assert!(!tile.is_collapsed());
    assert_eq!(tile.candidates(), Vec::<usize>::new());
    assert_eq!(tile.tile(), None);
}

#[test]
fn restrict_removes_one_candidate() {
    let mut tile = Tile::new(4);
    assert!(tile.restrict(2));
    assert_eq!(tile.candidates(), vec![0, 1, 3]);
    assert_eq!(tile.entropy(), 3);
}

#[test]
fn restrict_is_idempotent() {
    let mut tile = Tile::new(4);
    assert!(tile.restrict(1));
    assert!(!tile.restrict(1));
    assert_eq!(tile.candidates(), vec![0, 2, 3]);
    assert!(!tile.restrict(9));
    assert_eq!(tile.candidates(), vec![0, 2, 3]);
}

#[test]
fn restrict_down_to_nothing() {
    let mut tile = Tile::new(2);
    assert!(tile.restrict(0));
    assert!(tile.is_collapsed());
    assert_eq!(tile.tile(), Some(1));
    assert!(tile.restrict(1));
    assert_eq!(tile.entropy(), 0);
    assert!(!tile.is_collapsed());
}

#[test]
fn collapse_leaves_one_of_the_candidates() {
    for seed in 0..50u64 {
        let mut rng = StdRng::seed_from_u64(seed);
        let mut tile = Tile::new(11);
        assert!(tile.restrict(3));
        let picked = tile.collapse(&mut rng).unwrap();
        assert!(picked < 11);
        assert_ne!(picked, 3);
        assert!(tile.is_collapsed());
        assert_eq!(tile.entropy(), 1);
        assert_eq!(tile.tile(), Some(picked));
        assert_eq!(tile.candidates(), vec![picked]);
    }
}

#[test]
fn collapse_reaches_every_candidate() {
    let mut seen = vec![false; 4];
    for seed in 0..200u64 {
        let mut rng = StdRng::seed_from_u64(seed);
        let mut tile = Tile::new(4);
        seen[tile.collapse(&mut rng).unwrap()] = true;
    }
    assert_eq!(seen, vec![true, true, true, true]);
}

#[test]
fn collapse_is_reproducible_from_a_seed() {
    let mut first = StdRng::seed_from_u64(7);
    let mut second = StdRng::seed_from_u64(7);
    let mut a = Tile::new(11);
    let mut b = Tile::new(11);
    assert_eq!(a.collapse(&mut first), b.collapse(&mut second));
}

#[test]
fn collapse_of_a_collapsed_cell_keeps_its_tile() {
    let mut rng = StdRng::seed_from_u64(1);
    let mut tile = Tile::new(1);
    assert_eq!(tile.collapse(&mut rng), Ok(0));
    assert_eq!(tile.tile(), Some(0));
}

#[test]
fn collapse_of_an_empty_cell_is_a_contradiction() {
    let mut rng = StdRng::seed_from_u64(1);
    let mut tile = Tile::new(0);
    assert_eq!(tile.collapse(&mut rng), Err(ContradictionError {}));
    assert_eq!(tile.entropy(), 0);
}

#[test]
fn collapse_to_a_candidate() {
    let mut tile = Tile::new(5);
    assert!(tile.collapse_to(3));
    assert_eq!(tile.candidates(), vec![3]);
    assert!(tile.is_collapsed());
}

#[test]
fn collapse_to_something_else_changes_nothing() {
    let mut tile = Tile::new(5);
    assert!(tile.restrict(3));
    assert!(!tile.collapse_to(3));
    assert!(!tile.collapse_to(5));
    assert_eq!(tile.candidates(), vec![0, 1, 2, 4]);
}

#[test]
fn default_cell_is_empty() {
    let tile = Tile::default();
    assert_eq!(tile.entropy(), 0);
    assert_eq!(tile.candidates(), Vec::<usize>::new());
}

#[test]
fn restrict_reports_each_removal_once() {
    let mut tile = Tile::new(3);
    let removed: Vec<bool> = vec![2, 2, 0, 7, 1, 1].into_iter().map(|t| tile.restrict(t)).collect();
    assert_eq!(removed, vec![true, false, true, false, true, false]);
    assert_eq!(tile.entropy(), 0);
}
