use lib::occupancy::EdgeOccupancy;

#[test]
fn occupancy_starts_empty() {
    let g = EdgeOccupancy::new();
    assert_eq!(g.weight_at((0, 0)), 0);
    assert_eq!(g.weight_at((-4, 7)), 0);
    assert_eq!(g.score_path(&vec![(0, 0), (1, 1)]), 0);
    assert_eq!(g.overlap_count(&vec![(0, 0), (1, 1)]), 0);
}

#[test]
fn occupancy_stamps_cell_and_neighbours() {
    let mut g = EdgeOccupancy::new();
    g.add_path(&vec![(5, 5)]);
    assert_eq!(g.weight_at((5, 5)), 3);
    assert_eq!(g.weight_at((4, 5)), 2);
    assert_eq!(g.weight_at((6, 5)), 2);
    assert_eq!(g.weight_at((5, 4)), 2);
    assert_eq!(g.weight_at((5, 6)), 2);
    assert_eq!(g.weight_at((4, 4)), 1);
    assert_eq!(g.weight_at((6, 6)), 1);
    assert_eq!(g.weight_at((4, 6)), 1);
    assert_eq!(g.weight_at((6, 4)), 1);
    assert_eq!(g.weight_at((7, 5)), 0);
    assert_eq!(g.weight_at((5, 3)), 0);
}

#[test]
fn occupancy_weights_add_up_along_a_path() {
    let mut g = EdgeOccupancy::new();
    g.add_path(&vec![(0, 0), (1, 0)]);
    assert_eq!(g.weight_at((0, 0)), 5);
    assert_eq!(g.weight_at((1, 0)), 5);
    assert_eq!(g.weight_at((1, 1)), 3);
    assert_eq!(g.weight_at((2, 0)), 2);
    assert_eq!(g.weight_at((-1, -1)), 1);
    g.add_path(&vec![(0, 0)]);
    assert_eq!(g.weight_at((0, 0)), 8);
}

#[test]
fn occupancy_weight_saturates() {
    let mut g = EdgeOccupancy::new();
    let path: Vec<(i32, i32)> = vec![(2, 2); 21846];
    g.add_path(&path);
    assert_eq!(g.weight_at((2, 2)), u16::MAX);
    assert_eq!(g.weight_at((2, 3)), 43692);
    assert_eq!(g.weight_at((3, 3)), 21846);
}

#[test]
fn occupancy_scores_and_counts_overlaps() {
    let mut g = EdgeOccupancy::new();
    g.add_path(&vec![(0, 0)]);
    let probe = vec![(0, 0), (1, 0), (1, 1), (2, 0), (0, 0)];
    assert_eq!(g.score_path(&probe), 3 + 2 + 1 + 0 + 3);
    assert_eq!(g.overlap_count(&probe), 4);
}

#[test]
fn occupancy_added_path_overlaps_itself() {
    let mut g = EdgeOccupancy::new();
    let path = vec![(10, 10), (10, 11), (10, 12), (11, 12)];
    g.add_path(&path);
    assert_eq!(g.overlap_count(&path), 4);
    assert!(path.iter().all(|&c| g.weight_at(c) >= 3));
}
