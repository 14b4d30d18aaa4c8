use lib::ir::{Direction, Edge, EdgeStyle};
use lib::routing::{
    build_edge_pair_counts, bump_side_load, edge_axis_is_horizontal, edge_pair_key,
    is_horizontal, side_is_vertical, side_load_for_node, side_slot, EdgeSide, SideLoads,
};

fn edge(from: &str, to: &str) -> Edge {
    Edge {
        from: from.to_string(),
        to: to.to_string(),
        label: None,
        start_label: None,
        end_label: None,
        directed: true,
        arrow_start: false,
        arrow_end: true,
        style: EdgeStyle::Solid,
    }
}

#[test]
fn horizontal_directions() {
    assert!(is_horizontal(Direction::LeftRight));
    assert!(is_horizontal(Direction::RightLeft));
    assert!(!is_horizontal(Direction::TopDown));
    assert!(!is_horizontal(Direction::BottomTop));
}

#[test]
fn upright_sides() {
    assert!(side_is_vertical(EdgeSide::Left));
    assert!(side_is_vertical(EdgeSide::Right));
    assert!(!side_is_vertical(EdgeSide::Top));
    assert!(!side_is_vertical(EdgeSide::Bottom));
    assert!(edge_axis_is_horizontal(EdgeSide::Right));
    assert!(!edge_axis_is_horizontal(EdgeSide::Bottom));
}

#[test]
fn side_slots_are_distinct() {
    assert_eq!(side_slot(EdgeSide::Left), 0);
    assert_eq!(side_slot(EdgeSide::Right), 1);
    assert_eq!(side_slot(EdgeSide::Top), 2);
    assert_eq!(side_slot(EdgeSide::Bottom), 3);
}

#[test]
fn side_loads_count_bumps_per_node_and_side() {
    let mut loads = SideLoads::new();
    assert_eq!(side_load_for_node(&loads, "A", EdgeSide::Top), 0);
    bump_side_load(&mut loads, "A", EdgeSide::Top);
    bump_side_load(&mut loads, "A", EdgeSide::Top);
    bump_side_load(&mut loads, "A", EdgeSide::Left);
    bump_side_load(&mut loads, "B", EdgeSide::Top);
    assert_eq!(side_load_for_node(&loads, "A", EdgeSide::Top), 2);
    assert_eq!(side_load_for_node(&loads, "A", EdgeSide::Left), 1);
    assert_eq!(side_load_for_node(&loads, "A", EdgeSide::Bottom), 0);
    assert_eq!(side_load_for_node(&loads, "B", EdgeSide::Top), 1);
    assert_eq!(side_load_for_node(&loads, "C", EdgeSide::Top), 0);
}

#[test]
fn edge_pair_key_orders_the_names() {
    assert_eq!(edge_pair_key(&edge("B", "A")), ("A".to_string(), "B".to_string()));
    assert_eq!(edge_pair_key(&edge("A", "B")), ("A".to_string(), "B".to_string()));
    assert_eq!(edge_pair_key(&edge("A", "A")), ("A".to_string(), "A".to_string()));
    assert_eq!(edge_pair_key(&edge("ab", "a")), ("a".to_string(), "ab".to_string()));
}

#[test]
fn edge_pair_counts_join_both_directions() {
    let edges = vec![edge("A", "B"), edge("B", "A"), edge("B", "C"), edge("A", "B")];
    let counts = build_edge_pair_counts(&edges);
    assert_eq!(
        counts,
        vec![
            (("A".to_string(), "B".to_string()), 3),
            (("B".to_string(), "C".to_string()), 1),
        ]
    );
    assert!(build_edge_pair_counts(&Vec::new()).is_empty());
}
