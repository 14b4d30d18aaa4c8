use lib::metrics::LayoutStageMetrics;
use lib::types::GitGraphArrowLayout;

#[test]
fn total_us_adds_the_stages() {
    let m = LayoutStageMetrics {
        port_assignment_us: 10,
        edge_routing_us: 200,
        label_placement_us: 3000,
    };
    assert_eq!(m.total_us(), 3210);
}

#[test]
fn total_us_of_default_is_zero() {
    assert_eq!(LayoutStageMetrics::default().total_us(), 0);
}

#[test]
fn git_graph_arrow_layout_holds_its_fields() {
    let a = GitGraphArrowLayout { path: "M 0 0 L 1 1".to_string(), color_index: 2 };
    let b = a.clone();
    assert_eq!(b.path, "M 0 0 L 1 1");
    assert_eq!(b.color_index, 2);
}
