use lib::ir::{Edge, EdgeStyle, EdgeStyleOverride, Graph, NodeStyle, Subgraph};
use lib::style::{
    merge_edge_style, merge_node_style, resolve_edge_style, resolve_node_style,
    resolve_subgraph_style,
};

fn s(x: &str) -> Option<String> {
    Some(x.to_string())
}

fn node_style(fill: Option<String>, stroke: Option<String>, width: Option<f32>) -> NodeStyle {
    NodeStyle {
        fill,
        stroke,
        text_color: None,
        stroke_width_bits: width.map(f32::to_bits),
        stroke_dasharray: None,
        line_color: None,
    }
}

#[test]
fn edge_style_merges_default_and_override() {
    let mut graph = Graph::new();
    graph.edges.push(Edge {
        from: "A".to_string(),
        to: "B".to_string(),
        label: None,
        start_label: None,
        end_label: None,
        directed: true,
        arrow_start: false,
        arrow_end: true,
        style: EdgeStyle::Solid,
    });
    graph.edge_style_default = Some(EdgeStyleOverride {
        stroke: s("#111111"),
        stroke_width_bits: None,
        dasharray: None,
        label_color: s("#222222"),
    });
    graph.edge_styles.push((
        0,
        EdgeStyleOverride {
            stroke: None,
            stroke_width_bits: Some(4.0f32.to_bits()),
            dasharray: None,
            label_color: None,
        },
    ));
    let style = resolve_edge_style(0, &graph);
    assert_eq!(style.stroke.as_deref(), Some("#111111"));
    assert_eq!(style.stroke_width_bits.map(f32::from_bits), Some(4.0));
    assert_eq!(style.label_color.as_deref(), Some("#222222"));
}

#[test]
fn resolve_edge_style_without_styles_is_empty() {
    let graph = Graph::new();
    let style = resolve_edge_style(3, &graph);
    assert!(style.stroke.is_none());
    assert!(style.stroke_width_bits.is_none());
    assert!(style.dasharray.is_none());
    assert!(style.label_color.is_none());
}

#[test]
fn merge_edge_style_keeps_unset_fields() {
    let mut target = EdgeStyleOverride {
        stroke: s("red"),
        stroke_width_bits: Some(1.0f32.to_bits()),
        dasharray: s("2 2"),
        label_color: None,
    };
    let source = EdgeStyleOverride {
        stroke: s("blue"),
        stroke_width_bits: None,
        dasharray: None,
        label_color: s("green"),
    };
    merge_edge_style(&mut target, &source);
    assert_eq!(target.stroke.as_deref(), Some("blue"));
    assert_eq!(target.stroke_width_bits.map(f32::from_bits), Some(1.0));
    assert_eq!(target.dasharray.as_deref(), Some("2 2"));
    assert_eq!(target.label_color.as_deref(), Some("green"));
}

#[test]
fn merge_node_style_overrides_set_fields_only() {
    let mut target = node_style(s("white"), s("black"), Some(2.0));
    let source = node_style(None, s("gray"), None);
    merge_node_style(&mut target, &source);
    assert_eq!(target.fill.as_deref(), Some("white"));
    assert_eq!(target.stroke.as_deref(), Some("gray"));
    assert_eq!(target.stroke_width_bits.map(f32::from_bits), Some(2.0));
}

#[test]
fn resolve_node_style_applies_classes_in_order_then_own_style() {
    let mut graph = Graph::new();
    graph.class_defs.push(("warm".to_string(), node_style(s("red"), s("orange"), None)));
    graph.class_defs.push(("cold".to_string(), node_style(s("blue"), None, Some(3.0))));
    graph
        .node_classes
        .push(("A".to_string(), vec!["warm".to_string(), "cold".to_string(), "missing".to_string()]));
    graph.node_styles.push(("A".to_string(), node_style(None, s("black"), None)));
    let style = resolve_node_style("A", &graph);
    assert_eq!(style.fill.as_deref(), Some("blue"));
    assert_eq!(style.stroke.as_deref(), Some("black"));
    assert_eq!(style.stroke_width_bits.map(f32::from_bits), Some(3.0));

    let other = resolve_node_style("B", &graph);
    assert!(other.fill.is_none() && other.stroke.is_none());
}

#[test]
fn resolve_subgraph_style_needs_an_id() {
    let mut graph = Graph::new();
    graph.class_defs.push(("box".to_string(), node_style(s("gold"), None, None)));
    graph.subgraph_classes.push(("sg".to_string(), vec!["box".to_string()]));
    graph.subgraph_styles.push(("sg".to_string(), node_style(None, s("navy"), None)));
    let with_id = Subgraph {
        id: s("sg"),
        label: "Group".to_string(),
        nodes: vec![],
        direction: None,
    };
    let style = resolve_subgraph_style(&with_id, &graph);
    assert_eq!(style.fill.as_deref(), Some("gold"));
    assert_eq!(style.stroke.as_deref(), Some("navy"));

    let without_id = Subgraph { id: None, ..with_id };
    let style = resolve_subgraph_style(&without_id, &graph);
    assert!(style.fill.is_none() && style.stroke.is_none());
}
