//! Resolution of node, subgraph and edge styles: class styles in the order
//! the classes are listed, then the element's own style, each field set by a
//! later style replacing the earlier value.
use vstd::prelude::*;

use crate::ir::{
    copy_text,
    EdgeStyleOverride,
    Graph,
    NodeStyle,
    Subgraph,
    find_by_index,
    find_by_name,
    index_get,
    map_get,
};

verus! {

/// `later` where it is set, else `earlier`.
pub open spec fn pick<T>(later: Option<T>, earlier: Option<T>) -> Option<T> {
    if later is Some {
        later
    } else {
        earlier
    }
}

/// A node style with no field set.
pub open spec fn empty_node_style() -> NodeStyle {
    NodeStyle {
        fill: None,
        stroke: None,
        text_color: None,
        stroke_width_bits: None,
        stroke_dasharray: None,
        line_color: None,
    }
}

/// An edge style with no field set.
pub open spec fn empty_edge_style() -> EdgeStyleOverride {
    EdgeStyleOverride { stroke: None, stroke_width_bits: None, dasharray: None, label_color: None }
}

/// `t` with each field that `s` sets taken from `s`.
pub open spec fn merged_node(t: NodeStyle, s: NodeStyle) -> NodeStyle {
    NodeStyle {
        fill: pick(s.fill, t.fill),
        stroke: pick(s.stroke, t.stroke),
        text_color: pick(s.text_color, t.text_color),
        stroke_width_bits: pick(s.stroke_width_bits, t.stroke_width_bits),
        stroke_dasharray: pick(s.stroke_dasharray, t.stroke_dasharray),
        line_color: pick(s.line_color, t.line_color),
    }
}

/// `t` with each field that `s` sets taken from `s`.
pub open spec fn merged_edge(t: EdgeStyleOverride, s: EdgeStyleOverride) -> EdgeStyleOverride {
    EdgeStyleOverride {
        stroke: pick(s.stroke, t.stroke),
        stroke_width_bits: pick(s.stroke_width_bits, t.stroke_width_bits),
        dasharray: pick(s.dasharray, t.dasharray),
        label_color: pick(s.label_color, t.label_color),
    }
}

impl Default for NodeStyle {
    fn default() -> (s: NodeStyle)
        ensures
            s == empty_node_style(),
    {
        NodeStyle {
            fill: None,
            stroke: None,
            text_color: None,
            stroke_width_bits: None,
            stroke_dasharray: None,
            line_color: None,
        }
    }
}

impl Default for EdgeStyleOverride {
    fn default() -> (s: EdgeStyleOverride)
        ensures
            s == empty_edge_style(),
    {
        EdgeStyleOverride { stroke: None, stroke_width_bits: None, dasharray: None, label_color: None }
    }
}

/// A copy of `s`.
fn copy_edge_style(s: &EdgeStyleOverride) -> (r: EdgeStyleOverride)
    ensures
        r == *s,
{
    EdgeStyleOverride {
        stroke: copy_text(&s.stroke),
        stroke_width_bits: s.stroke_width_bits,
        dasharray: copy_text(&s.dasharray),
        label_color: copy_text(&s.label_color),
    }
}

/// Lays `source` over `target`: each field that `source` sets replaces
/// `target`'s.
pub fn merge_node_style(target: &mut NodeStyle, source: &NodeStyle)
    ensures
        *final(target) == merged_node(*old(target), *source),
{
    if source.fill.is_some() {
        target.fill = copy_text(&source.fill);
    }
    if source.stroke.is_some() {
        target.stroke = copy_text(&source.stroke);
    }
    if source.text_color.is_some() {
        target.text_color = copy_text(&source.text_color);
    }
    if source.stroke_width_bits.is_some() {
        target.stroke_width_bits = source.stroke_width_bits;
    }
    if source.stroke_dasharray.is_some() {
        target.stroke_dasharray = copy_text(&source.stroke_dasharray);
    }
    if source.line_color.is_some() {
        target.line_color = copy_text(&source.line_color);
    }
}

/// Lays `source` over `target`: each field that `source` sets replaces
/// `target`'s.
pub fn merge_edge_style(target: &mut EdgeStyleOverride, source: &EdgeStyleOverride)
    ensures
        *final(target) == merged_edge(*old(target), *source),
{
    if source.stroke.is_some() {
        target.stroke = copy_text(&source.stroke);
    }
    if source.stroke_width_bits.is_some() {
        target.stroke_width_bits = source.stroke_width_bits;
    }
    if source.dasharray.is_some() {
        target.dasharray = copy_text(&source.dasharray);
    }
    if source.label_color.is_some() {
        target.label_color = copy_text(&source.label_color);
    }
}

/// `style` with the styles of the classes `classes`, those defined in
/// `defs`, laid over it in order.
pub open spec fn with_classes(style: NodeStyle, classes: Seq<String>, defs: Seq<(String, NodeStyle)>) -> NodeStyle
    decreases classes.len(),
{
    if classes.len() == 0 {
        style
    } else {
        let next = match map_get(defs, classes[0]@) {
            Some(c) => merged_node(style, c),
            None => style,
        };
        with_classes(next, classes.skip(1), defs)
    }
}

/// The style of the element named `name`, whose classes are listed in
/// `classes` and whose own styles in `own`.
pub open spec fn resolved_style(
    name: Seq<char>,
    classes: Seq<(String, Vec<String>)>,
    defs: Seq<(String, NodeStyle)>,
    own: Seq<(String, NodeStyle)>,
) -> NodeStyle {
    let base = match map_get(classes, name) {
        Some(list) => with_classes(empty_node_style(), list@, defs),
        None => empty_node_style(),
    };
    match map_get(own, name) {
        Some(st) => merged_node(base, st),
        None => base,
    }
}

/// The class styles, then the own style, of the element named `name`.
fn resolve_named_style(
    name: &String,
    classes: &Vec<(String, Vec<String>)>,
    defs: &Vec<(String, NodeStyle)>,
    own: &Vec<(String, NodeStyle)>,
) -> (style: NodeStyle)
    ensures
        style == resolved_style(name@, classes@, defs@, own@),
{
    let mut style = NodeStyle::default();
    match find_by_name(classes, name) {
        Some(c) => {
            let list = &classes[c].1;
            let mut i: usize = 0;
            proof {
                assert(list@.skip(0) =~= list@);
            }
            while i < list.len()
                invariant
                    i <= list.len(),
                    with_classes(style, list@.skip(i as int), defs@) == with_classes(
                        empty_node_style(),
                        list@,
                        defs@,
                    ),
                decreases list.len() - i,
            {
                proof {
                    assert(list@.skip(i as int)[0] == list@[i as int]);
                    assert(list@.skip(i as int).skip(1) =~= list@.skip(i + 1));
                }
                match find_by_name(defs, &list[i]) {
                    Some(d) => {
                        merge_node_style(&mut style, &defs[d].1);
                    },
                    None => {},
                }
                i += 1;
            }
            proof {
                assert(list@.skip(i as int) =~= Seq::<String>::empty());
            }
        },
        None => {},
    }
    match find_by_name(own, name) {
        Some(o) => {
            merge_node_style(&mut style, &own[o].1);
        },
        None => {},
    }
    style
}

/// The style of the node `node_id`: its classes' styles in order, then its
/// own style.
pub fn resolve_node_style(node_id: &str, graph: &Graph) -> (style: NodeStyle)
    ensures
        style == resolved_style(node_id@, graph.node_classes@, graph.class_defs@, graph.node_styles@),
{
    let name = node_id.to_owned();
    resolve_named_style(&name, &graph.node_classes, &graph.class_defs, &graph.node_styles)
}

/// The style of a subgraph: none for one without an id, else its classes'
/// styles in order, then its own style.
pub fn resolve_subgraph_style(sub: &Subgraph, graph: &Graph) -> (style: NodeStyle)
    ensures
        style == match sub.id {
            Some(id) => resolved_style(
                id@,
                graph.subgraph_classes@,
                graph.class_defs@,
                graph.subgraph_styles@,
            ),
            None => empty_node_style(),
        },
{
    match &sub.id {
        Some(id) => resolve_named_style(
            id,
            &graph.subgraph_classes,
            &graph.class_defs,
            &graph.subgraph_styles,
        ),
        None => NodeStyle::default(),
    }
}

/// The style of edge number `idx`: the diagram's default edge style with
/// the edge's own style laid over it.
pub fn resolve_edge_style(idx: usize, graph: &Graph) -> (style: EdgeStyleOverride)
    ensures
        style == ({
            let base = match graph.edge_style_default {
                Some(d) => d,
                None => empty_edge_style(),
            };
            match index_get(graph.edge_styles@, idx) {
                Some(s) => merged_edge(base, s),
                None => base,
            }
        }),
{
    let mut style = match &graph.edge_style_default {
        Some(d) => copy_edge_style(d),
        None => EdgeStyleOverride::default(),
    };
    match find_by_index(&graph.edge_styles, idx) {
        Some(p) => {
            merge_edge_style(&mut style, &graph.edge_styles[p].1);
        },
        None => {},
    }
    style
}

/// Laying a style over a result that already has it changes nothing.
pub proof fn lemma_merge_node_idempotent(t: NodeStyle, s: NodeStyle)
    ensures
        merged_node(merged_node(t, s), s) == merged_node(t, s),
{
}

/// Laying a style with no field set changes nothing.
pub proof fn lemma_merge_node_empty(t: NodeStyle)
    ensures
        merged_node(t, empty_node_style()) == t,
{
}

/// Laying `a` then `b` is laying `b` over `a` at once.
pub proof fn lemma_merge_node_associative(t: NodeStyle, a: NodeStyle, b: NodeStyle)
    ensures
        merged_node(merged_node(t, a), b) == merged_node(t, merged_node(a, b)),
{
}

/// Laying a style over a result that already has it changes nothing.
pub proof fn lemma_merge_edge_idempotent(t: EdgeStyleOverride, s: EdgeStyleOverride)
    ensures
        merged_edge(merged_edge(t, s), s) == merged_edge(t, s),
{
}

/// Laying `a` then `b` is laying `b` over `a` at once.
pub proof fn lemma_merge_edge_associative(
    t: EdgeStyleOverride,
    a: EdgeStyleOverride,
    b: EdgeStyleOverride,
)
    ensures
        merged_edge(merged_edge(t, a), b) == merged_edge(t, merged_edge(a, b)),
{
}

} // verus!
