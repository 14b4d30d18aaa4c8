//! The parts of a parsed diagram that the layout rules read.
use vstd::prelude::*;

verus! {

/// The kind of diagram being laid out.
#[derive(Debug, Clone, Copy, PartialEq, Eq, Structural)]
pub enum DiagramKind {
    Flowchart,
    State,
    Class,
    Er,
    Requirement,
    Packet,
    Sequence,
    ZenUML,
    Pie,
    Quadrant,
    Gantt,
    Kanban,
    Block,
    Sankey,
    Architecture,
    Radar,
    Treemap,
    GitGraph,
    C4,
    Mindmap,
    XYChart,
    Timeline,
    Journey,
}

/// Direction in which successive ranks are laid out.
#[derive(Debug, Clone, Copy, PartialEq, Eq, Structural)]
pub enum Direction {
    TopDown,
    BottomTop,
    LeftRight,
    RightLeft,
}

/// Line style of an edge.
#[derive(Debug, Clone, Copy, PartialEq, Eq, Structural)]
pub enum EdgeStyle {
    Solid,
    Dotted,
    Thick,
}

/// An edge between two nodes, named by their ids.
#[derive(Debug, Clone)]
pub struct Edge {
    pub from: String,
    pub to: String,
    pub label: Option<String>,
    pub start_label: Option<String>,
    pub end_label: Option<String>,
    pub directed: bool,
    pub arrow_start: bool,
    pub arrow_end: bool,
    pub style: EdgeStyle,
}

/// Style overrides of a node or a subgraph.  The stroke width is held as
/// the bit pattern of its `f32` value: it is carried, never computed with.
#[derive(Debug, Clone)]
pub struct NodeStyle {
    pub fill: Option<String>,
    pub stroke: Option<String>,
    pub text_color: Option<String>,
    pub stroke_width_bits: Option<u32>,
    pub stroke_dasharray: Option<String>,
    pub line_color: Option<String>,
}

/// Style overrides of an edge; the stroke width as the bit pattern of its
/// `f32` value.
#[derive(Debug, Clone)]
pub struct EdgeStyleOverride {
    pub stroke: Option<String>,
    pub stroke_width_bits: Option<u32>,
    pub dasharray: Option<String>,
    pub label_color: Option<String>,
}

/// A subgraph: an optional id, a label, and its member nodes by name.
#[derive(Debug, Clone)]
pub struct Subgraph {
    pub id: Option<String>,
    pub label: String,
    pub nodes: Vec<String>,
    pub direction: Option<Direction>,
}

/// What the layout rules read of a parsed diagram.  The tables keyed by
/// name hold one entry per name, as a map would; a lookup takes the first
/// entry with the name.
pub struct Graph {
    pub kind: DiagramKind,
    pub direction: Direction,
    pub edges: Vec<Edge>,
    pub subgraphs: Vec<Subgraph>,
    pub node_order: Vec<(String, usize)>,
    pub node_classes: Vec<(String, Vec<String>)>,
    pub class_defs: Vec<(String, NodeStyle)>,
    pub node_styles: Vec<(String, NodeStyle)>,
    pub edge_style_default: Option<EdgeStyleOverride>,
    pub edge_styles: Vec<(usize, EdgeStyleOverride)>,
    pub subgraph_classes: Vec<(String, Vec<String>)>,
    pub subgraph_styles: Vec<(String, NodeStyle)>,
}

/// No two entries of `m` have names spelled alike.
pub open spec fn names_unique<V>(m: Seq<(String, V)>) -> bool {
    forall|i: int, j: int| 0 <= i < j < m.len() ==> (#[trigger] m[i]).0@ != (#[trigger] m[j]).0@
}

/// No two entries of `m` have the same number.
pub open spec fn indices_unique<V>(m: Seq<(usize, V)>) -> bool {
    forall|i: int, j: int| 0 <= i < j < m.len() ==> (#[trigger] m[i]).0 != (#[trigger] m[j]).0
}

/// The value of the first entry of `m` whose name is spelled `s`.
pub open spec fn map_get<V>(m: Seq<(String, V)>, s: Seq<char>) -> Option<V>
    decreases m.len(),
{
    if m.len() == 0 {
        None
    } else if m[0].0@ == s {
        Some(m[0].1)
    } else {
        map_get(m.skip(1), s)
    }
}

/// The value of the first entry of `m` whose number is `k`.
pub open spec fn index_get<V>(m: Seq<(usize, V)>, k: usize) -> Option<V>
    decreases m.len(),
{
    if m.len() == 0 {
        None
    } else if m[0].0 == k {
        Some(m[0].1)
    } else {
        index_get(m.skip(1), k)
    }
}

/// Position of the first entry of `m` whose name is spelled `s`.
pub fn find_by_name<V>(m: &Vec<(String, V)>, s: &String) -> (res: Option<usize>)
    ensures
        match res {
            Some(k) => k < m.len() && map_get(m@, s@) == Some(m@[k as int].1),
            None => map_get(m@, s@) is None,
        },
{
    let mut i: usize = 0;
    proof {
        assert(m@.skip(0) =~= m@);
    }
    while i < m.len()
        invariant
            i <= m.len(),
            map_get(m@, s@) == map_get(m@.skip(i as int), s@),
        decreases m.len() - i,
    {
        proof {
            assert(m@.skip(i as int)[0] == m@[i as int]);
            assert(m@.skip(i as int).skip(1) =~= m@.skip(i + 1));
        }
        if m[i].0 == *s {
            return Some(i);
        }
        i += 1;
    }
    None
}

/// Position of the first entry of `m` whose number is `k`.
pub fn find_by_index<V>(m: &Vec<(usize, V)>, k: usize) -> (res: Option<usize>)
    ensures
        match res {
            Some(p) => p < m.len() && index_get(m@, k) == Some(m@[p as int].1),
            None => index_get(m@, k) is None,
        },
{
    let mut i: usize = 0;
    proof {
        assert(m@.skip(0) =~= m@);
    }
    while i < m.len()
        invariant
            i <= m.len(),
            index_get(m@, k) == index_get(m@.skip(i as int), k),
        decreases m.len() - i,
    {
        proof {
            assert(m@.skip(i as int)[0] == m@[i as int]);
            assert(m@.skip(i as int).skip(1) =~= m@.skip(i + 1));
        }
        if m[i].0 == k {
            return Some(i);
        }
        i += 1;
    }
    None
}

/// A copy of `o`.
pub fn copy_text(o: &Option<String>) -> (r: Option<String>)
    ensures
        r == *o,
{
    match o {
        Some(x) => Some(x.clone()),
        None => None,
    }
}

/// A copy of `e`.
pub fn copy_edge(e: &Edge) -> (r: Edge)
    ensures
        r == *e,
{
    Edge {
        from: e.from.clone(),
        to: e.to.clone(),
        label: copy_text(&e.label),
        start_label: copy_text(&e.start_label),
        end_label: copy_text(&e.end_label),
        directed: e.directed,
        arrow_start: e.arrow_start,
        arrow_end: e.arrow_end,
        style: e.style,
    }
}

impl Graph {
    /// Every table keyed by name or number holds one entry per key.
    pub open spec fn well_formed(&self) -> bool {
        &&& names_unique(self.node_order@)
        &&& names_unique(self.node_classes@)
        &&& names_unique(self.class_defs@)
        &&& names_unique(self.node_styles@)
        &&& indices_unique(self.edge_styles@)
        &&& names_unique(self.subgraph_classes@)
        &&& names_unique(self.subgraph_styles@)
    }

    /// An empty flowchart, laid out top down.
    pub fn new() -> (g: Graph)
        ensures
            g.well_formed(),
            g.kind == DiagramKind::Flowchart,
            g.direction == Direction::TopDown,
            g.edges@.len() == 0,
            g.subgraphs@.len() == 0,
            g.node_order@.len() == 0,
            g.node_classes@.len() == 0,
            g.class_defs@.len() == 0,
            g.node_styles@.len() == 0,
            g.edge_style_default is None,
            g.edge_styles@.len() == 0,
            g.subgraph_classes@.len() == 0,
            g.subgraph_styles@.len() == 0,
    {
        Graph {
            kind: DiagramKind::Flowchart,
            direction: Direction::TopDown,
            edges: Vec::new(),
            subgraphs: Vec::new(),
            node_order: Vec::new(),
            node_classes: Vec::new(),
            class_defs: Vec::new(),
            node_styles: Vec::new(),
            edge_style_default: None,
            edge_styles: Vec::new(),
            subgraph_classes: Vec::new(),
            subgraph_styles: Vec::new(),
        }
    }
}

} // verus!
