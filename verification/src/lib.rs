pub mod cell_grid;
pub mod digraph;
pub mod grid_route;
pub mod ir;
pub mod layering;
pub mod math_text;
pub mod metrics;
pub mod names;
pub mod occupancy;
pub mod ordering;
pub mod palette;
pub mod ranking;
pub mod sankey;
pub mod sequence;
pub mod routing;
pub mod style;
pub mod subgraphs;
pub mod text;
pub mod types;
