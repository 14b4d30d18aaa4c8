# Diagram layout rules, verified

The decision-making core of a diagram layout engine, written in Verus: the
parts that rank, order, match, route on a grid and choose, proved against
contracts. The geometry that measures in floating point stays outside the
verified library.

## Layout

- `src/` — the verified library.
  - `digraph.rs` — adjacency lists, walks and reachability; strongly
    connected components (Kosaraju), topological orders.
  - `layering.rs`, `ranking.rs`, `ordering.rs` — layering of graphs with
    cycles, ranks of named nodes, crossing-reducing orders within ranks.
  - `grid_route.rs` — the best-first search for edge routes over grid cells,
    with proofs that a route returned is sound and no dearer than any other,
    that none is returned when no route exists, and that one is found when
    a route exists, no cost can reach the saturation ceiling and the step
    allowance is at least `search_budget`.
  - `sankey.rs` — sankey node ranks from a queue-driven topological sort.
  - `sequence.rs` — sequence-diagram lanes, note slots and activation bars.
  - `subgraphs.rs` — subgraph nesting, anchors and directions.
  - `routing.rs` — port sides and per-side loads, edge pair counts.
  - `occupancy.rs` — crowding weights of grid cells under routes already
    laid.
  - `style.rs`, `palette.rs` — style merging and colour choices.
  - `text.rs`, `math_text.rs` — label line splitting and plain rendering of
    math markup.
  - `cell_grid.rs`, `names.rs`, `ir.rs`, `metrics.rs`, `types.rs` — shared
    data and helpers.
- `tests/` — tests of the library on concrete values.
- `app/` — the floating-point side: grid geometry for routing, obstacle
  grids for labels, conversions of widths and medians.
