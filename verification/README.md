# bruc_core

A visualization library in the manner of a grammar of graphics. A specification declares
data sources (with transform pipes), scales and visual elements (shapes and axes); the
library parses it into a graph of operators, evaluates the graph by passing pulses from its
roots to its leaves, and builds a scene out of the pulses of the leaves.

## Layout

- `src/` — the verified library:
  - `data.rs`: records (`DataValue`) and their items; `names.rs`: maps keyed by name;
    `text.rs`: the order of texts, by which a record lists its keys.
  - `graph/`: the graph (`mod.rs`), its topological sort (`sort.rs`), pulses
    (`pulse.rs`), and the nodes with their operators (`node.rs`).
  - `parser.rs`: from a specification to a graph, with the nodes of each part.
  - `spec/`: the specification types; `scale.rs`: scales as axes use them.
  - `scene.rs`: the scene items; `color.rs`: the base palette and hexadecimal colors.
  - `view.rs`: the state of a view: its graph, data nodes and dimensions.
- `app/` — what runs around the library: the asynchronous view and its listeners, the
  evaluation of each operator (floating-point scales, shapes and axes, expressions of map and
  filter pipes), and the renderers of scenes (debug notation and SVG).
- `tests/` — tests of the library.

Numbers are held by their 32-bit floating-point bit patterns (`Number`); the library moves
them around and tells them apart, and leaves the arithmetic on them to `app/`.
