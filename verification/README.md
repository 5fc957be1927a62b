# minedesign

The verified core of a mine-design application, written in Verus.

`src/` is the library. Its functions carry contracts that Verus proves,
except the few trusted wrappers around calls into std and the `thousands`
crate, whose contracts state what those calls are documented to do:

- `natural_sort`, `sorting`: natural (alphanumeric) ordering of names, with
  its laws (equal only for the same string, antisymmetric, transitive), and a
  stable sort order by it.
- `text`: character widths, line splitting, trimming, `u32` parsing and
  ASCII-case-insensitive comparison.
- `model::arrangement`: the planar graph that cuts plan outlines into blast
  shapes: adding edges, pruning dangling chains (the largest part without a
  node of one neighbour), connected components, and face walks (every
  directed edge on exactly one walk).
- `model::block_model`, `model::surface_blocks`, `model::block_variables`:
  renderable block lists, regular-grid index decoding, the count of blocks
  left after culling hidden ones, and the unset code of a named variable.
- `model::drill_hole`, `model::pidb`, `model::progress`: drill-hole sources
  and categories, project names, and when a shared counter reports.
- `ui`: the viewport prompt, console text layout and presentation rows, the
  status bar's coordinate fields (thousands separated by the `thousands`
  crate), and the labels and choices of dialogs.

`app/` is ordinary Rust around it: floating-point geometry and colouring,
formatting with the calendar, earcut triangulation of faces, atomics shared with worker threads, rayon
passes and file-time lookups. `tests/` exercises both.
