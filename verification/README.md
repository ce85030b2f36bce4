# ir_lang

An intermediate representation in SSA form, verified with Verus.

A `Function` is a control-flow graph of basic blocks over one flat table of
values; each block lists its parameters and instruction results and ends in one
terminator. A front-end lowers into it through the `Builder`, then checks it with
`Function::validate`.

Layout:

- `src/` — the library. `function.rs`, `builder.rs`, `inst.rs`, `entity.rs` and
  `ty.rs` hold the IR and its models; `validate.rs` specifies which error
  validation reports and implements the structural checks; `graph.rs`
  (paths, depth-first postorder), `domtree.rs` (immediate dominators, the
  dominator tree) and `dominance.rs` specify and check that every use in
  reachable code is reached by its definition, walking the dominator tree once
  in preorder with one availability set; `display.rs` and `text.rs` give the textual forms; `laws.rs` proves
  what holds of the library as a whole (a function validates exactly when it is
  well-formed, builder steps keep the value table dense, and more); `lowering.rs`
  proves that lowering a well-typed expression tree through the builder yields a
  function that validates.
- `app/` — serializable copies of the IR types (serde), and the parts of the
  textual form that format floating-point constants.
- `tests/` — scenario tests run against the compiled library.

Floating-point constants are held in the IR as the bits of their `f64`, so
`==` on instructions and functions compares float constants bit for bit.

Cost of validation: immediate dominators are found from one reachability
search per block that avoids it (`domtree::avoid_table`), which takes
`O(n * (n + e))` time and `n * n` booleans of memory for `n` blocks and `e`
edges; the dominator-tree walk that checks uses then keeps a single
availability set, and finds each block's children by a scan over the blocks.
