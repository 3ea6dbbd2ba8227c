# dlx

Dancing links for exact cover problems, verified with Verus: plain exact
cover (X), exact cover with colors (C), with multiplicities (M) and with
both (MC), a preprocessing pass meant to remove options and items that
cannot take part in a solution (its contracts state the walks over the
nodes it makes, not that claim), the minimum-remaining-values chooser, the
text format of problems, and polyomino boards.

- `src/` is the verified library. `links.rs` holds the node arrays, their
  well-formedness and the exact effect of every elementary operation;
  `hiding.rs` and `covering.rs` prove that unhiding, uncovering,
  unpurifying and uncommitting undo their counterparts; `levels.rs` and
  `purity.rs` show that covering and purifying keep a problem consistent,
  `steps.rs` that any run of commits is undone by the uncommits in
  reverse and that each level of the search undoes itself and leaves a
  consistent state, `lists.rs` that the item lists hold exactly the items
  still to cover, and `fresh.rs` that problems as built are consistent;
  `solver.rs` uses these to show that a search, once over, leaves the
  links it began with, and that every solution it reports covers each
  primary item exactly once and gives shared secondary items one color,
  for searches known to undo themselves (no
  multiplicities, no option naming an item twice, as `make_problem` and
  `from_spec` state for problems without multiplicities); `construct.rs`
  builds the nodes of options; `x.rs`, `c.rs`,
  `m.rs` and `mc.rs` are the four kinds of problems; `solver.rs` is the
  search; `spec_text.rs` reads problems from text; `p.rs` is the
  preprocessing; `omino.rs` builds the options of polyomino puzzles and
  the grids of their solutions.
- `tests/` runs the library on concrete problems.
- `app/` draws solution grids with SDL2 and prints them on a terminal.
