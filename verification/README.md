# c_flowchart

Control-flow graphs of C programs, with machine-checked contracts.

`src/` is a Verus library. `parser::parse_c_code` hands a C source text to
Tree-sitter, reads the syntax tree that comes back and draws it as nodes and
edges. What each statement adds to a flowchart is stated in `src/flow.rs` and
what a whole program does in `src/flowchart.rs`; the drawing code in
`src/draw.rs` is proved to draw exactly that. `src/run.rs` decides, step by step,
how a source text is compiled and run.

What is proved beyond the contracts:

- `src/composition.rs`: lists of statements split anywhere, braces change
  nothing, how loops, branches and jumps leave a statement.
- `src/entry.rs`: where statements are entered, and that a `do` repeats its body.
- `src/numbering.rs`: nodes and jumps are numbered in order, their ids are
  distinct, and a builder hands out no id twice.
- `src/closure.rs`: every edge joins nodes of the flowchart.
- `src/kinds.rs`: no edge leaves a return, and there is one terminal (of trees
  without nodes of that kind, as those of the C grammar are).
- `src/usage.rs`: each path leads on at most once, so at most one edge leaves the
  start, and none leaves the end.
- `src/progress.rs`: in a complete program (say, without an empty `switch` or a
  `break` outside loops) an edge leaves every node but returns and the end.
- `src/text.rs`: trimming and slicing.
- `src/run.rs`: runs end, and files are removed.

What is trusted are the calls into Tree-sitter (`src/parser.rs`) and into
`String::from_utf8_lossy` (`src/run.rs`).

`app/` is the web server around the library.
