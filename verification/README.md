# gdscript_graph

Extracts a symbol graph from GDScript source text: the classes, functions, variables,
constants, signals and enums of a file, what contains what, and what refers to what.
The result is a set of tables whose strings lie in one arena.

The library is written and proved in Verus.

- `gdscript`: `extract`, from a path and a text to the tables or an error.
- `parser`: the boundary to tree-sitter and its GDScript grammar. This is the one
  module whose contracts on outside code are trusted; `textutil` trusts one more, that
  of `String::push`.
- `syntax`: the syntax tree as plain data, and the steps between its nodes.
- `walker`: the walk over the tree that builds the tables.
- `events` and `graph`: what a walk comes upon, as a function of the tree, and what
  each such event does to the graph. The contracts of `walker` are stated in these terms.
- `buffers`, `kinds`, `ids`, `docstring`, `textutil`: the tables, codes, identifiers,
  documentation comments and text functions that the walk uses.
- `laws`, `soundness`, `balance`, `naming`, `recorded`, `inheritance`, `statics`: what
  holds of every graph. Nothing recorded is taken back, every row number and every string
  reference is valid, scopes are opened and closed in pairs, and nodes are named after the
  nodes that contain them. Every named declaration, every `call` node with a callee and
  every use of a shared value that the walk reaches is recorded. Base classes are referred
  to from the classes that name them, and those that a file names from its `class_name`,
  before or after it. Whether a function is static makes no difference.

`app/` measures how long an extraction takes.
