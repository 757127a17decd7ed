# scope_graph

A toy language with `let`, `scope` and `import` statements, and a scope graph
that resolves each name reference to its declaration. Imports are not
elaborated into scopes: an imported path is resolved on the fly from the root
scope, one identifier after another, each later identifier only in the scope
that the declaration before it names. A scope opened by a `scope` definition
has no parent scope: inside it, only what it declares and imports is seen. A
block `{ ... }` opens a scope whose parent is the scope it stands in.

Everything under `src/` is verified with Verus:

- `lexer`: a lossless lexer, specified by `lex` over the characters of the input.
- `grammar`: the grammar as spec functions over the token sequence.
- `green`: `rowan`'s green tree builder, seen through the children and open
  nodes it holds.
- `parser`: the recursive-descent parser, proved to build the tree that
  `grammar` describes, with nothing of the input lost.
- `syntax`, `syntax_kind`: the syntax tree that the library reads, lowered
  from `rowan`'s green tree, and its kinds.
- `ast`: typed views over syntax nodes.
- `interner`: `string_interner`, seen through the strings it holds.
- `scope_graph`: the graph builder and name resolution, specified over
  `GraphModel`, with the laws of resolution as proof functions.
- `counts`: what the graph of a parsed file holds, counted over its tree.

`app/main.rs` reads a file, parses it, builds its graph and prints how each
reference resolves.
