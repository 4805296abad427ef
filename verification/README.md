# zippy_frontend

The frontend of the zippy language, written in Verus: every function in
`src/` carries a contract that Verus proves.

Layout of `src/`:

- `parser/` — the lexer (with layout: `Indent`, `Newline`, `Dedent`) and the
  parser from tokens to the concrete tree, and the abstraction to `ast`.
  `parser/grammar.rs` states the grammar the parser reads as spec functions;
  each parsing function is proved to return exactly what they give.
- `parse/` — the declaration parser (`let`/`fun` over its own tokens), its
  grammar (`parse/grammar.rs`, stated and proved the same way), its tree, and
  `unconcretify`, which tells patterns, types and expressions apart.
- `names/` — name interning, declaration of the names a module defines, and
  resolution of every name to its declaration.
- `flattening`, `flattened` — the module tree flattened into item lists.
- `dependencies`, `components` — the dependency graph of items and its
  strongly connected components (Tarjan), in reverse topological order.
- `check/`, `checked`, `clarify/` — coercion bookkeeping, the checked
  program, and instance unification. The type checker proper (binding names
  to types, generating constraints, solving them and applying the solution)
  and the per-component driver of `clarify` are not part of this library.
- `kick/` — kind inference and checking for type definitions.
- `source`, `text`, `messages`, `vecs`, `invalid`, `hir`, `resolved`,
  `ast` — shared types and helpers.

Laws of the library are public proof functions named `law_*` (and a few
`lemma_*`), next to the functions they speak of. `tests/` runs the library
on concrete inputs.
