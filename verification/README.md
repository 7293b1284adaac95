# tnviz

Tensor-network diagrams from a small language, `tnv`.  The library reads
tnv source into a network of tensors and indices, keeps its layout
statements and style rules, resolves styles through the cascade, and
prints the network back as canonical tnv.

`src/` is the library, verified with Verus:

- `lexer`, `parser`, `ast`, `lower`: tnv source to tokens, statements, and
  a network; `print` writes canonical tnv.
- `model`: the network with its invariants; `cascade` states how styles
  resolve; `graph` gives neighbours and hop distances along bonds.
- `name`, `number`, `value`, `attrs`, `registry`: names and patterns, exact
  decimals, attribute values and lists, and the attribute registry.
- `figure`, `order`, `shading`, `postscript`, `tex`, `md5`: the vocabulary
  of drawn figures and the pieces of the backends that are not geometry.
- `tnvm`: the `.tnvm` file LaTeX writes, the figures of a document and the
  measured sizes of their labels, with lengths as exact decimals.

`app/` is the command-line tool (`check`, `fmt`, `layout`), with the
floating-point layout engine.  `tests/` runs the library on examples.
