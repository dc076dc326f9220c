# who_lang_java

Java language support for a location-first caller index: from a Java source
file it reads the package, the callable symbols (methods, constructors,
interface method declarations, nested types included), the named imports and
the call sites, each call attributed to the innermost symbol that encloses it.

The tree-sitter Java grammar parses the source; the library holds its syntax
tree as plain values (the nodes in preorder, each with its depth) and every
extraction step is specified over that tree and verified with Verus.

Layout:

- `src/syntax.rs` – the syntax tree, node navigation, and the calls into tree-sitter.
- `src/text.rs` – UTF-8 and character utilities (trim, search, truncation).
- `src/nodes.rs`, `src/declarations.rs` – node text, ranges, package, qualified
  names, visibility, modifiers, signatures.
- `src/symbols.rs`, `src/imports.rs`, `src/calls.rs` – the three extractions and
  their laws.
- `src/java.rs` – the parser value and whole-file entry points; a file's outline
  is given only for a tree that lies within the source and follows it in order,
  and its symbols then start strictly one after another.
- `src/edge_cases.rs`, `src/render.rs` – sample rendering functions.
- `app/` – storing a file's outline in a symbol index (I/O).
