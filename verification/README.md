# css-lens

The analysis behind a CSS language server for HTML documents, written in Rust and verified with
Verus: completion, hover, navigation, renaming, quick fixes, outlines and diagnostics for the classes
and identifiers that style sheets define and HTML documents use.

- `src/` is the library. Its functions work on texts, positions and tables; their contracts say what
  they return. What the library takes from outside (regular expressions, addresses, file paths,
  lowercasing) stands behind small items whose contracts are stated and not proved.
- `tests/` runs the library.
- `app/` is the program around it: the language server over standard input and output, the smaller
  class mapper (`class-mapper` as the first argument), and the editor extension that installs the
  server.

Texts are sequences of characters; columns inside a line are byte offsets, except in positions that
come from the editor, which count UTF-16 code units. A style sheet in which a string inside a block is
not closed has no rules: `css::blocks_closed` tells, and the functions that read `<style>` blocks say
so in their result.
