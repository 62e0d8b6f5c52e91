# bitterasm-lsp

A language server for BitterASM, speaking LSP over stdio: semantic-token
highlighting of declared names, go to definition, hover, and the compiler's
diagnostics. It calls the BitterASM compiler (`bitterasm`) as a library, so
what it shows matches what the compiler sees.

The logic of the server is a Verus library whose functions carry contracts
that Verus proves:

- `src/position.rs`: byte offsets to LSP positions (line, UTF-16 column) and
  back, with the round trips between the two proved.
- `src/semantic.rs`: the legend, the choice of token type per declaration
  kind, and the delta encoding of the semantic-token wire format, proved to
  decode back to each token's position.
- `src/analysis.rs`: the names of a token stream (identifiers and dotted
  labels such as `.loop`), the name under a cursor, and the order of the
  analysis stages.
- `src/backend.rs`: diagnostics as published, hover text, and the steps of
  go to definition.
- `src/compiler.rs`: the calls into the compiler's lexer and symbol table,
  with the contracts they are trusted to meet.
- `src/text.rs`, `src/index.rs`: lengths, lines and columns of a text, and a
  per-character index of them.

`app/` is the server itself: the tokio/tower-lsp plumbing, reading files
from disk and running the compiler's loader and resolver, and the
conversions to and from the LSP and compiler types. `tests/` exercises the
library on concrete inputs.
