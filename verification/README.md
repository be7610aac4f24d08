# washtank

A modal text editor for the terminal, with indentation-based folding, and
the JSON-RPC framing it uses to talk to a language server. The editor's
logic is a library verified with Verus; a thin program drives it.

- `src/` — the verified library.
  - `text.rs`, `text_util.rs`: the text model of a rope (its characters and
    lines) and string helpers (decimal numbers, trimming, searching).
  - `indent.rs`, `fold.rs`: indent levels of lines and the folds they give.
  - `editor/`: the editor's state and its invariant (`mod.rs`); the rows on
    the screen (`printed.rs`); cursor motion (`movement.rs`); opening and
    closing folds (`folding.rs`); keys to events (`aggregate.rs`); events
    and inserting text (`events.rs`); highlight ranges (`highlight.rs`) and
    how each row is painted (`chunks.rs`); the number column, the status
    line and fold lines (`view.rs`, `fold_line.rs`).
  - `tree_sitter.rs`: syntax highlights, from tree-sitter's parse of the
    text and a query over it.
  - `jsonrpc.rs`, `framing.rs`, `lsp.rs`: messages, headers, the bytes on
    the wire and how they read back; requests to the language server.
- `app/` — the program: terminal input and drawing, reading the file, and
  the language-server process.
- `tests/` — tests of the library.
