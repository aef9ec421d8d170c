# unei

A modal text editor's core, written in Verus: the text model (a rope seen
as its chars, lines counted like vim, grapheme clusters laid out in display
cells), motions and text objects, operators, insert-mode editing, undo and
redo, the normal-mode key machine, search, the window layout tree, the file
picker's decisions, the language-server message rules, and the machine-code
lenses. Every function in `src/` carries a contract that Verus proves.

Layout:

- `src/editing/` — the text model, motions, text objects, the buffer with
  its undo history.
- `src/editor/` — editor state machines: pending keys, operators, insert
  mode, visual selections (charwise, linewise, blockwise yank,
  delete and change), block puts, `>`/`<` line shifts, marks and the jumplist,
  windows and their layout, the buffer list, the picker, applying a
  server's text edits, screen placement of the cursor, popup and gutter,
  and what language-server events do to the editor.
- `src/lsp.rs`, `src/lsp_client.rs` — the language-server message rules
  and the client's request bookkeeping.
- `src/search.rs`, `src/lens.rs`, `src/format.rs`, `src/base64.rs`, … —
  the rest of the editor's rules.
- `tests/` — tests run against the compiled library.
- `app/` — a command-line driver: it loads a file, feeds the keys read from
  standard input through the library and prints the resulting text.
