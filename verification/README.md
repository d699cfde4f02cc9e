# medit

A small modal text editor: Vim-like motions, Kakoune-like selection-first
editing, several cursors. The core is a Verus library in which every function
is proved to do what its contract says.

## Layout

- `src/` is the library. It decides: what a key does to the text, the
  selections and the mode; what a frame looks like; what a language server is
  sent and what its answers mean; when a file may be overwritten. It does no
  input or output of its own.
- `app/` is the program around it: the terminal, files, the file watcher, the
  grammars, language servers, and the event loop.
- `tests/` runs the library on concrete inputs.

## Where to start reading

- `buffer.rs`: the piece table with its undo history, seen as a text, a stack of
  past texts and a log of edits.
- `text.rs`, `motion.rs`, `object.rs`: offsets, lines, columns, motions and text
  objects on plain bytes.
- `edit.rs`, `normal.rs`, `insert.rs`, `search.rs`, `ex.rs`: what each key does in
  each mode, with any number of cursors.
- `editor.rs`, `prompt.rs`, `session.rs`: several open files, unsaved changes,
  and changes on disk.
- `completion.rs`, `path_complete.rs`, `suggest.rs`: what is offered while typing.
- `json.rs`, `protocol.rs`, `lsp.rs`: the conversation with a language server.
- `syntax.rs`, `highlight.rs`, `theme.rs`: from text to a parse and from a parse to
  colors.
- `term.rs`, `view.rs`, `wrap.rs`, `render.rs`, `popup.rs`, `present.rs`: from
  state to the bytes of a frame.

Regular expressions are the `regex` crate's, JSON text is `serde_json`'s and syntax
trees are those of the `tree-sitter` crate; the few functions through which they are called state what is relied on.
