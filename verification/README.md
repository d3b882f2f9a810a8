# fast_notepad

A Windows text editor built for large files: a piece table over the file's
bytes, an incremental line index, undo and redo, find and replace, several
encodings, word wrap, and language modes (Markdown, JSON, plain text) with
highlighting and Format Document.

The editing engine and the editor's decisions are written in Verus and proved
against their contracts:

| Path | What it holds |
|------|---------------|
| `src/buffer/` | piece table, line index, undo history, the document |
| `src/editing.rs` | caret movement, typing, deletion, find and replace at the caret, Format Document |
| `src/view.rs` | caret, search, Replace All, line and column, status line |
| `src/wrap.rs` | screen rows under word wrap, scrolling, the pieces of a line to paint |
| `src/theme.rs` | the light and dark colour themes |
| `src/encoding.rs`, `src/file_io.rs` | encodings, opening and saving, index building |
| `src/language/` | language detection, JSON and Markdown highlighting and formatting |
| `src/tabs.rs`, `src/session.rs`, `src/settings.rs` | tab strip and window layout, disk-change and close decisions, recent files |
| `app/` | the Win32 program: window, menus, dialogs, painting, file and settings I/O |
| `tests/` | tests of the library |

Laws of the library (what undo gives back, what the line index keeps, what
search finds, what formatting guarantees) are public proof functions next to
the code they speak of.
