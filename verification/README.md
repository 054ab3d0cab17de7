# cloister

The editing core of Cloister, a small tabbed text editor, written in Verus.

- `src/` is the verified library: the tabs, the clipboard, the undo and redo
  histories, and find / replace over all tabs. `src/model.rs` states what the
  editor's state is as plain values and what every operation makes of it;
  each operation in `src/app.rs` and `src/search.rs` is proved to do exactly
  that. `src/text.rs` holds the byte-level search and range replacement, and
  `src/laws.rs` the properties that span several operations.
- `app/` is the egui window around the library: menus, dialogs, file I/O,
  the autosave file, fonts and colours.
- `tests/` runs the library on concrete documents.
