# clipboard_manager

The history behind a clipboard manager for Windows, as a verified library, and the program around
it.

- `src/` holds the library. The history (`db`, `records`, `table`, `laws`) keeps records under
  ascending ids together with a full-text index over them. `upkeep` and `sweep` keep its files in
  order, `store` works out what has to be written to disk, `monitor` decides what becomes of a
  change of the clipboard, `commands` what the window's commands do, and `migrate` how the data
  moves to another directory. `exchange` knows the formats of the system clipboard, `fts` the texts
  of the index, `winpath` and `folders` the paths of Windows, `patterns` the patterns of SQL, and
  `picture` pictures and thumbnails. `outside` holds every call into another crate, with what is
  believed of it.
- `tests/` runs the library on plain values.
- `app/` is the program: SQLite, files, the clipboard of Windows and the Tauri window.
