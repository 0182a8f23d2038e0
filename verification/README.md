# folder_icon_changer

A Windows tool that gives folders the icon of an executable (through a
`desktop.ini`), keeps the list of folder/executable mappings in `mappings.toml`,
and follows outside edits of that file.

- `src/` is the verified library (Verus): the configuration model, the
  reconciliation of a changed configuration against the applied one, the
  application state that folds in background results and user actions, the
  debounced saving, the icon cache, and the pure computations behind the
  Windows side effects (`desktop.ini` text, `attrib` arguments, BGRA→RGBA,
  image decoding). The `*_laws.rs` files and the `law_*` proof functions state
  what holds across calls.
- `app/` is the program around it: the egui window, threads and channels, the
  file watcher, TOML (de)serialisation, `attrib` and file I/O, and the Win32
  icon extraction.
- `tests/` runs the library on concrete values.
