# graphite_studio

The verified core of Graphite Studio, a pencil-drawing application: the
bookkeeping of a drawing (layers, selection, redraw regions, undo stacks,
sparse layer storage, lossless quarter turns), the file formats it reads and
writes (PSD headers, layers, paths, descriptors and embedded native
projects; ABR brush libraries), and the rules of its preferences and
recent-files list. Every function of the library carries a contract that
Verus proves; the laws that relate functions (what a write reads back as,
what an undo restores, what a turn preserves) are stated as proof functions
next to them.

Layout:

- `src/drawing/` – layers, selection and redraw (`layers`), undo and redo
  stacks and the record of what one edit changed (`history`), cut-outs of
  a selection (`cutout`), sparse tile storage (`sparse`), quarter turns, mirrors
  and canvas growth (`orientation`), brush libraries (`brush`), and the
  drawing's small vocabularies (tools, paper presets, blend modes).
- `src/import/` – PSD reading: header, resources, layer records and
  channel data (`psd`, `psd/layers`), the layer stack (`psd/stack`), path
  records (`psd/vectors`) and action descriptors (`psd/descriptor`).
- `src/export/` – PSD writing: flat images, layered documents
  (`psd_layers`), path resources and descriptors (`psd_vectors`).
- `src/gzip.rs` – gzip streams through flate2, as native projects and
  pencil-gallery files hold their data.
- `src/gallery.rs` – the pencil gallery's folders and its compressed files.
- `src/project.rs` – native project files (tag and compressed data), and
  the native project embedded in an editable PSD: where
  it lies, the fingerprint that detects outside edits, its framing, and
  the checks a saved drawing's layers and brush tips must pass.
- `src/preferences.rs`, `src/recent_files.rs`, `src/gpu.rs`, `src/input.rs`
  – start-up profile, recent files, GPU hand-over, pen contact tracking.
- `app/` – a command-line front end: files, the preferences file, and the
  floating-point conversions that stay outside the verified library.
- `tests/` – tests of the library on concrete values.
