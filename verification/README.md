# layers

The layer tree of a canvas-based audio workstation, with its operations
proved against their contracts.

The layers panel shows the entities of a project (instruments, MIDI clips,
waveforms, plugin blocks, text notes and groups) as a tree of roots and their
children. This crate holds that tree and everything the panel does with it:

- `src/kind.rs`: node kinds and their stored tags.
- `src/tree.rs`: the tree, moving nodes up and down, expanding and collapsing,
  finding parent groups, removing nodes and executing drag-and-drop; laws on
  moving, toggling and dropping.
- `src/storage.rs`: the flat stored form of the tree and reading it back, with
  the round-trip law and the law that records read back alike in any order
  that keeps each line (roots, children of one parent) in order.
- `src/text.rs`: text equality and the decimal form of entity identifiers.
- `src/catalog.rs`: the entity maps (`indexmap::IndexMap`) as the tree reads them.
- `src/sync.rs`: the default tree and keeping the tree in step with the
  entities, with laws on what a sync keeps, drops and adds.
- `src/browser.rs`: the panel's rows, their labels, drop targets and drop markers.
- `src/history.rs`: undo and redo stacks, with their laws.
- `src/export.rs`: which effect plugins an export runs, and what an export
  report leads to.
- `src/input.rs`: when the computer keyboard may play notes.

`app/` holds what the library leaves to the application: serialisable copies
of stored records, floating-point measurements (pointer zones, vertical order
of waveforms, row colours), mixing audio through effect plugins for export,
and WAV encoding.
