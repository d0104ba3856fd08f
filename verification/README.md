# crdt-richtext

A collaborative rich-text CRDT (Peritext annotations over a Fugue list),
verified with Verus.

## Layout

- `src/` — the verified library.
  - `rich_text.rs`: the document: local and remote edits, styles, spans,
    lines, index conversions, import, export and merge.
  - `rich_tree.rs`, `ann.rs`, `small_set.rs`: text elements, annotation
    anchors and style calculation.
  - `anchors.rs`, `kept.rs`: where an annotation's anchors sit and which
    bytes it is active on; the styles that local edits keep.
  - `op.rs`, `vv.rs`: operations, the per-peer operation store, version
    vectors.
  - `encoding.rs`, `decoding.rs`: the columnar layout of exported operations
    and reading it back.
  - `delta.rs`, `events.rs`: the delta format (with composition) and the
    events of local edits.
  - `delta_apply.rs`: applying a delta (as an editor sends it) to a
    document.
  - `range_map.rs`: a range map kept as a plain list of spans, each with the
    annotations active on its units.
  - `utf16.rs`, `bytes.rs`, `fx.rs`: UTF-8/UTF-16 arithmetic, the text buffer
    and the hash collections used.
  - `fuzz_line_breaks.rs`, `test_utils.rs`: scripted edits checked against
    plain strings, and multi-document scripts.
- `tests/` — tests of the library.
- `app/` — byte formats (`serde_columnar`), error messages, and a document
  that reports its local edits to listeners.
