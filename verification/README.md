# typdiff_render

Renders the result of diffing two Typst documents as a Typst document in which
added text is underlined in blue (`#diff-added[...]`) and deleted text struck
through in red (`#diff-deleted[...]`). The library is written in Verus and its
behaviour is proved against specifications over character sequences.

Layout of `src/`:

- `model.rs`: the diff results (`DiffResult`, `Block`, `BlockKind`, `DiffSpan`, `SpanTag`).
- `text.rs`: character-level helpers (trimming, `str::lines`, decimal numbers).
- `label.rs`: Typst label literals (`<name>`), checked by `typst_syntax`.
- `escape.rs`: escaping text for a content block `[...]`; Typst's parser decides
  whether emphasis markers can be kept.
- `render.rs`: the renderer; `render` is the entry point.
- `escape_laws.rs`, `backslash_laws.rs`, `render_laws.rs`, `spans_laws.rs`,
  `stray_laws.rs`: properties proved of the above (escaped text keeps the
  surrounding call closed, escaping twice changes nothing, which characters
  gain a backslash, deleted references are suppressed, documents are
  the preamble followed by each result's own text and a blank line, modified
  blocks keep their brackets balanced as long as no unchanged span ends in an
  unfinished escape, and they escape exactly the brackets of unchanged text
  that nothing pairs with).
