# penumbra

A knowledge graph of markdown notes: notes linked by the wikilinks they
write and by the similarity of their text, a block editor for their bodies,
and a vault that keeps each note as a markdown file with YAML frontmatter.

`src/` is the library, verified with Verus:

- `text` – string helpers with exact contracts (trimming, splitting,
  decimal rendering, UTF-8 boundaries).
- `markdown` – the parser from CommonMark events (pulldown-cmark) to the
  document tree, the custom `[[note]]` embeds and `#tag` references, the
  HTML, markdown and plain-text renderers, frontmatter framing, link and
  tag extraction, and incremental streaming (mdstream).
- `editor` – the block editor: document model, cursor and selection,
  commands with undo and redo, the editing session and its view model.
- `notes`, `graph`, `universe`, `autolink`, `search` – the note model, the
  note graph over petgraph, explicit links from wikilinks, implicit links
  from search hits, and the exact parts of hybrid search.
- `storage`, `vault` – file names for notes and the note file format.
- `layout` – the node and spring bookkeeping of the canvas layout.
- `theme`, `embed`, `sync`, `canvas`, `error` – themes, trigram embedding
  counts, sync addresses and snapshots, the null canvas renderer, errors.

`app/` is ordinary Rust around it: file system and network I/O, serde
forms of the library's types, and everything computed in floating point
(score weighting, embedding normalisation, the force-directed layout).

`tests/` runs the library on concrete values.
