# montre

A corpus engine for annotated text: it reads CoNLL-U treebanks, builds positional
indexes over their tokens (word forms, lemmas, tags, features, dependency heads),
spans (sentences, documents) and multi-word tokens, aligns the components of a
parallel corpus, and serves the result to several cooperating processes through a
small JSON-RPC daemon.

Every function in `src/` is written in Verus and proved against its `requires` /
`ensures` contract; calls into outside crates (`roaring`, `blake3`, `uuid`, `time`)
go through a few trusted wrappers whose contracts say what those crates document.

## Layout

- `conllu`, `chars`, `text` — reading CoNLL-U text: lines, fields, strict and lenient
  passes, and the errors they give.
- `builder`, `multi`, `manifest` — building an index from parsed sentences, and a
  multi-component corpus from a manifest: component ranges, alignment files.
- `forward`, `inverted`, `lexicon`, `spans`, `span`, `bitmap` — the in-memory
  indexes: values by position, positions by value, term ids, ordered spans.
- `formats` — the on-disk forms of the indexes, written and read as bytes
  (little-endian, 8-byte aligned sections).
- `corpus` — an opened corpus and its metadata, with the invariants that the query
  and text handlers rely on.
- `protocol`, `frame`, `daemon`, `state`, `handlers` — the daemon: request framing,
  routing, the session state (processes, subscriptions, anchors between processes,
  stored and named results) and the request handlers.
- `graph`, `order`, `ids`, `value`, `input`, `cli` — supporting pieces: anchor-graph
  reachability, string ordering, corpus and socket ids, annotation values, input
  formats and command-line decisions.

`tests/` exercises the library on concrete inputs.

`app/` is a small command-line program around the library: it reads files, parses
TOML and JSON with serde, and hands the library plain values (CoNLL-U checks, corpus
ids, the epoch counter, a manifest's build plan, the named results kept on disk).
