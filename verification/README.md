# zwse

Exports the tabs of a Zen Browser `sessionstore.jsonlz4` as a pipe-delimited
table, one row per history entry, sorted by `id`.

The library in `src/` carries its specifications and proofs:

- `session`: decoding a `mozLz40` file (magic header, little-endian size, LZ4
  block, UTF-8) and the peek handle on its JSON text.
- `json`: the JSON values that the logic reads, parsed and printed by `serde_json`.
- `export`: walking the session JSON to the entries of every tab, and the
  whole pipeline from JSON text to sorted rows.
- `extract`: one row per entry, and the text of the export table.
- `sorting`: counting-sort passes and least-significant-digit radix sorts,
  proved to be stable sorts by `id`; `stable` holds the theory of stable sorts.
- `cli`: the settings, the choice of the session file and of the profile.
- `text`: decimal numbers, booleans and case mapping.

`app/` is the command-line program around it: argument parsing with clap,
profile discovery and file I/O.
