# nextzip

A structural archive format for machine-generated text (JSON lines, CSV/TSV,
logs), written in Verus: the library in `src/` is verified, the command in
`app/` is ordinary Rust around it.

An archive (`NXZ1`) holds a zstd-compressed header (the bincode 1 encoding of
`ArchiveHeader`), a zstd-compressed payload and the BLAKE3 hash of the
original input. The payload is either the input
itself (fallback) or a table encoded as row blocks of column chunks, each chunk
with the codec that packs it best: raw cells, dictionary, delta,
delta-of-delta, run-length, bit-packing or frame-of-reference.

Layout of `src/`:

- `codecs/` — the integer and string codecs, each with a roundtrip law.
- `column/` — cells, presence bitmaps, column chunks, the payload of blocks,
  codec choice, and the table roundtrip law.
- `header.rs`, `archive.rs` — the header and the container; archives made by
  the library open to what they were made from, and truncated or tampered
  archives are refused.
- `detect.rs` — which format a sample looks like.
- `formats/` — the table model and the formats: logs (template and word
  position), JSON lines read with `serde_json` and flattened to dotted paths
  (and written back from them), exact JSON lines, CSV/TSV over the `csv`
  crate, rows of keyed cells; laws for the log and JSON-lines roundtrips and for the order of
  column names.
- `pipeline.rs` — packing and unpacking end to end: the archive kept always
  unpacks to the input.
- `report.rs` — the text of `inspect`.
- `bench.rs` — the comparison of nextzip with zstd and gzip (`bench`).
- `entropy/`, `checksum.rs`, `text.rs`, `wire.rs` — zstd, BLAKE3, text and
  little-endian helpers.

Floating point stays in `app/`: JSON numbers and CSV fields read as `f64`,
float cells written as text or as JSON numbers, and the compression ratio of
`inspect`. The library takes those readings, texts and values as arguments.
