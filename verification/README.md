# cendb

The data models, search structures, spatial operations, replication rules and
security rules of an embedded multi-model database, written in Verus. The
executable functions of the library carry contracts that Verus proves.

## Layout

- `src/` is the verified library.
  - `projection/`: key-value, relational, time-series, graph and document data.
  - `search/`: tokenizer, stemmer, inverted index, BM25 statistics, ranking,
    snippets, fuzzy matching and a versioned secondary index.
  - `spatial/`: geometries, predicates, distances, hulls and buffers, geohashes,
    WKT, WKB and GeoJSON, coordinate reference systems, and a spatial index.
  - `rdf/`: terms, a triple store, N-Triples and Turtle, and SPARQL queries.
  - `replication/`: consensus, message frames, and the shipping of log segments.
  - `security/`: users and sessions, roles, audit log, masking, field and page
    encryption, key management and Merkle trees.
  - The other files hold what these share: texts, numbers, byte orders, maps.
- `tests/` runs the library.
- `app/` is ordinary Rust around it: files, sockets, the clock and
  floating-point arithmetic.

## Floating point

The library holds a floating-point number as its 64 bits, or as the text that
denotes it. It compares such numbers itself. Where a result takes arithmetic,
the caller hands in the arithmetic as functions (`Plane`, `Ruler`, `Brush`,
`Gauge`, `Reach`, `Halver`, `Projection`, `Formula`), and the contracts speak of
those functions.

## What is trusted

The functions marked `#[verifier::external_body]` and the `assume_specification`
items state what the library takes from elsewhere: BLAKE3, XChaCha20-Poly1305,
Argon2id, random bytes, the clock, and a few functions of the standard library
on characters and texts. They stand in `security/hash.rs`,
`security/cipher.rs`, `clock.rs` and `text.rs`.
