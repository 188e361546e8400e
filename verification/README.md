# vectordb

A minimal on-disk vector database with a flat index. This crate is its
verified core; an HTTP server (Axum) and the disk I/O live in `app/`.

- `src/` — the library, proved with Verus:
  - `index.rs`, `ranking.rs`: the flat index (fixed dimension, no NaN,
    distinct ids) and the stable nearest-first selection of search results.
  - `metadata.rs`: key/value metadata kept in `String` order.
  - `storage.rs`: the binary collection file format; decoding the bytes of
    an encoded collection gives the collection back. Also the file names of
    a collection and of its write-ahead copy, and the collection that each
    file name stands for.
  - `database.rs`: named collections; each change hands back the bytes of
    the changed collection's file, and a failed write is recovered from what
    the file holds. A model of the storage directory (file name to bytes)
    states that every successful change, deletion and rename keeps the
    directory in step with the database, and that loading its files, in any
    order, gives every collection back.
  - `errors.rs`, `validation.rs`, `distance.rs`, `config.rs`, `api/`.
- `app/` — the server: command line, files, floating-point distances,
  routes.
- `tests/` — tests of the library.

Vector components are held as the bit patterns of IEEE-754 `f32` values;
distances are computed by the caller and passed to `search`.
