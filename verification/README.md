# sui_kvstore

An inverted index of bitmaps over transactions and events, kept in BigTable.

`src/` is the library. It is verified with Verus: every function states what it returns
and changes, and the laws that relate several functions are public proof functions named
`law_..`.

- `dimensions`: what transactions and events are looked up by, and the keys of the index.
- `handlers::bitmap`: the pipelines that turn checkpoints into bits, gather them and
  flush them.
- `bigtable::store`: watermarks, connections, and the buffer that gathers batches between
  flushes.
- `tables`: the rows of checkpoints and of transaction digests.
- `list_transactions`: pages of transactions.
- `store_suite`: what a store has to do, as scenarios.
- `row_map`, `chunks`, `codec`: a map by row key, chunks of requests, and numbers as bytes.
- `bitmap`, `bcs_codec`, `bigtable::store::batch_channel`: the calls into `roaring`, `bcs`
  and `tokio`. Their contracts are taken on trust.

The library reads and writes nothing. `app/` does: it asks the library what to do next,
performs it and reports back.
