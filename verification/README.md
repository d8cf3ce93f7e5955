# file_retrieval_engine

A file retrieval engine: a server keeps a sharded index of document paths and
word frequencies and answers AND-searches over it; clients count the words of
the files in a folder, send them to the server, and search.

## Layout

- `src/` — the verified library (Verus).
  - `index_store.rs`: the sharded store of document numbers and postings.
  - `search.rs`: AND-combination of postings and selection of the best results.
  - `word_freqs.rs`: word frequency maps and the counting of a document's words.
  - `server.rs`: the server's request handling (`process_message`), its
    clients, received-byte framing and the pending-batch queue.
  - `client.rs`: what the client sends and how it reads the replies.
  - `client_commands.rs`: the client's command line and how results are shown.
  - `batch_processor.rs`: per-shard batching of a document's word counts.
  - `text.rs`, `decimal.rs`: character runs, splitting, trimming, and the
    decimal text of integers.
  - `laws.rs`: properties of the store and of searching across calls.
  - `round_trips.rs`: what each side of the protocol reads back of what the
    other side wrote.
- `app/` — the programs around it: sockets, threads, files, the consoles,
  the benchmark and the Python bindings.
- `tests/` — tests of the library.
