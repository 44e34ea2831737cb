# docversion

A library for keeping the versions of the text files in a folder and
sharing them between machines, verified with Verus.

- `src/` is the library. `diff` computes and applies line diffs and rebuilds
  a file from its chain of versions; `store` holds the rules of the version
  store; `watcher` decides which files are tracked and debounces file events;
  `files` builds the folder tree; `embedding` and `search` hold the
  integer side of semantic search; `version_graph`, `protocol`, `server` and
  `client` are the synchronisation: per-file version graphs with
  last-writer-wins conflict resolution, the message frames, the index
  server's state machine and the client's decisions. `text` and `seqs` are
  helpers.
- `app/` is a command-line program around the library: SQLite storage, the
  file watcher, TCP networking and the floating-point parts of embeddings.
- `tests/` exercises the library.
