# aris

A code-structure graph for answering questions about a repository, with its
logic written in Verus and proved against contracts.

- `src/` is the verified library: string interning, the adjacency graph with
  mirrored edge tables and degree counters, bounded breadth-first traversal,
  context rendering under a token budget, the file-event pipeline, query
  classification and result merging, repository file selection, import
  linking and payload building, and the text handling around the model call.
  Calls into `base64`, `regex` and `rand` stand behind small trusted wrappers
  whose contracts are documented where they are declared.
- `app/` is the program around it: the WebSocket server, the HTTP calls to
  GitHub and the model, the worker pool and the timing loops. It hands the
  library plain values and takes plain values back.
- `tests/` runs the library on concrete inputs.
