# chatpurp

The verified core of a local, single-user document assistant built for learning
how to secure an LLM platform: fictive identities and sessions, a deny-by-default
RBAC/ACL policy, audited document reads, lexical retrieval and chat preparation
restricted to permitted documents, and the decisions of the local HTTP surface.

- `src/` is the library, written for Verus: every function carries a contract
  that Verus proves. `src/laws.rs` states the properties that hold across
  operations (reads only after a granted and journaled decision, retrieval and chat
  confined to permitted documents, issued sessions verified until they expire,
  transport refusals, chunks of 1 to 700 trimmed characters for every text that is
  not blank). The host's sessions, reader, journal and clock are traits whose
  methods name the answers they may give; each use case states its result for every
  such answer.
- `app/` is the program around it: the HTTP server (axum/hyper/tokio), signed
  session tokens (jsonwebtoken), the file-backed document reader and audit journal
  (rustix), the JSON reading, and the calls to the local model and vector
  services. Started as `chatpurp-index`, it is the administrative indexer.
- `tests/` runs the library on concrete values.
