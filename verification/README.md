# parc-proof

Proof construction primitives for the PARC draft, verified with Verus.

- `src/model.rs` — the proof-envelope model (subject, application binding,
  capabilities, evidence records, continuity events and edges, signing metadata).
- `src/validate.rs` — structural validation: blank fields, the challenge's
  unpadded URL-safe base64 encoding and length, unique evidence ids and event
  ids, resolved references, and acyclic dependency and continuity graphs. Each
  check's outcome is specified exactly, including which error comes first.
- `src/graph.rs` — successor lists built from edge lists, and Kahn's algorithm,
  proved to answer exactly whether the graph has a cycle.
- `src/laws.rs` — laws of validation: evidence order does not matter, and
  reordering events or keeping fewer edges keeps a valid continuity valid.
- `src/builder.rs` — `ProofBuilder`; every envelope it returns passes
  validation and carries the given challenge bytes.
- `src/client.rs` — the attester client's decisions: endpoints, the stored key
  format, the challenge check, the host claims (with the executable's digest),
  the demo proof answering a challenge, and the signed submission.
- `src/encoding.rs`, `src/crypto.rs` — the calls into `base64`, `serde_json`,
  `sha2` and `ed25519-dalek`, with the contracts the proofs rely on.
- `app/` — the `parc-attester` command: HTTP, files, clock, randomness, and the
  JSON forms of the library's types.
