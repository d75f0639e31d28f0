# scylla

The durable core of a reverse-engineering platform: a transport-agnostic domain model of a
binary (functions, call graph, mnemonic features, durable user annotations), the client port
every head projects, the identity-anchored merge and structural diff, the A/B parity checks
against the engine, and the request-side logic of the heads — each function with a contract
proved by Verus.

## Layout

- `src/` — the verified library.
  - `model`, `port`: the domain model and the client port (views at three zoom altitudes,
    callers, search, durable rename / retype / comment facts).
  - `merge`, `diff`: re-anchoring annotations onto a re-analysis and the structural diff's
    integer rungs (exact signatures, call-graph propagation, reciprocal best pairing).
  - `abtest`, `decomp`, `ab_report`: the A/B parity and nondeterminism checks and their reports.
  - `engine`, `ingest`, `schema`: assembling a model from the engine's stream or a snapshot, and
    the structural quarantine of a loaded model.
  - `cli`, `graphql`, `http`, `framing`, `lsp`, `mcp`, `tui`, `render`: what each head decides
    and renders, from plain values to plain values.
  - `text`, `corpus`: text helpers, and the small programs of the decompiler test corpus.
- `tests/` — tests of the library on concrete values.
- `app/` — the shell around it: file and network I/O, JSON, gzip, the floating-point scoring
  rungs of the matching ladder, and the heads' request loops. It is not verified.

The `.scylla` artifact codec (the Cap'n Proto reader and writer) is not part of this crate, so
no head can load or save an artifact by itself. The heads in `app/` take
the codec as an `ArtifactCodec`, which nothing here implements; the library keeps the codec's
plain logic — the decode budget (`schema::decode_budget`, `schema::charge`), the string bound
(`schema::bounded_text`) and the structural quarantine of a decoded model (`schema::quarantine`).
