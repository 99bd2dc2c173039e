# neural_sgdb

Verified core of a persistent, transferable memory database for AI agents,
written in Verus.

- `src/` is the library. Every function in it carries a `requires`/`ensures`
  contract that Verus proves: memory documents and their metadata (with the
  lineage rule of what a write leaves in a slot's metadata), the binary
  codecs of every side table (documents, records, deltas and snapshots, index
  snapshots, audit chain, conflicts, negatives, version entries), vector
  clocks, the CRDT version agent, the adaptive radix tree key index, the
  binary-quantized flat index and its multi-index hashing, the lexical
  tokenizer and inverted index, the age rules of the lifecycle and the plan
  of a run promotion. Laws relating several functions (round trips,
  merge laws, insert/delete laws, ordering laws) are public proof functions
  named `law_*`.
- `tests/` runs the library on concrete values.
- `app/` is ordinary Rust around the library: floating-point scoring and
  quantization, CPU feature detection, display formatting.
