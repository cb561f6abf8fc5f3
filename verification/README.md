# transformer_layers

The layers of a small transformer (token and positional embeddings, rotary position
embedding, causal self-attention, layer normalisation) split into two parts.

- `src/` is a Verus library, generic over the entry type of its matrices. It holds
  the index and shape logic of the layers and proves it: which rows an embedding
  picks, how gradients are routed back to the embedding tables and when that step
  must fail, how rotary embedding pairs up entries and turns them, which attention
  scores the causal mask hides, and the row structure of softmax and of its
  gradient. The arithmetic on entries is handed in as functions, and every contract
  states the result in terms of what those functions may return.
  - `matrix.rs`: `Matrix<T>`, a rectangular table with its shape as type invariant.
  - `fold.rs`: left folds through a caller-supplied step, as a relation.
  - `embed.rs`: `Embed<T>` (lookup, positional prefix, `embed_tokens`, the checks and
    the accumulation of the gradient step).
  - `rotary.rs`: `RotaryEmbedding<T>` (frequencies, cosine/sine tables, rotation of
    queries and keys, the gradient through the rotation) and the round-trip law.
  - `attention.rs`: the causal mask, softmax and its gradient.
- `app/` is ordinary Rust: the `f32` layers on `ndarray` arrays, random initialisation
  (`rand`, `rand_distr`), matrix products and layer normalisation. It runs the
  library with `f32` arithmetic.
- `tests/` runs the library on concrete values.
