# nano-vllm-rs

A toy byte-level language model, with its integer logic verified by Verus.

- `src/` — the verified library:
  - `tokenizer`: UTF-8 byte tokenizer (`encode`, `decode`), stated over
    vstd's UTF-8 model, with the round-trip laws proved.
  - `model`: the bigram model that "trains" by counting byte pairs, and
    its `forward` (a row of the count table, proved equal to the one-hot
    product).
  - `sampling`: greedy choice (ties to the lowest id) and autoregressive
    generation.
  - `attention`: the causal mask (which seats lie in a seat's future).
- `app/` — the command-line program and every floating-point layer
  (embedding, linear, RMSNorm, RoPE, softmax attention, decoder block),
  built on `candle-core`.
- `tests/` — tests of the library.
