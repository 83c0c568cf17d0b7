# rinha_fraud_rust

Card-transaction fraud scoring by nearest neighbours. A transaction becomes a
14-dimension vector; its five nearest references in a labelled dataset decide
the score (frauds among them / 5) and the decision (approved below 0.6, that
is with fewer than three frauds among the five).

## Layout

- `src/` — the verified library (Verus):
  - `dataset.rs`: bucket keys of quantized vectors, the `Dataset` and its
    bucket index (bucket `k` lists exactly the references whose key is `k`).
  - `index_file.rs`: reading and writing the binary index file.
  - `topk.rs`: the five-slot buffer of nearest candidates and its laws.
  - `search.rs`: squared distances, bucket probes, the bounded, legacy and
    full-scan searches, and the decision rule.
  - `vectorizer.rs`: clock features (through chrono) and the known-merchant check.
- `app/` — the HTTP service (axum), configuration loading, the floating-point
  normalization and quantization of requests, and the index build and
  benchmark tools.
- `tests/` — tests of the library on concrete values.
