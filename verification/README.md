# engine_core

The verified core of an insight engine for NGO programme data: the PDPA-safe
GOVERN gate that decides whether an insight card may be published, and the
integer and text logic of the diagnose / propose / validate pipeline.

- `src/govern.rs` — PII scanning (e-mail, phone, IC / id numbers), redaction,
  the k-anonymity and consent checks, and the GOVERN report with its audit
  trail.
- `src/engine.rs` — segment parsing and membership, run id and card lineage,
  train / holdout split, programme target, recommendation outcome, and the
  free text of a card that GOVERN scans.
- `src/models.rs` — the model registry: ids, versions, dispatch by name.
- `src/rng.rs` — the xorshift state behind the Monte-Carlo simulation.
- `src/matching.rs` — finding and replacing a text as it is written: phone
  numbers with separators between their digits, and JSON escapes.
- `src/text.rs` — character-level text primitives.
- `app/` — the WebAssembly C ABI, serde forms of the data, and the
  floating-point statistics, models and card assembly.
