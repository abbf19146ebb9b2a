# scirust-sciagent tokenizer core

A Verus-verified library for the SciAgent ElasticTokenizer: canonical
rank-priority BPE and its optimized kernels, hardware-local kernel
calibration and profile fitting, stored-profile integrity checks,
sequential BPE training, and the historical parallel-merge probes.

- `src/` — the verified library. Every public function states its result in
  `ensures` over spec functions; laws that relate several functions are
  public proof functions (`lemma_*`).
- `tests/` — executable tests of the library.
- `app/` — the `sciagent-tokenizer` command line: file and JSON I/O,
  directory walking, the floating-point robust statistics of profile
  fitting, and the environment-dependent storage locations.
