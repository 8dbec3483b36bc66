# rva_core

A binary diff / compare library for security analysis and firmware reverse engineering,
verified with Verus, and the `rva` command line around it.

- `src/` is the verified library. Every function carries a `requires` / `ensures`
  contract; the laws of the library are public proof functions (`law_*`).
  - `diff_engine`: chunked-hash and sliding-window diffs, well-formed entries, identical
    inputs give no entries.
  - `aligner`, `byte_refine`: merging and refining entries, with exact specifications.
  - `file_loader`, `disasm`, `structural_matcher`, `symbol_resolver`: headers, sections,
    normalized instructions and symbols (goblin and iced-x86 behind trusted wrappers).
  - `patch_engine`, `patch_pack`, `apply`, `signing`: patch operations, the `.rvapatch`
    container (encode/decode round trip), apply / rollback / chained apply with source and
    target digests and Ed25519 signatures (sha2 and ed25519-dalek behind trusted wrappers).
  - `batch_comparator`: the directory tree comparison.
  - `report_generator`, `presentation`, `viewer`: HTML / text reports, labels, search.
  - `bench_gen`, `bench_eval`: deterministic benchmark transforms with their known answer,
    and the scoring of a diff against it.
- `app/` is the `rva` program: argument parsing, file and directory I/O, the keystore, the
  history log, the serde copies of the patch model, the JSON report and the benchmark runner.
- `tests/` exercises the library on concrete inputs.
