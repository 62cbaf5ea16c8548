# liasse_runtime

The deterministic core of a package runtime, written in Verus: values and addresses,
mutation programs, deletion and erasure, migration and update, history and merge,
keyrings, metering, and nested modules. The functions under `src/` carry contracts over
mathematical views, and `law_*` proof functions state what holds across functions.

The library computes on plain values. Evaluating expressions, storing rows, and talking
to key providers are left to the caller, who hands in what they came to.

- `src/` is the verified library; `lib.rs` lists its modules in the order they build on
  each other.
- `tests/` runs it on concrete values.
- `app/` holds error types with messages, and the serialized form of a merge conflict.
