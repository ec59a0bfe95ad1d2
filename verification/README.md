# cairo_rs

Execution scopes and two families of builtin hints (memset, keccak) of a Cairo
virtual machine, written in Verus and verified.

- `src/integer.rs` — `Integer`, an arbitrary-precision integer held as a sign and
  a big-endian magnitude, viewed as an `int`; arithmetic that needs a bignum is
  done by `num-bigint` / `num-traits` behind small trusted wrappers.
- `src/exec_scope.rs` — `NameMap` (variables by name) and `ExecutionScopes`
  (the stack of scopes), with the laws that relate entering, exiting,
  assigning and deleting.
- `src/relocatable.rs`, `src/memory.rs` — addresses, cell values and the
  write-once segmented memory.
- `src/hint_utils.rs` — how hints find their variables (frame-pointer-relative
  references).
- `src/memset_utils.rs`, `src/keccak_utils.rs` — the hints; Keccak-256 comes
  from `sha3` behind a trusted wrapper whose result is named by
  `keccak256_digest`.

Verus checks `src/`; `tests/` holds ordinary Rust tests of the library.
