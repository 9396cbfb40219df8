# soroban_checks

Static checks for Soroban smart contracts, written and verified with Verus.

| Check | Reports |
| --- | --- |
| `mutable-global-state` | `static mut` items outside of test modules |
| `symbol-key-collision` | symbol keys that occur again within the same `impl` block, nested blocks included; a key outside of blocks collides with the same key anywhere in the file |
| `unsafe-storage-patterns` | unchecked reads of and writes to temporary storage, and `Symbol::new` keys that are not fixed strings, in contract methods |

The checks walk a reduced syntax tree (`src/syntax.rs`). What they report is stated over the
visits of a depth-first walk (`src/walk.rs`), which reaches every node at whatever depth. Shared
questions about syntax are in `src/util.rs`, and the one call into `syn` that the checks make, to
read the literal in a macro call, is in `src/literal.rs`.

`app/` parses source text with `syn`, reduces the resulting tree to the one of the checks and runs
them.
