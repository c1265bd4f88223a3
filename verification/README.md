# non_blocking_memory

Single-writer shared-state cells with verified behaviour.

| Primitive            | Best for                                                        |
|----------------------|-----------------------------------------------------------------|
| `Cell<T>`            | latest-value publish of tiny values, and append-only history    |
| `Ring<T>`            | the last N snapshots                                            |
| `SeqCell<T>`         | latest-value publish of a large `Copy` value without allocation |
| `BridgedCell<T>`     | readers that hold zero-copy views across writes                 |
| `AdaptiveCell<T>`    | pinned views on demand, seqlock speed otherwise                 |
| `SpscQueue<T, N>`    | bounded first-in, first-out between two parties                 |
| `DoubleBuffer<T>`    | frame-boundary publish                                          |

Every write returns an epoch. A reader passes the epoch it saw last and learns how
many writes it has missed.

## Ownership

The types are ordinary owned values: the writer has `&mut`, readers have `&`. A view
is a receipt that names a block by its epoch; `get` looks at the block without
copying it, and `release` gives the view up. A reader slot is given up with the
registry's `release`. What remains true when the single loads and stores of two
threads interleave is stated and proved in `src/interleave.rs`, over the words and
decisions that the executable functions of `src/seqlock.rs` and `src/cell.rs` compute.
`src/steps.rs` shows the operations to be steps of the models there. `app/shared.rs`
lays two of the cells out in atomics on top of those functions.

## Layout

- `src/`: the library. Each `law_*` proof function states a property of the library
  as a whole, such as that a held view never moves (`src/sharing.rs`), that no torn
  value is ever returned, or that the mode hysteresis is exact.
- `tests/`: executable examples.
- `app/`: throughput programs and checks under real threads.
