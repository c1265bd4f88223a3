//! Single-writer shared-state cells, their epoch bookkeeping and their
//! reclamation protocol.
//!
//! Every primitive here has one owning writer and any number of readers. The
//! writer stamps each publication with an epoch; a reader compares the epoch it
//! last saw with the one it sees now and learns how far it has fallen behind.
//!
//! | Module            | What it holds                                             |
//! |-------------------|-----------------------------------------------------------|
//! | [`epoch`]         | write and read results, the missed-write count            |
//! | [`payload`]       | which values travel inline and how their bits are tagged  |
//! | [`cell`]          | `Cell`, its causal chain of `Block`s, `ChainIter`         |
//! | [`ring`]          | `Ring`, a window over the last N writes                   |
//! | [`seqlock`]       | the control word, the reader's verdicts, `SeqCell`        |
//! | [`registry`]      | reader slots, hold stacks, epoch floors                   |
//! | [`bridge`]        | `BridgedCell`: pinned views and floor-guarded reclamation |
//! | [`sharing`]       | cells and all their readers, over any run of operations   |
//! | [`adaptive`]      | `AdaptiveCell`: seqlock by default, blocks on demand      |
//! | [`queue`]         | `SpscQueue`, a bounded FIFO                               |
//! | [`double_buffer`] | `DoubleBuffer`, frame-boundary publication                |
//! | [`interleave`]    | what holds when the steps of two threads interleave       |
//! | [`steps`]         | the operations as steps of those models                   |
//! | [`workload`]      | what the throughput programs publish, check and decide    |
pub mod epoch;
pub mod payload;
pub mod cell;
pub mod ring;
pub mod seqlock;
pub mod registry;
pub mod bridge;
pub mod sharing;
pub mod adaptive;
pub mod queue;
pub mod double_buffer;
pub mod workload;
pub mod interleave;
pub mod steps;
