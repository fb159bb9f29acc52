//! A verified Connect Four engine with Monte Carlo tree search.
//!
//! `connect_four` owns the board: stone placement under gravity, win and
//! draw detection, and enumeration of legal moves. `mcts` grows a search
//! tree over board snapshots, selecting children by a fixed-point UCT
//! score, evaluating leaves by random rollout, and propagating results
//! back to the root. `fixed` holds the verified integer arithmetic that
//! the UCT score is computed with.

pub mod connect_four;
pub mod fixed;
pub mod mcts;
