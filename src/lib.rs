//! Permissionless stake delegation across a set of validators: a scoring
//! engine, an allocator, an instant-unstake evaluator, a rebalancer and the
//! per-cycle state machine that drives them one validator at a time.
pub mod allocator;
pub mod five90;
pub mod rebalance;
pub mod score;
pub mod state;
pub mod unstake;
