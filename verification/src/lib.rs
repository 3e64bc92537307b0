//! Fibonacci growth patterns: Fibonacci and Lucas tables, the perfect-square
//! membership test, Zeckendorf representations, the unlock schedule of a
//! spiral skill tree and the spiral arm counts of a phyllotaxis pattern,
//! each with its contract and the laws that tie them together.

pub mod sequence_spec;
pub mod zeckendorf_spec;
pub mod squares;
pub mod fibonacci;
pub mod lucas;
pub mod skills;
pub mod phyllotaxis;

pub use fibonacci::{FibonacciSequence, fib_fits_u64};
pub use lucas::LucasSequence;
pub use skills::{SkillUnlock, find_skill, unlock_order};
pub use phyllotaxis::spiral_count_for_root;
