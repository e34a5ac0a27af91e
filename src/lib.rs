//! Integer square root with a log2 seed and Newton refinement, a memoizing
//! store for its results, and a small persistent counter.
pub mod counter;
pub mod math;
pub mod sqrt;
pub mod store;

pub use counter::{IncrementContract, State};
pub use sqrt::SqrtContract;
pub use store::SqrtStore;
