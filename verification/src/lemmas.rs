//! The lemmas behind the contracts of the library.

pub mod conditional;
pub mod equivalence;
pub mod items;
pub mod mined;
pub mod paths;
pub mod ranking;
pub mod sums;
pub mod support;
