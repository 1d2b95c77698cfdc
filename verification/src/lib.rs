//! Frequent item set mining with FP-Growth.
//!
//! The transactions are compressed into an FP-tree, a prefix tree of their
//! frequent items in the order of falling frequency. Mining walks the items
//! of the tree, reports each frequent one, and goes on in the item's
//! conditional tree, which holds what occurs together with it.
//!
//! `database` holds the mathematical model that the contracts speak of,
//! `laws` and `balance` what is proved of the mined sets and of the tree.

pub mod balance;
pub mod database;
pub mod label;
pub mod laws;
pub mod lemmas;
pub mod mining;
pub mod node;
pub mod parallel;
pub mod rows;
pub mod rules;
pub mod table;
pub mod tree;

pub use mining::{fp_growth, fp_growth_tree, total_items};
pub use node::FpNode;
pub use parallel::parallel_fp_growth;
pub use rules::{generate_association_rules, AssociationRule, RuleError};
pub use tree::FpTree;
