//! Evaluation of revset expressions over an index of commits.

pub mod change_id_index;
pub mod eager;
pub mod engine;
pub mod expression;
pub mod expression_laws;
pub mod filter;
pub mod filter_laws;
pub mod graph;
pub mod hex_prefix;
pub mod id_index;
pub mod index;
pub mod iter;
pub mod latest;
pub mod latest_revset;
pub mod laws;
pub mod lookup_laws;
pub mod matchers;
pub mod object_id;
pub mod path_laws;
pub mod predicate;
pub mod revset;
pub mod revset_impl;
pub mod semantics;
pub mod set_laws;
pub mod sort;
pub mod store;
pub mod walk;
