//! Tracks how a change that was merged into one branch travels through the
//! branches that follow it.
//!
//! A table of pattern/template rules says which branches a branch feeds into
//! and which link belongs to it ([`rules`], [`branches`]). From the tables a
//! tree of branches is grown, and every node is marked with whether the
//! change has arrived there ([`tree`]). Patterns are matched by the `regex`
//! crate ([`matcher`]); names are ordered and collected as texts ([`text`],
//! [`name_set`]).

pub mod branches;
pub mod matcher;
pub mod name_set;
pub mod rules;
pub mod text;
pub mod tree;
