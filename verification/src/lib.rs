//! A symbolic engine for an untyped lambda calculus in a bracket-delimited
//! notation: a tokenizer, a stack-based structural parser, a scope-checking
//! elaborator, and three single-step rewrite rules (alpha-renaming,
//! beta-substitution, and a restricted eta-collapse) over the typed tree.

pub mod internal_representation;
pub mod parse;
pub mod reductions;
