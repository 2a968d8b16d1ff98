//! A compile-time token expander: given a loop variable, an integer or
//! character range, and a template body made of nested token trees, it
//! produces the body repeated once per range value, with the variable
//! substituted either as a literal or fused onto a neighbouring identifier.
//!
//! The entry point is [`expand::seq`], which parses an invocation of the
//! shape `N in 0..=9 { ... }` from a token sequence and returns either the
//! expanded tokens or a `compile_error!` fragment carrying one diagnostic.
pub mod expand;
pub mod laws;
pub mod parse;
pub mod range;
pub mod text;
pub mod token;
