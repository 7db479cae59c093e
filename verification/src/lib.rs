//! A verified character-level lexical scanner for a minimal expression
//! language: identifiers, the reserved word `int`, integer literals, `=`,
//! `>`, `>=` and the four arithmetic operators.
//!
//! [`laxer`] holds the scanner itself together with its mathematical model;
//! [`laws`] states and proves the scanner's general properties over that
//! model.
pub mod laws;
pub mod laxer;
