//! A calculator for flat, letter-encoded arithmetic expressions.
//!
//! The input alphabet is the ten decimal digits plus six letters standing for
//! the usual symbols: `a` is `+`, `b` is `-`, `c` is `*`, `d` is `/`, `e` is
//! `(` and `f` is `)`. An input string is parsed into a tree of tokens, one
//! node per bracket-nesting level, and the tree is then evaluated strictly
//! left to right: there is no operator precedence beyond explicit bracketing.
//!
//! The mathematical model of both phases lives in [`model`]; the executable
//! parser and evaluator in [`expression`] are proved to return exactly what
//! the model says, for every input.

pub mod error;
pub mod laws;
pub mod expression;
pub mod model;
pub mod number;
