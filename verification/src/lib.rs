//! Exact symbolic solving of equations in one unknown.
//!
//! A statement is classified, its two sides are multiplied out into sums of
//! terms with exact coefficients, and the unknown is isolated rule by rule;
//! every rewrite is recorded as a step of the derivation.
//!
//! - [`natural`], [`rational`], [`numeric`]: exact numbers of any size, in the
//!   forms in which they can be written, and their arithmetic;
//! - [`token`], [`ast`], [`syntax`], [`parse`]: tokens, syntax trees, the
//!   scanner, and the reader of statements;
//! - [`environment`], [`session`]: the names that a session knows;
//! - [`classify`]: the kind of problem that a statement poses;
//! - [`terms`], [`expand`], [`render`]: sums of terms, multiplying an
//!   expression out into one, and writing one out as an expression;
//! - [`engine`], [`quadratic`], [`solve`], [`log`]: the rewrite engine, the
//!   solver, and the derivation it records;
//! - [`term_laws`], [`expand_laws`], [`render_laws`], [`solve_laws`],
//!   [`quadratic_laws`], [`parse_laws`]: what the outcomes mean, proved.

pub mod ast;
pub mod classify;
pub mod engine;
pub mod environment;
pub mod error;
pub mod expand;
pub mod expand_laws;
pub mod log;
pub mod natural;
pub mod numeric;
pub mod parse;
pub mod parse_laws;
pub mod quadratic;
pub mod quadratic_laws;
pub mod rational;
pub mod render;
pub mod render_laws;
pub mod session;
pub mod solve;
pub mod solve_laws;
pub mod syntax;
pub mod term_laws;
pub mod terms;
pub mod token;
