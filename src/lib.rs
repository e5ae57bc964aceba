//! A kernel for a small dependently typed lambda calculus with inductive
//! types, dependent pairs and a duplication modality: de Bruijn terms, their
//! shifting and substitution, structural equality, normalization, and
//! bidirectional type inference, each specified against a mathematical model.
//!
//! - `model`: the model of terms and the transforms on it.
//! - `term`: executable terms, `shift`, `subs` and `equals`.
//! - `reduce`: the normalizer and the table of global definitions.
//! - `infer`: type inference.
//! - `laws`: laws of the kernel, proved over the model.
//! - `syntax`: a printer and a parser for a one-glyph-per-node notation.
//! - `round_trip`: reading back what the printer wrote gives the term again.
use vstd::prelude::*;

pub mod model;
pub mod term;
pub mod reduce;
pub mod infer;
pub mod laws;
pub mod syntax;
pub mod round_trip;

verus! {

} // verus!
