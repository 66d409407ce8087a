//! Expressions that say what happens to packets, and what can be decided about them.
//!
//! An expression has a language: the words of packets that it admits.  [`aut`] turns
//! expressions into automata, [`spp`] and [`sp`] hold relations and sets of packets,
//! [`desugar`] takes the sugar out of the surface syntax that [`parser`] reads, and
//! [`holes`] fills holes in expressions so that bounds on their words are kept.
pub mod analysis;
pub mod aut;
pub mod bdd;
pub mod desugar;
pub mod expr;
pub mod flags;
pub mod holes;
pub mod kleene;
pub mod lang;
pub mod negation;
pub mod parser;
pub mod pre;
pub mod reading;
pub mod sp;
pub mod spp;
pub mod sugar;
pub mod text;


pub use crate::analysis::{
    analyze_difference, analyze_expression, greet, AnalysisResult, DifferenceResult,
};
