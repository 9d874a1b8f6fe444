//! De Bruijn-indexed lambda terms with a verified reduction engine.
//!
//! [`lambda::Term`] is the executable term; its view, [`lambda::Lam`], is the
//! mathematical term that every contract is stated over.

pub mod confluence;
pub mod contexts;
pub mod eval;
pub mod generate;
pub mod lambda;
pub mod metrics;
pub mod print;
pub mod laws;
pub mod range;
pub mod strategy;
pub mod unique;
