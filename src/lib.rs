//! Extraction of the constraints of a Plonkish circuit into the text of a
//! formal specification.
//!
//! The library records what a replay of a circuit's synthesis does (enabled
//! selectors, fixed values, copy constraints, annotations), compacts that
//! record, and renders it, together with the circuit's gates, lookups and
//! shuffles, as named propositions over an abstract circuit record.
pub mod text;
pub mod term;
pub mod rowmap;
pub mod runs;
pub mod annotations;
pub mod grouping;
pub mod expr;
pub mod fixed;
pub mod recorder;
pub mod emit;
pub mod circuit;
pub mod constraints;
pub mod sections;
