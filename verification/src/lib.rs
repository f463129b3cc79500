//! A morphological segmentation engine for text without explicit word
//! boundaries (such as Japanese).
//!
//! Given a binary dictionary and an input string, the engine builds a lattice
//! of candidate word spans, selects a least-cost path through it, and rewrites
//! that path at a requested granularity ([`Mode`]) into a sequence of
//! morphemes.

pub mod dic;
pub mod error;
pub mod lattice;
pub mod mode;
pub mod morpheme;
pub mod tokenizer;

pub use error::EngineError;
pub use mode::Mode;
pub use morpheme::Morpheme;
pub use tokenizer::Tokenize;
pub use tokenizer::Tokenizer;
