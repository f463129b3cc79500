//! The binary dictionary: byte readers, header validation, the connection
//! cost table ([`grammar::Grammar`]) and the word list
//! ([`lexicon::Lexicon`]).

pub mod bytes;
pub mod grammar;
pub mod header;
pub mod lexicon;
