//! The resolved output unit.

use vstd::prelude::*;

verus! {

/// One resolved morpheme: the dictionary word it stands for and the bytes
/// of text it covers.
#[derive(Clone, Debug, PartialEq, Eq)]
pub struct Morpheme {
    /// Id of the dictionary word.
    pub word_id: usize,
    /// The word's surface form: the exact bytes of input it covers.
    pub surface: Vec<u8>,
}

/// The word ids of a sequence of morphemes, in order.
pub open spec fn morph_ids(ms: Seq<Morpheme>) -> Seq<int> {
    ms.map_values(|m: Morpheme| m.word_id as int)
}

} // verus!
