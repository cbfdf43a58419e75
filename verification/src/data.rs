//! Shared data model: vocabulary entries, per-word code records, and the
//! construction-time error taxonomy.

use vstd::prelude::*;

verus! {

/// One immutable vocabulary entry: the ordered element sequence the word is
/// built from, the word's length (a length of one marks the word as eligible
/// for an abbreviated code), and its usage frequency.
#[derive(Clone, Debug)]
pub struct Word {
    /// Ordered sequence of one to four element identifiers.
    pub elements: Vec<usize>,
    /// Word length; `1` makes the word abbreviation-eligible.
    pub length: usize,
    /// Usage frequency used as the weight in every scoring tally.
    pub frequency: u64,
}

impl Word {
    /// The element sequence has between one and four entries.
    pub open spec fn len_ok(self) -> bool {
        1 <= self.elements@.len() <= 4
    }

    /// Every element identifier is below the mapping's cardinality.
    pub open spec fn elements_ok(self, element_count: int) -> bool {
        forall|k: int|
            0 <= k < self.elements@.len() ==> (#[trigger] self.elements@[k]) < element_count
    }

    /// A well-formed vocabulary entry for a mapping of `element_count` entries.
    pub open spec fn valid(self, element_count: int) -> bool {
        self.len_ok() && self.elements_ok(element_count)
    }
}

/// Every entry of the vocabulary is well formed.
pub open spec fn vocabulary_valid(words: Seq<Word>, element_count: int) -> bool {
    forall|i: int| 0 <= i < words.len() ==> (#[trigger] words[i]).valid(element_count)
}

/// One half of a per-word code record: either the full code or the short code.
#[derive(Clone, Copy, PartialEq, Eq, Structural, Debug)]
pub struct CodeSubRecord {
    /// Unpadded numeric code, the value collision counting works on.
    pub raw: u64,
    /// Raw code padded with the pad key to canonical width, for display and scoring.
    pub actual: u64,
    /// True when an earlier word in vocabulary order claimed the same raw code.
    pub duplicate: bool,
    /// Count of earlier words sharing this raw code when this word was processed.
    pub candidate_position: u32,
}

impl CodeSubRecord {
    /// The all-zero sub-record: the state before any encoding pass has run.
    pub open spec fn blank_spec() -> CodeSubRecord {
        CodeSubRecord { raw: 0, actual: 0, duplicate: false, candidate_position: 0 }
    }

    /// An all-zero sub-record, the state before any encoding pass has run.
    pub fn blank() -> (r: CodeSubRecord)
        ensures
            r == CodeSubRecord::blank_spec(),
    {
        CodeSubRecord { raw: 0, actual: 0, duplicate: false, candidate_position: 0 }
    }
}

/// Per-word encoding output, positionally aligned with the vocabulary.
#[derive(Clone, Copy, PartialEq, Eq, Structural, Debug)]
pub struct CodeRecord {
    /// The word's full code.
    pub full: CodeSubRecord,
    /// The word's short (abbreviated) code; equals the full code when no
    /// abbreviation slot was free.
    pub short: CodeSubRecord,
    /// Copy of the word's usage frequency, for the scorer.
    pub frequency: u64,
}

/// Construction-time validation failures; encoding itself never fails.
#[derive(Clone, Copy, PartialEq, Eq, Structural, Debug)]
pub enum CodecError {
    /// The base is below two, above the supported key-count ceiling, or its
    /// fourth power does not fit the machine's address space.
    BaseOutOfRange,
    /// The pad key's numeric value is not below the base.
    PadKeyOutOfRange,
    /// More words than the collision counters can tell apart.
    VocabularyTooLarge,
    /// Some word's element sequence is empty, longer than four entries, or
    /// references an element index outside the mapping.
    MalformedWord,
}

} // verus!
