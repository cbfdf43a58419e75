//! The codec: derives a canonical full code and an abbreviated short code for
//! every vocabulary word from the current element-to-key mapping, counting
//! collisions in two dense spaces, with support for incremental re-encoding.

use vstd::prelude::*;
use crate::data::{CodeRecord, CodeSubRecord, CodecError, Word, vocabulary_valid};

verus! {

broadcast use vstd::seq_lib::lemma_seq_contains_after_push;

/// The key contributed by element position `k` of a word, or zero when the
/// word has no element at that position.
pub open spec fn digit_at(elems: Seq<usize>, mapping: Seq<u64>, k: int) -> int {
    if 0 <= k < elems.len() {
        mapping[elems[k] as int] as int
    } else {
        0
    }
}

/// Raw full code of a word: a base-`base` positional encoding of the keys of
/// its up-to-four elements, least-significant digit first; missing positions
/// contribute zero.
pub open spec fn full_raw_spec(elems: Seq<usize>, mapping: Seq<u64>, base: u64) -> int {
    let b = base as int;
    digit_at(elems, mapping, 0) + digit_at(elems, mapping, 1) * b + digit_at(elems, mapping, 2) * b
        * b + digit_at(elems, mapping, 3) * b * b * b
}

/// The raw full codes of the whole vocabulary, in vocabulary order.
pub open spec fn full_raws_spec(words: Seq<Word>, mapping: Seq<u64>, base: u64) -> Seq<int> {
    Seq::new(words.len(), |i: int| full_raw_spec(words[i].elements@, mapping, base))
}

/// Actual (display) form of a raw full code: codes below the canonical width
/// get the pad key inserted at the most significant missing digit.
pub open spec fn padded_spec(raw: int, base: u64, pad: u64) -> int {
    let b = base as int;
    if raw < b * b {
        raw + pad * (b * b)
    } else if raw < b * b * b {
        raw + pad * (b * b * b)
    } else {
        raw
    }
}

/// How many of the first `n` values equal `v`.
pub open spec fn count_eq(vals: Seq<int>, v: int, n: int) -> int
    decreases n,
{
    if n <= 0 {
        0
    } else {
        count_eq(vals, v, n - 1) + if vals[n - 1] == v {
            1int
        } else {
            0int
        }
    }
}

/// The raw short code the short-code pass assigns to word `i`, given the raw
/// full codes of the whole vocabulary: a word of length one takes its 1-key
/// candidate if that slot is claimed by no full code and no earlier short
/// code, else its 2-key candidate under the same test, else its full code;
/// longer words always keep their full code.
pub open spec fn short_raw_spec(words: Seq<Word>, fraws: Seq<int>, base: u64, i: int) -> int
    decreases i, 1int,
{
    let b = base as int;
    let r = fraws[i];
    if words[i].length == 1 {
        let r1 = r % b;
        if count_eq(fraws, r1, fraws.len() as int) + short_count_before(words, fraws, base, r1, i)
            == 0 {
            r1
        } else {
            let r2 = r % (b * b);
            if count_eq(fraws, r2, fraws.len() as int) + short_count_before(
                words,
                fraws,
                base,
                r2,
                i,
            ) == 0 {
                r2
            } else {
                r
            }
        }
    } else {
        r
    }
}

/// How many of the first `i` words were assigned `v` as their raw short code.
pub open spec fn short_count_before(
    words: Seq<Word>,
    fraws: Seq<int>,
    base: u64,
    v: int,
    i: int,
) -> int
    decreases i, 0int,
{
    if i <= 0 {
        0
    } else {
        short_count_before(words, fraws, base, v, i - 1) + if short_raw_spec(
            words,
            fraws,
            base,
            i - 1,
        ) == v {
            1int
        } else {
            0int
        }
    }
}

/// Actual (display) form of word `i`'s short code: the 1-key candidate padded
/// in position one, the 2-key candidate padded in position two, or the word's
/// actual full code when no abbreviation slot was free.
pub open spec fn short_actual_spec(
    words: Seq<Word>,
    fraws: Seq<int>,
    base: u64,
    pad: u64,
    i: int,
) -> int {
    let b = base as int;
    let r = fraws[i];
    if words[i].length == 1 {
        let r1 = r % b;
        if count_eq(fraws, r1, fraws.len() as int) + short_count_before(words, fraws, base, r1, i)
            == 0 {
            r1 + pad * b
        } else {
            let r2 = r % (b * b);
            if count_eq(fraws, r2, fraws.len() as int) + short_count_before(
                words,
                fraws,
                base,
                r2,
                i,
            ) == 0 {
                r2 + pad * (b * b)
            } else {
                padded_spec(r, base, pad)
            }
        }
    } else {
        padded_spec(r, base, pad)
    }
}

/// The mapping assigns to each of `element_count` elements a key below `base`.
pub open spec fn mapping_valid(mapping: Seq<u64>, element_count: int, base: u64) -> bool {
    &&& mapping.len() == element_count
    &&& forall|e: int| 0 <= e < mapping.len() ==> (#[trigger] mapping[e]) < base
}

/// The base is at least two (the pad key and one more key exist), small enough
/// that the fourth power fits the collision arrays' index type.
pub open spec fn base_ok(base: u64) -> bool {
    &&& 2 <= base <= 0xFFFF
    &&& (base as int) * (base as int) * (base as int) * (base as int) <= usize::MAX as int
}

/// Word `i`'s full record holds exactly what the full-code passes compute:
/// the raw code from the mapping, the padded actual code, and the collision
/// data determined by the earlier words' raw codes.
pub open spec fn full_record_matches(
    words: Seq<Word>,
    mapping: Seq<u64>,
    base: u64,
    pad: u64,
    recs: Seq<CodeRecord>,
    i: int,
) -> bool {
    let fraws = full_raws_spec(words, mapping, base);
    &&& recs[i].full.raw == fraws[i]
    &&& recs[i].full.actual == padded_spec(fraws[i], base, pad)
    &&& recs[i].full.candidate_position == count_eq(fraws, fraws[i], i)
    &&& recs[i].full.duplicate == (count_eq(fraws, fraws[i], i) > 0)
}

/// Word `i`'s short record holds exactly what the short-code pass computes.
pub open spec fn short_record_matches(
    words: Seq<Word>,
    mapping: Seq<u64>,
    base: u64,
    pad: u64,
    recs: Seq<CodeRecord>,
    i: int,
) -> bool {
    let fraws = full_raws_spec(words, mapping, base);
    let sraw = short_raw_spec(words, fraws, base, i);
    &&& recs[i].short.raw == sraw
    &&& recs[i].short.actual == short_actual_spec(words, fraws, base, pad, i)
    &&& recs[i].short.candidate_position == short_count_before(words, fraws, base, sraw, i)
    &&& recs[i].short.duplicate == (short_count_before(words, fraws, base, sraw, i) > 0)
}

/// The whole record table is exactly what one `encode` call on this
/// vocabulary and mapping produces.
pub open spec fn records_match(
    words: Seq<Word>,
    mapping: Seq<u64>,
    base: u64,
    pad: u64,
    recs: Seq<CodeRecord>,
) -> bool {
    &&& recs.len() == words.len()
    &&& forall|i: int| 0 <= i < words.len() ==> full_record_matches(words, mapping, base, pad, recs, i)
    &&& forall|i: int|
        0 <= i < words.len() ==> short_record_matches(words, mapping, base, pad, recs, i)
    &&& forall|i: int|
        0 <= i < words.len() ==> (#[trigger] recs[i]).frequency == words[i].frequency
}

/// Every counter of a collision space is zero.
pub open spec fn space_zero(s: Seq<u32>) -> bool {
    forall|v: int| 0 <= v < s.len() ==> (#[trigger] s[v]) == 0
}

/// Owns the per-word records, the two dense collision-counting spaces, and
/// the element-to-words reverse index used for incremental re-encoding.
pub struct Codec {
    /// Number of distinct keys usable in one code position.
    pub base: u64,
    /// Numeric value of the reserved space/pad key.
    pub pad_key: u64,
    /// The vocabulary, in its stable order.
    pub words: Vec<Word>,
    /// Per-word encoding output, positionally aligned with `words`.
    pub records: Vec<CodeRecord>,
    /// Collision counters for raw full codes, one per value below `base^4`.
    pub full_space: Vec<u32>,
    /// Collision counters for raw short codes, one per value below `base^4`.
    pub short_space: Vec<u32>,
    /// For each element, the positions of the words whose element sequence
    /// contains it (one entry per occurrence).
    pub words_containing: Vec<Vec<usize>>,
}

impl Codec {
    /// The mapping cardinality this codec was built for.
    pub open spec fn element_count(self) -> int {
        self.words_containing@.len() as int
    }

    /// Size of each collision space: `base` to the fourth power.
    pub open spec fn space_size(self) -> int {
        (self.base as int) * (self.base as int) * (self.base as int) * (self.base as int)
    }

    /// Internal invariant: parameters in range, vocabulary well formed,
    /// records aligned with the vocabulary, spaces of the canonical size, and
    /// the reverse index complete and sound for this vocabulary.
    pub open spec fn wf(self) -> bool {
        &&& base_ok(self.base)
        &&& self.pad_key < self.base
        &&& self.words@.len() <= u32::MAX
        &&& vocabulary_valid(self.words@, self.element_count())
        &&& self.records@.len() == self.words@.len()
        &&& forall|i: int|
            0 <= i < self.words@.len() ==> (#[trigger] self.records@[i]).frequency
                == self.words@[i].frequency
        &&& self.full_space@.len() == self.space_size()
        &&& self.short_space@.len() == self.space_size()
        &&& forall|i: int, k: int|
            0 <= i < self.words@.len() && 0 <= k < self.words@[i].elements@.len()
                ==> self.words_containing@[(#[trigger] self.words@[i].elements@[k]) as int]@.contains(
                i as usize,
            )
        &&& forall|e: int, j: int|
            0 <= e < self.words_containing@.len() && 0 <= j < self.words_containing@[e]@.len()
                ==> (#[trigger] self.words_containing@[e]@[j]) < self.words@.len()
                && self.words@[self.words_containing@[e]@[j] as int].elements@.contains(e as usize)
    }
}

/// A vector of `n` zeroed collision counters.
fn zeroed_space(n: usize) -> (r: Vec<u32>)
    ensures
        r@.len() == n,
        space_zero(r@),
{
    let mut v: Vec<u32> = Vec::new();
    while v.len() < n
        invariant
            v@.len() <= n,
            space_zero(v@),
        decreases n - v@.len(),
    {
        v.push(0);
    }
    v
}

/// Validates the vocabulary and builds the element-to-words reverse index:
/// for each element, the positions of the words containing it.
fn build_reverse_index(words: &Vec<Word>, element_count: usize) -> (r: Result<
    Vec<Vec<usize>>,
    CodecError,
>)
    ensures
        r is Ok <==> vocabulary_valid(words@, element_count as int),
        r matches Ok(wc) ==> {
            &&& wc@.len() == element_count
            &&& (forall|i: int, k: int|
                0 <= i < words@.len() && 0 <= k < words@[i].elements@.len()
                    ==> wc@[(#[trigger] words@[i].elements@[k]) as int]@.contains(i as usize))
            &&& (forall|e: int, j: int|
                0 <= e < wc@.len() && 0 <= j < wc@[e]@.len() ==> (#[trigger] wc@[e]@[j])
                    < words@.len() && words@[wc@[e]@[j] as int].elements@.contains(e as usize))
        },
        r is Err ==> r == Err::<Vec<Vec<usize>>, CodecError>(CodecError::MalformedWord),
{
    let mut wc: Vec<Vec<usize>> = Vec::new();
    while wc.len() < element_count
        invariant
            wc@.len() <= element_count,
            forall|e: int| 0 <= e < wc@.len() ==> (#[trigger] wc@[e])@.len() == 0,
        decreases element_count - wc@.len(),
    {
        wc.push(Vec::new());
    }
    let mut i: usize = 0;
    while i < words.len()
        invariant
            i <= words@.len(),
            wc@.len() == element_count,
            forall|j: int| 0 <= j < i ==> (#[trigger] words@[j]).valid(element_count as int),
            forall|j: int, k: int|
                0 <= j < i && 0 <= k < words@[j].elements@.len()
                    ==> wc@[(#[trigger] words@[j].elements@[k]) as int]@.contains(j as usize),
            forall|e: int, jj: int|
                0 <= e < wc@.len() && 0 <= jj < wc@[e]@.len() ==> (#[trigger] wc@[e]@[jj]) < i
                    && words@[wc@[e]@[jj] as int].elements@.contains(e as usize),
        decreases words@.len() - i,
    {
        let n_elems = words[i].elements.len();
        if n_elems < 1 || n_elems > 4 {
            return Err(CodecError::MalformedWord);
        }
        let mut k: usize = 0;
        while k < words[i].elements.len()
            invariant
                i < words@.len(),
                k <= words@[i as int].elements@.len(),
                wc@.len() == element_count,
                forall|j: int| 0 <= j < i ==> (#[trigger] words@[j]).valid(element_count as int),
                forall|j: int, kk: int|
                    0 <= j < i && 0 <= kk < words@[j].elements@.len()
                        ==> wc@[(#[trigger] words@[j].elements@[kk]) as int]@.contains(j as usize),
                forall|t: int|
                    0 <= t < k ==> (#[trigger] words@[i as int].elements@[t]) < element_count,
                forall|t: int|
                    0 <= t < k ==> wc@[(#[trigger] words@[i as int].elements@[t]) as int]@.contains(
                        i,
                    ),
                forall|e: int, jj: int|
                    0 <= e < wc@.len() && 0 <= jj < wc@[e]@.len() ==> (#[trigger] wc@[e]@[jj]) <= i
                        && words@[wc@[e]@[jj] as int].elements@.contains(e as usize),
            decreases words@[i as int].elements@.len() - k,
        {
            let e: usize = words[i].elements[k];
            if e >= element_count {
                return Err(CodecError::MalformedWord);
            }
            assert(words@[i as int].elements@[k as int] == e);
            assert(words@[i as int].elements@.contains(e));
            wc[e].push(i);
            k += 1;
        }
        i += 1;
    }
    Ok(wc)
}

impl Codec {
    /// The parameter checks `new` makes before reading the vocabulary.
    pub open spec fn params_ok(base: u64, pad_key: u64, n_words: int) -> bool {
        &&& base_ok(base)
        &&& pad_key < base
        &&& n_words <= u32::MAX
    }

    /// Builds a codec for the given vocabulary: validates every word against
    /// the mapping's cardinality, allocates the per-word records and the two
    /// `base^4`-sized collision spaces, and builds the reverse index.
    pub fn new(words: Vec<Word>, element_count: usize, base: u64, pad_key: u64) -> (r: Result<
        Codec,
        CodecError,
    >)
        ensures
            r is Ok <==> Self::params_ok(base, pad_key, words@.len() as int) && vocabulary_valid(
                words@,
                element_count as int,
            ),
            r matches Ok(c) ==> {
                &&& c.wf()
                &&& c.base == base
                &&& c.pad_key == pad_key
                &&& c.element_count() == element_count
                &&& c.words@ == words@
                &&& space_zero(c.full_space@)
                &&& space_zero(c.short_space@)
                &&& forall|i: int|
                    0 <= i < words@.len() ==> (#[trigger] c.records@[i]).frequency
                        == words@[i].frequency && c.records@[i].full == CodeSubRecord::blank_spec()
                        && c.records@[i].short == CodeSubRecord::blank_spec()
            },
            r == Err::<Codec, CodecError>(CodecError::BaseOutOfRange) <==> !base_ok(base),
            r == Err::<Codec, CodecError>(CodecError::PadKeyOutOfRange) <==> base_ok(base)
                && pad_key >= base,
            r == Err::<Codec, CodecError>(CodecError::VocabularyTooLarge) <==> base_ok(base)
                && pad_key < base && words@.len() > u32::MAX,
            r == Err::<Codec, CodecError>(CodecError::MalformedWord) <==> Self::params_ok(
                base,
                pad_key,
                words@.len() as int,
            ) && !vocabulary_valid(words@, element_count as int),
    {
        if base < 2 || base > 0xFFFF {
            return Err(CodecError::BaseOutOfRange);
        }
        proof {
            lemma_base_pow4_fits(base);
        }
        let b2: u64 = base * base;
        proof {
            let b = base as int;
            assert((b * b) * (b * b) == b * b * b * b) by (nonlinear_arith);
        }
        let b4: u64 = b2 * b2;
        if b4 > usize::MAX as u64 {
            return Err(CodecError::BaseOutOfRange);
        }
        if pad_key >= base {
            return Err(CodecError::PadKeyOutOfRange);
        }
        if words.len() > u32::MAX as usize {
            return Err(CodecError::VocabularyTooLarge);
        }
        let words_containing = match build_reverse_index(&words, element_count) {
            Ok(wc) => wc,
            Err(e) => {
                return Err(e);
            },
        };
        let mut records: Vec<CodeRecord> = Vec::new();
        let mut i: usize = 0;
        while i < words.len()
            invariant
                i <= words@.len(),
                records@.len() == i,
                forall|j: int|
                    0 <= j < i ==> (#[trigger] records@[j]).frequency == words@[j].frequency
                        && records@[j].full == CodeSubRecord::blank_spec() && records@[j].short
                        == CodeSubRecord::blank_spec(),
            decreases words@.len() - i,
        {
            records.push(
                CodeRecord {
                    full: CodeSubRecord::blank(),
                    short: CodeSubRecord::blank(),
                    frequency: words[i].frequency,
                },
            );
            i += 1;
        }
        let full_space = zeroed_space(b4 as usize);
        let short_space = zeroed_space(b4 as usize);
        Ok(Codec { base, pad_key, words, records, full_space, short_space, words_containing })
    }
}

impl Codec {
    /// Zeroes both collision spaces. Collision counts are a function of the
    /// entire current mapping, so every `encode` call starts with this.
    pub fn reset_spaces(&mut self)
        ensures
            final(self).base == old(self).base,
            final(self).pad_key == old(self).pad_key,
            final(self).words == old(self).words,
            final(self).records == old(self).records,
            final(self).words_containing == old(self).words_containing,
            final(self).full_space@.len() == old(self).full_space@.len(),
            final(self).short_space@.len() == old(self).short_space@.len(),
            space_zero(final(self).full_space@),
            space_zero(final(self).short_space@),
            old(self).wf() ==> final(self).wf(),
    {
        let mut v: usize = 0;
        while v < self.full_space.len()
            invariant
                v <= self.full_space@.len(),
                self.base == old(self).base,
                self.pad_key == old(self).pad_key,
                self.words == old(self).words,
                self.records == old(self).records,
                self.words_containing == old(self).words_containing,
                self.full_space@.len() == old(self).full_space@.len(),
                self.short_space == old(self).short_space,
                forall|t: int| 0 <= t < v ==> (#[trigger] self.full_space@[t]) == 0,
            decreases self.full_space@.len() - v,
        {
            self.full_space[v] = 0;
            v += 1;
        }
        let mut v: usize = 0;
        while v < self.short_space.len()
            invariant
                v <= self.short_space@.len(),
                self.base == old(self).base,
                self.pad_key == old(self).pad_key,
                self.words == old(self).words,
                self.records == old(self).records,
                self.words_containing == old(self).words_containing,
                self.full_space@.len() == old(self).full_space@.len(),
                self.short_space@.len() == old(self).short_space@.len(),
                space_zero(self.full_space@),
                forall|t: int| 0 <= t < v ==> (#[trigger] self.short_space@[t]) == 0,
            decreases self.short_space@.len() - v,
        {
            self.short_space[v] = 0;
            v += 1;
        }
    }
}

/// Bounds on the partial sums the full-code rule accumulates, so that the
/// accumulation neither overflows nor leaves the collision space.
proof fn lemma_code_accumulate(b: int, d0: int, d1: int, d2: int, d3: int)
    requires
        2 <= b <= 0xFFFF,
        0 <= d0 < b,
        0 <= d1 < b,
        0 <= d2 < b,
        0 <= d3 < b,
    ensures
        d1 * b < b * b,
        d2 * b < b * b,
        (d2 * b) * b < b * b * b,
        d3 * b < b * b,
        (d3 * b) * b < b * b * b,
        ((d3 * b) * b) * b < b * b * b * b,
        d0 + d1 * b < b * b,
        d0 + d1 * b + (d2 * b) * b < b * b * b,
        d0 + d1 * b + (d2 * b) * b + ((d3 * b) * b) * b < b * b * b * b,
        (d2 * b) * b == d2 * b * b,
        ((d3 * b) * b) * b == d3 * b * b * b,
        b * b <= 0xFFFF * 0xFFFF,
        b * b * b <= 0xFFFF * 0xFFFF * 0xFFFF,
        b * b * b * b <= 0xFFFF * 0xFFFF * 0xFFFF * 0xFFFF,
{
    assert(d1 * b < b * b && d2 * b < b * b && (d2 * b) * b < b * b * b && d3 * b < b * b && (d3
        * b) * b < b * b * b && ((d3 * b) * b) * b < b * b * b * b && d0 + d1 * b < b * b && d0 + d1
        * b + (d2 * b) * b < b * b * b && d0 + d1 * b + (d2 * b) * b + ((d3 * b) * b) * b < b * b
        * b * b && (d2 * b) * b == d2 * b * b && ((d3 * b) * b) * b == d3 * b * b * b) by (nonlinear_arith)
        requires
            2 <= b,
            0 <= d0 < b,
            0 <= d1 < b,
            0 <= d2 < b,
            0 <= d3 < b,
    ;
    assert(b * b <= 0xFFFF * 0xFFFF && b * b * b <= 0xFFFF * 0xFFFF * 0xFFFF && b * b * b * b
        <= 0xFFFF * 0xFFFF * 0xFFFF * 0xFFFF) by (nonlinear_arith)
        requires
            2 <= b <= 0xFFFF,
    ;
}

/// Raw full code of one word under the given mapping: the base-`base`
/// positional encoding of the keys of its up-to-four elements,
/// least-significant digit first.
fn full_code_rule(word: &Word, mapping: &Vec<u64>, base: u64) -> (r: u64)
    requires
        base_ok(base),
        word.valid(mapping@.len() as int),
        forall|e: int| 0 <= e < mapping@.len() ==> (#[trigger] mapping@[e]) < base,
    ensures
        r == full_raw_spec(word.elements@, mapping@, base),
        r < (base as int) * (base as int) * (base as int) * (base as int),
{
    let n = word.elements.len();
    let d0: u64 = mapping[word.elements[0]];
    let d1: u64 = if n >= 2 {
        mapping[word.elements[1]]
    } else {
        0
    };
    let d2: u64 = if n >= 3 {
        mapping[word.elements[2]]
    } else {
        0
    };
    let d3: u64 = if n >= 4 {
        mapping[word.elements[3]]
    } else {
        0
    };
    proof {
        lemma_code_accumulate(base as int, d0 as int, d1 as int, d2 as int, d3 as int);
        assert(d0 == digit_at(word.elements@, mapping@, 0));
        assert(d1 == digit_at(word.elements@, mapping@, 1));
        assert(d2 == digit_at(word.elements@, mapping@, 2));
        assert(d3 == digit_at(word.elements@, mapping@, 3));
    }
    d0 + d1 * base + (d2 * base) * base + ((d3 * base) * base) * base
}

/// Bounds on the padded forms of a raw code, so that padding neither
/// overflows nor leaves the collision space.
proof fn lemma_pad_bounds(b: int, pad: int)
    requires
        2 <= b <= 0xFFFF,
        0 <= pad < b,
    ensures
        0 <= pad * b,
        pad * b + b <= b * b,
        0 <= pad * (b * b),
        pad * (b * b) + b * b <= b * b * b,
        0 <= pad * (b * b * b),
        pad * (b * b * b) + b * b * b <= b * b * b * b,
        b <= b * b,
        b * b <= b * b * b,
        b * b * b <= b * b * b * b,
        b * b <= 0xFFFF * 0xFFFF,
        b * b * b <= 0xFFFF * 0xFFFF * 0xFFFF,
        b * b * b * b <= 0xFFFF * 0xFFFF * 0xFFFF * 0xFFFF,
{
    assert(0 <= pad * b && pad * b + b <= b * b && 0 <= pad * (b * b) && pad * (b * b) + b * b <= b
        * b * b && 0 <= pad * (b * b * b) && pad * (b * b * b) + b * b * b <= b * b * b * b && b <= b
        * b && b * b <= b * b * b && b * b * b <= b * b * b * b) by (nonlinear_arith)
        requires
            2 <= b,
            0 <= pad < b,
    ;
    assert(b * b <= 0xFFFF * 0xFFFF && b * b * b <= 0xFFFF * 0xFFFF * 0xFFFF && b * b * b * b
        <= 0xFFFF * 0xFFFF * 0xFFFF * 0xFFFF) by (nonlinear_arith)
        requires
            2 <= b <= 0xFFFF,
    ;
}

/// Some element of `w` lies in `changed`.
pub open spec fn word_touched(w: Word, changed: Seq<usize>) -> bool {
    exists|k: int| 0 <= k < w.elements@.len() && changed.contains(#[trigger] w.elements@[k])
}

/// The two records agree everywhere except possibly in the raw full code.
pub open spec fn same_but_full_raw(a: CodeRecord, b: CodeRecord) -> bool {
    &&& a.short == b.short
    &&& a.frequency == b.frequency
    &&& a.full.actual == b.full.actual
    &&& a.full.duplicate == b.full.duplicate
    &&& a.full.candidate_position == b.full.candidate_position
}

impl Codec {
    /// Every word that no changed element touches already stores the raw full
    /// code the current mapping gives it — the caller's warrant for handing
    /// `encode` an incremental hint.
    pub open spec fn stale_raws_ok(self, mapping: Seq<u64>, changed: Seq<usize>) -> bool {
        forall|i: int|
            0 <= i < self.words@.len() && !word_touched(#[trigger] self.words@[i], changed)
                ==> self.records@[i].full.raw == full_raw_spec(
                self.words@[i].elements@,
                mapping,
                self.base,
            )
    }

    /// Full-code pass: recomputes raw full codes (all words, or only those an
    /// incremental hint touches), then pads, flags duplicates and counts
    /// collisions over the whole vocabulary in order.
    #[verifier::loop_isolation(false)]
    fn output_full_codes(&mut self, mapping: &Vec<u64>, changed: &Option<Vec<usize>>)
        requires
            old(self).wf(),
            mapping_valid(mapping@, old(self).element_count(), old(self).base),
            space_zero(old(self).full_space@),
            changed matches Some(ch) ==> (forall|t: int|
                0 <= t < ch@.len() ==> (#[trigger] ch@[t]) < old(self).element_count()),
            changed matches Some(ch) ==> old(self).stale_raws_ok(mapping@, ch@),
        ensures
            final(self).wf(),
            final(self).base == old(self).base,
            final(self).pad_key == old(self).pad_key,
            final(self).words == old(self).words,
            final(self).words_containing == old(self).words_containing,
            final(self).short_space == old(self).short_space,
            final(self).records@.len() == old(self).records@.len(),
            forall|i: int|
                0 <= i < old(self).words@.len() ==> full_record_matches(
                    old(self).words@,
                    mapping@,
                    old(self).base,
                    old(self).pad_key,
                    final(self).records@,
                    i,
                ),
            forall|i: int|
                0 <= i < old(self).words@.len() ==> (#[trigger] final(self).records@[i]).short
                    == old(self).records@[i].short && final(self).records@[i].frequency == old(
                    self,
                ).records@[i].frequency,
            forall|v: int|
                0 <= v < old(self).space_size() ==> (#[trigger] final(self).full_space@[v])
                    == count_eq(
                    full_raws_spec(old(self).words@, mapping@, old(self).base),
                    v,
                    old(self).words@.len() as int,
                ),
    {
        let ghost fraws = full_raws_spec(old(self).words@, mapping@, old(self).base);
        // Phase one: bring every record's raw full code up to date.
        match changed {
            Some(ch) => {
                let mut c: usize = 0;
                while c < ch.len()
                    invariant
                        c <= ch@.len(),
                        self.wf(),
                        self.base == old(self).base,
                        self.pad_key == old(self).pad_key,
                        self.words == old(self).words,
                        self.words_containing == old(self).words_containing,
                        self.full_space == old(self).full_space,
                        self.short_space == old(self).short_space,
                        self.records@.len() == old(self).records@.len(),
                        mapping_valid(mapping@, self.element_count(), self.base),
                        forall|t: int|
                            0 <= t < ch@.len() ==> (#[trigger] ch@[t]) < self.element_count(),
                        forall|i: int|
                            0 <= i < self.records@.len() ==> same_but_full_raw(
                                #[trigger] self.records@[i],
                                old(self).records@[i],
                            ),
                        forall|i: int|
                            0 <= i < self.words@.len() && word_touched(
                                #[trigger] self.words@[i],
                                ch@.subrange(0, c as int),
                            ) ==> self.records@[i].full.raw == fraws[i],
                        forall|i: int|
                            0 <= i < self.words@.len() && !word_touched(
                                #[trigger] self.words@[i],
                                ch@.subrange(0, c as int),
                            ) ==> self.records@[i].full.raw == old(self).records@[i].full.raw,
                    decreases ch@.len() - c,
                {
                    let e: usize = ch[c];
                    let ghost prev_recs = self.records@;
                    let ghost touched_pre = ch@.subrange(0, c as int);
                    let mut j: usize = 0;
                    while j < self.words_containing[e].len()
                        invariant
                            j <= self.words_containing@[e as int]@.len(),
                            e < self.element_count(),
                            self.wf(),
                            self.base == old(self).base,
                            self.pad_key == old(self).pad_key,
                            self.words == old(self).words,
                            self.words_containing == old(self).words_containing,
                            self.full_space == old(self).full_space,
                            self.short_space == old(self).short_space,
                            self.records@.len() == old(self).records@.len(),
                            mapping_valid(mapping@, self.element_count(), self.base),
                            forall|i: int|
                                0 <= i < self.records@.len() ==> same_but_full_raw(
                                    #[trigger] self.records@[i],
                                    old(self).records@[i],
                                ),
                            forall|i: int|
                                0 <= i < self.words@.len() && word_touched(
                                    #[trigger] self.words@[i],
                                    touched_pre,
                                ) ==> self.records@[i].full.raw == fraws[i],
                            forall|jj: int|
                                0 <= jj < j ==> self.records@[(
                                #[trigger] self.words_containing@[e as int]@[jj]) as int].full.raw
                                    == fraws[self.words_containing@[e as int]@[jj] as int],
                            forall|i: int|
                                0 <= i < self.words@.len() && !word_touched(
                                    #[trigger] self.words@[i],
                                    touched_pre,
                                ) && !self.words_containing@[e as int]@.subrange(
                                    0,
                                    j as int,
                                ).contains(i as usize) ==> self.records@[i].full.raw
                                    == prev_recs[i].full.raw,
                        decreases self.words_containing@[e as int]@.len() - j,
                    {
                        let idx: usize = self.words_containing[e][j];
                        let raw = full_code_rule(&self.words[idx], mapping, self.base);
                        let mut rec = self.records[idx];
                        rec.full.raw = raw;
                        self.records[idx] = rec;
                        proof {
                            assert(self.words_containing@[e as int]@.subrange(0, (j + 1) as int)
                                =~= self.words_containing@[e as int]@.subrange(0, j as int).push(
                                self.words_containing@[e as int]@[j as int],
                            ));
                        }
                        j += 1;
                    }
                    proof {
                        assert(ch@.subrange(0, (c + 1) as int) =~= touched_pre.push(
                            ch@[c as int],
                        ));
                        assert forall|i: int|
                            0 <= i < self.words@.len() && word_touched(
                                #[trigger] self.words@[i],
                                ch@.subrange(0, (c + 1) as int),
                            ) implies self.records@[i].full.raw == fraws[i] by {
                            if !word_touched(self.words@[i], touched_pre) {
                                let k = choose|k: int|
                                    0 <= k < self.words@[i].elements@.len() && ch@.subrange(
                                        0,
                                        (c + 1) as int,
                                    ).contains(#[trigger] self.words@[i].elements@[k]);
                                assert(self.words@[i].elements@[k] == e);
                                assert(self.words_containing@[e as int]@.contains(i as usize));
                                let jj = choose|jj: int|
                                    0 <= jj < self.words_containing@[e as int]@.len()
                                        && self.words_containing@[e as int]@[jj] == i as usize;
                                assert(self.words_containing@[e as int]@.subrange(
                                    0,
                                    self.words_containing@[e as int]@.len() as int,
                                ) =~= self.words_containing@[e as int]@);
                            }
                        }
                        assert forall|i: int|
                            0 <= i < self.words@.len() && !word_touched(
                                #[trigger] self.words@[i],
                                ch@.subrange(0, (c + 1) as int),
                            ) implies self.records@[i].full.raw == old(
                            self,
                        ).records@[i].full.raw by {
                            assert(!word_touched(self.words@[i], touched_pre));
                            assert(!self.words@[i].elements@.contains(e));
                            assert(!self.words_containing@[e as int]@.contains(i as usize));
                            assert(self.words_containing@[e as int]@.subrange(
                                0,
                                self.words_containing@[e as int]@.len() as int,
                            ) =~= self.words_containing@[e as int]@);
                        }
                    }
                    c += 1;
                }
                proof {
                    assert(ch@.subrange(0, ch@.len() as int) =~= ch@);
                }
            },
            None => {
                let mut i: usize = 0;
                while i < self.words.len()
                    invariant
                        i <= self.words@.len(),
                        self.wf(),
                        self.base == old(self).base,
                        self.pad_key == old(self).pad_key,
                        self.words == old(self).words,
                        self.words_containing == old(self).words_containing,
                        self.full_space == old(self).full_space,
                        self.short_space == old(self).short_space,
                        self.records@.len() == old(self).records@.len(),
                        mapping_valid(mapping@, self.element_count(), self.base),
                        forall|t: int|
                            0 <= t < self.records@.len() ==> same_but_full_raw(
                                #[trigger] self.records@[t],
                                old(self).records@[t],
                            ),
                        forall|t: int|
                            0 <= t < i ==> (#[trigger] self.records@[t]).full.raw == fraws[t],
                    decreases self.words@.len() - i,
                {
                    let raw = full_code_rule(&self.words[i], mapping, self.base);
                    let mut rec = self.records[i];
                    rec.full.raw = raw;
                    self.records[i] = rec;
                    i += 1;
                }
            },
        }
        assert(forall|i: int|
            0 <= i < self.words@.len() ==> (#[trigger] self.records@[i]).full.raw == fraws[i]);
        // Phase two: pad, flag duplicates and count collisions in vocabulary
        // order over the whole vocabulary.
        proof {
            lemma_pad_bounds(self.base as int, self.pad_key as int);
        }
        let b2: u64 = self.base * self.base;
        let b3: u64 = b2 * self.base;
        let ghost mid = *self;
        let mut i: usize = 0;
        while i < self.words.len()
            invariant
                i <= self.words@.len(),
                self.wf(),
                b2 == (self.base as int) * (self.base as int),
                b3 == (self.base as int) * (self.base as int) * (self.base as int),
                self.base == old(self).base,
                self.pad_key == old(self).pad_key,
                self.words == old(self).words,
                self.words_containing == old(self).words_containing,
                self.short_space == old(self).short_space,
                self.records@.len() == old(self).records@.len(),
                mapping_valid(mapping@, self.element_count(), self.base),
                forall|t: int|
                    0 <= t < self.records@.len() ==> (#[trigger] self.records@[t]).short == old(
                        self,
                    ).records@[t].short && self.records@[t].frequency == old(
                        self,
                    ).records@[t].frequency,
                forall|t: int|
                    i <= t < self.records@.len() ==> (#[trigger] self.records@[t]).full
                        == mid.records@[t].full,
                forall|t: int|
                    0 <= t < self.records@.len() ==> (#[trigger] self.records@[t]).full.raw
                        == fraws[t],
                forall|t: int|
                    0 <= t < i ==> full_record_matches(
                        self.words@,
                        mapping@,
                        self.base,
                        self.pad_key,
                        self.records@,
                        t,
                    ),
                self.full_space@.len() == self.space_size(),
                forall|v: int|
                    0 <= v < self.space_size() ==> (#[trigger] self.full_space@[v]) == count_eq(
                        fraws,
                        v,
                        i as int,
                    ),
            decreases self.words@.len() - i,
        {
            proof {
                lemma_full_raw_range(self.words@[i as int].elements@, mapping@, self.base);
                lemma_count_eq_bounds(fraws, fraws[i as int], i as int);
            }
            let raw: u64 = self.records[i].full.raw;
            let cnt: u32 = self.full_space[raw as usize];
            proof {
                lemma_pad_bounds(self.base as int, self.pad_key as int);
            }
            let actual: u64 = if raw < b2 {
                raw + self.pad_key * b2
            } else if raw < b3 {
                raw + self.pad_key * b3
            } else {
                raw
            };
            proof {
                assert(raw == fraws[i as int]);
                assert(cnt == count_eq(fraws, fraws[i as int], i as int));
                assert(actual == padded_spec(fraws[i as int], self.base, self.pad_key));
            }
            let ghost prev = self.records@;
            let mut rec = self.records[i];
            rec.full.actual = actual;
            rec.full.duplicate = cnt > 0;
            rec.full.candidate_position = cnt;
            self.records[i] = rec;
            self.full_space[raw as usize] = cnt + 1;
            proof {
                assert forall|t: int| 0 <= t < i + 1 implies full_record_matches(
                    self.words@,
                    mapping@,
                    self.base,
                    self.pad_key,
                    self.records@,
                    t,
                ) by {
                    if t < i as int {
                        assert(full_record_matches(
                            self.words@,
                            mapping@,
                            self.base,
                            self.pad_key,
                            prev,
                            t,
                        ));
                        assert(self.records@[t] == prev[t]);
                    }
                }
            }
            proof {
                assert forall|v: int| 0 <= v < self.space_size() implies (
                #[trigger] self.full_space@[v]) == count_eq(fraws, v, i + 1) by {
                    assert(count_eq(fraws, v, i + 1) == count_eq(fraws, v, i as int) + if fraws[i as int]
                        == v {
                        1int
                    } else {
                        0int
                    });
                }
            }
            i += 1;
        }
    }
}

/// The raw full codes currently stored in a record table.
pub open spec fn record_raws(recs: Seq<CodeRecord>) -> Seq<int> {
    Seq::new(recs.len(), |i: int| recs[i].full.raw as int)
}

impl Codec {
    /// Short-code pass: in vocabulary order, gives each length-one word its
    /// 1-key candidate when that slot is claimed by no full code and no
    /// earlier short code, else its 2-key candidate under the same test, else
    /// its full code, counting short-code collisions as it goes.
    #[verifier::loop_isolation(false)]
    fn output_short_codes(&mut self)
        requires
            old(self).wf(),
            forall|i: int|
                0 <= i < old(self).records@.len() ==> (#[trigger] old(self).records@[i]).full.raw
                    < old(self).space_size(),
            forall|i: int|
                0 <= i < old(self).records@.len() ==> (#[trigger] old(self).records@[i]).full.actual
                    == padded_spec(
                    old(self).records@[i].full.raw as int,
                    old(self).base,
                    old(self).pad_key,
                ),
            forall|v: int|
                0 <= v < old(self).space_size() ==> (#[trigger] old(self).full_space@[v])
                    == count_eq(
                    record_raws(old(self).records@),
                    v,
                    old(self).records@.len() as int,
                ),
            space_zero(old(self).short_space@),
        ensures
            final(self).wf(),
            final(self).base == old(self).base,
            final(self).pad_key == old(self).pad_key,
            final(self).words == old(self).words,
            final(self).words_containing == old(self).words_containing,
            final(self).full_space == old(self).full_space,
            final(self).records@.len() == old(self).records@.len(),
            forall|i: int|
                0 <= i < old(self).records@.len() ==> (#[trigger] final(self).records@[i]).full
                    == old(self).records@[i].full && final(self).records@[i].frequency == old(
                    self,
                ).records@[i].frequency,
            forall|i: int|
                0 <= i < old(self).records@.len() ==> {
                    let fraws = record_raws(old(self).records@);
                    let sraw = short_raw_spec(old(self).words@, fraws, old(self).base, i);
                    (#[trigger] final(self).records@[i]).short.raw == sraw
                        && final(self).records@[i].short.actual == short_actual_spec(
                        old(self).words@,
                        fraws,
                        old(self).base,
                        old(self).pad_key,
                        i,
                    ) && final(self).records@[i].short.candidate_position == short_count_before(
                        old(self).words@,
                        fraws,
                        old(self).base,
                        sraw,
                        i,
                    ) && final(self).records@[i].short.duplicate == (short_count_before(
                        old(self).words@,
                        fraws,
                        old(self).base,
                        sraw,
                        i,
                    ) > 0)
                },
            forall|v: int|
                0 <= v < old(self).space_size() ==> (#[trigger] final(self).short_space@[v])
                    == short_count_before(
                    old(self).words@,
                    record_raws(old(self).records@),
                    old(self).base,
                    v,
                    old(self).records@.len() as int,
                ),
    {
        let ghost fraws = record_raws(old(self).records@);
        let ghost n = old(self).records@.len() as int;
        proof {
            lemma_pad_bounds(self.base as int, self.pad_key as int);
        }
        let b2: u64 = self.base * self.base;
        let mut i: usize = 0;
        while i < self.records.len()
            invariant
                i <= self.records@.len(),
                self.wf(),
                b2 == (self.base as int) * (self.base as int),
                self.base == old(self).base,
                self.pad_key == old(self).pad_key,
                self.words == old(self).words,
                self.words_containing == old(self).words_containing,
                self.full_space == old(self).full_space,
                self.records@.len() == old(self).records@.len(),
                forall|t: int|
                    0 <= t < self.records@.len() ==> (#[trigger] self.records@[t]).full == old(
                        self,
                    ).records@[t].full && self.records@[t].frequency == old(
                        self,
                    ).records@[t].frequency,
                forall|t: int|
                    i <= t < self.records@.len() ==> (#[trigger] self.records@[t]).short == old(
                        self,
                    ).records@[t].short,
                forall|t: int|
                    0 <= t < i ==> {
                        let sraw = short_raw_spec(old(self).words@, fraws, old(self).base, t);
                        (#[trigger] self.records@[t]).short.raw == sraw
                            && self.records@[t].short.actual == short_actual_spec(
                            old(self).words@,
                            fraws,
                            old(self).base,
                            old(self).pad_key,
                            t,
                        ) && self.records@[t].short.candidate_position == short_count_before(
                            old(self).words@,
                            fraws,
                            old(self).base,
                            sraw,
                            t,
                        ) && self.records@[t].short.duplicate == (short_count_before(
                            old(self).words@,
                            fraws,
                            old(self).base,
                            sraw,
                            t,
                        ) > 0)
                    },
                self.short_space@.len() == self.space_size(),
                forall|v: int|
                    0 <= v < self.space_size() ==> (#[trigger] self.short_space@[v])
                        == short_count_before(old(self).words@, fraws, old(self).base, v, i as int),
            decreases self.records@.len() - i,
        {
            let raw: u64 = self.records[i].full.raw;
            let ghost sraw = short_raw_spec(old(self).words@, fraws, old(self).base, i as int);
            let ghost prev = self.records@;
            let mut committed = false;
            if self.words[i].length == 1 {
                let r1: u64 = raw % self.base;
                proof {
                    lemma_mod_bound(raw as int, self.base as int);
                    lemma_count_eq_bounds(fraws, r1 as int, n);
                    lemma_short_count_bounds(old(self).words@, fraws, self.base, r1 as int, i as int);
                }
                if self.full_space[r1 as usize] == 0 && self.short_space[r1 as usize] == 0 {
                    let cnt: u32 = self.short_space[r1 as usize];
                    let mut rec = self.records[i];
                    rec.short.raw = r1;
                    rec.short.actual = r1 + self.pad_key * self.base;
                    rec.short.duplicate = false;
                    rec.short.candidate_position = cnt;
                    self.records[i] = rec;
                    self.short_space[r1 as usize] = cnt + 1;
                    committed = true;
                    proof {
                        assert(sraw == r1 as int);
                    }
                } else {
                    let r2: u64 = raw % b2;
                    proof {
                        lemma_mod_bound(raw as int, b2 as int);
                        lemma_count_eq_bounds(fraws, r2 as int, n);
                        lemma_short_count_bounds(
                            old(self).words@,
                            fraws,
                            self.base,
                            r2 as int,
                            i as int,
                        );
                    }
                    if self.full_space[r2 as usize] == 0 && self.short_space[r2 as usize] == 0 {
                        let cnt: u32 = self.short_space[r2 as usize];
                        let mut rec = self.records[i];
                        rec.short.raw = r2;
                        rec.short.actual = r2 + self.pad_key * b2;
                        rec.short.duplicate = false;
                        rec.short.candidate_position = cnt;
                        self.records[i] = rec;
                        self.short_space[r2 as usize] = cnt + 1;
                        committed = true;
                        proof {
                            assert(sraw == r2 as int);
                        }
                    }
                }
            }
            if !committed {
                proof {
                    assert(sraw == raw as int);
                    lemma_short_count_bounds(old(self).words@, fraws, self.base, raw as int, i as int);
                }
                let cnt: u32 = self.short_space[raw as usize];
                let full_actual: u64 = self.records[i].full.actual;
                let mut rec = self.records[i];
                rec.short.raw = raw;
                rec.short.actual = full_actual;
                rec.short.duplicate = cnt > 0;
                rec.short.candidate_position = cnt;
                self.records[i] = rec;
                self.short_space[raw as usize] = cnt + 1;
            }
            proof {
                assert forall|v: int| 0 <= v < self.space_size() implies (
                #[trigger] self.short_space@[v]) == short_count_before(
                    old(self).words@,
                    fraws,
                    old(self).base,
                    v,
                    i + 1,
                ) by {
                    assert(short_count_before(old(self).words@, fraws, old(self).base, v, i + 1)
                        == short_count_before(old(self).words@, fraws, old(self).base, v, i as int)
                        + if sraw == v {
                        1int
                    } else {
                        0int
                    });
                }
            }
            i += 1;
        }
    }

    /// One encoding call: resets both collision spaces, recomputes raw full
    /// codes (all words, or only the words an incremental hint touches), then
    /// finalizes full codes and assigns short codes over the whole vocabulary
    /// in order. Afterwards the records are exactly the model of the current
    /// mapping, and each collision space counts, for every raw value, the
    /// words whose raw code equals it.
    pub fn encode(&mut self, mapping: &Vec<u64>, changed: &Option<Vec<usize>>)
        requires
            old(self).wf(),
            mapping_valid(mapping@, old(self).element_count(), old(self).base),
            changed matches Some(ch) ==> (forall|t: int|
                0 <= t < ch@.len() ==> (#[trigger] ch@[t]) < old(self).element_count()),
            changed matches Some(ch) ==> old(self).stale_raws_ok(mapping@, ch@),
        ensures
            final(self).wf(),
            final(self).base == old(self).base,
            final(self).pad_key == old(self).pad_key,
            final(self).words == old(self).words,
            final(self).words_containing == old(self).words_containing,
            records_match(
                old(self).words@,
                mapping@,
                old(self).base,
                old(self).pad_key,
                final(self).records@,
            ),
            forall|v: int|
                0 <= v < old(self).space_size() ==> (#[trigger] final(self).full_space@[v])
                    == count_eq(
                    full_raws_spec(old(self).words@, mapping@, old(self).base),
                    v,
                    old(self).words@.len() as int,
                ),
            forall|v: int|
                0 <= v < old(self).space_size() ==> (#[trigger] final(self).short_space@[v])
                    == short_count_before(
                    old(self).words@,
                    full_raws_spec(old(self).words@, mapping@, old(self).base),
                    old(self).base,
                    v,
                    old(self).words@.len() as int,
                ),
    {
        let ghost fraws = full_raws_spec(old(self).words@, mapping@, old(self).base);
        self.reset_spaces();
        self.output_full_codes(mapping, changed);
        proof {
            assert forall|i: int| 0 <= i < self.records@.len() implies (
            #[trigger] self.records@[i]).full.raw < self.space_size() && self.records@[i].full.raw
                == fraws[i] by {
                assert(full_record_matches(
                    old(self).words@,
                    mapping@,
                    old(self).base,
                    old(self).pad_key,
                    self.records@,
                    i,
                ));
                lemma_full_raw_range(self.words@[i].elements@, mapping@, self.base);
            }
            assert(record_raws(self.records@) =~= fraws);
            assert forall|i: int| 0 <= i < self.records@.len() implies (
            #[trigger] self.records@[i]).full.actual == padded_spec(
                self.records@[i].full.raw as int,
                self.base,
                self.pad_key,
            ) by {
                assert(full_record_matches(
                    old(self).words@,
                    mapping@,
                    old(self).base,
                    old(self).pad_key,
                    self.records@,
                    i,
                ));
            }
        }
        let ghost mid = *self;
        self.output_short_codes();
        proof {
            assert forall|i: int|
                0 <= i < self.words@.len() implies full_record_matches(
                old(self).words@,
                mapping@,
                old(self).base,
                old(self).pad_key,
                self.records@,
                i,
            ) && short_record_matches(
                old(self).words@,
                mapping@,
                old(self).base,
                old(self).pad_key,
                self.records@,
                i,
            ) by {
                assert(full_record_matches(
                    old(self).words@,
                    mapping@,
                    old(self).base,
                    old(self).pad_key,
                    mid.records@,
                    i,
                ));
                assert(self.records@[i].full == mid.records@[i].full);
                assert(record_raws(mid.records@) == fraws);
                assert(self.records@[i].short.raw == short_raw_spec(
                    old(self).words@,
                    fraws,
                    old(self).base,
                    i,
                ));
            }
        }
    }
}

/// Determinism: two record tables that both match one vocabulary, mapping,
/// base and pad key are identical. Everything `encode` reports is a function
/// of those inputs alone, and with the scorer's exact contracts every tally
/// derived from the records is too.
pub proof fn lemma_encode_deterministic(
    words: Seq<Word>,
    mapping: Seq<u64>,
    base: u64,
    pad: u64,
    recs1: Seq<CodeRecord>,
    recs2: Seq<CodeRecord>,
)
    requires
        records_match(words, mapping, base, pad, recs1),
        records_match(words, mapping, base, pad, recs2),
    ensures
        recs1 == recs2,
{
    assert forall|i: int| 0 <= i < recs1.len() implies recs1[i] == recs2[i] by {
        assert(full_record_matches(words, mapping, base, pad, recs1, i));
        assert(full_record_matches(words, mapping, base, pad, recs2, i));
        assert(short_record_matches(words, mapping, base, pad, recs1, i));
        assert(short_record_matches(words, mapping, base, pad, recs2, i));
        assert(recs1[i].full == recs2[i].full);
        assert(recs1[i].short == recs2[i].short);
    }
    assert(recs1 =~= recs2);
}

/// Incremental equivalence: if a codec's records match some earlier mapping,
/// and a changed set covers every element whose key differs between that
/// mapping and the new one, then every word the changed set does not touch
/// already stores the raw full code the new mapping gives it — exactly what
/// `encode` requires of an incremental call. `encode`'s contract then pins
/// the same records as a full re-encode of the new mapping, and
/// `lemma_encode_deterministic` makes the two record tables equal.
pub proof fn lemma_incremental_hint_sufficient(
    c: Codec,
    mapping_old: Seq<u64>,
    mapping_new: Seq<u64>,
    changed: Seq<usize>,
)
    requires
        c.wf(),
        records_match(c.words@, mapping_old, c.base, c.pad_key, c.records@),
        mapping_old.len() == c.element_count(),
        mapping_new.len() == c.element_count(),
        forall|e: int|
            0 <= e < mapping_new.len() && (#[trigger] mapping_new[e]) != mapping_old[e]
                ==> changed.contains(e as usize),
    ensures
        c.stale_raws_ok(mapping_new, changed),
{
    assert forall|i: int|
        0 <= i < c.words@.len() && !word_touched(#[trigger] c.words@[i], changed) implies c.records@[i].full.raw
        == full_raw_spec(c.words@[i].elements@, mapping_new, c.base) by {
        assert(full_record_matches(c.words@, mapping_old, c.base, c.pad_key, c.records@, i));
        let elems = c.words@[i].elements@;
        assert(c.words@[i].valid(c.element_count()));
        assert forall|k: int| 0 <= k < elems.len() implies mapping_new[(#[trigger] elems[k]) as int]
            == mapping_old[elems[k] as int] by {
            assert(!changed.contains(elems[k]));
        }
        assert(digit_at(elems, mapping_new, 0) == digit_at(elems, mapping_old, 0));
        assert(digit_at(elems, mapping_new, 1) == digit_at(elems, mapping_old, 1));
        assert(digit_at(elems, mapping_new, 2) == digit_at(elems, mapping_old, 2));
        assert(digit_at(elems, mapping_new, 3) == digit_at(elems, mapping_old, 3));
    }
}

/// Abbreviation priority: a length-one word whose 1-key candidate slot no
/// word's full code and no earlier word's short code occupies always gets the
/// 1-key short form — never the 2-key or fallback form — and that form is not
/// a duplicate.
pub proof fn lemma_one_key_priority(
    words: Seq<Word>,
    fraws: Seq<int>,
    base: u64,
    pad: u64,
    i: int,
)
    requires
        0 <= i < words.len(),
        fraws.len() == words.len(),
        words[i].length == 1,
        count_eq(fraws, fraws[i] % (base as int), fraws.len() as int) == 0,
        short_count_before(words, fraws, base, fraws[i] % (base as int), i) == 0,
    ensures
        short_raw_spec(words, fraws, base, i) == fraws[i] % (base as int),
        short_actual_spec(words, fraws, base, pad, i) == fraws[i] % (base as int) + pad * (
        base as int),
        short_count_before(words, fraws, base, short_raw_spec(words, fraws, base, i), i) == 0,
{
}

/// Padding width: a two-element word's actual full code, reduced modulo the
/// base squared, equals the word's raw full code — padding never alters the
/// low-order digits.
pub proof fn lemma_padding_keeps_low_digits(
    elems: Seq<usize>,
    mapping: Seq<u64>,
    base: u64,
    pad: u64,
)
    requires
        2 <= base <= 0xFFFF,
        pad < base,
        elems.len() == 2,
        forall|k: int| 0 <= k < elems.len() ==> (#[trigger] elems[k]) < mapping.len(),
        forall|e: int| 0 <= e < mapping.len() ==> (#[trigger] mapping[e]) < base,
    ensures
        padded_spec(full_raw_spec(elems, mapping, base), base, pad) % ((base as int) * (
        base as int)) == full_raw_spec(elems, mapping, base),
{
    lemma_full_raw_range(elems, mapping, base);
    let b = base as int;
    let raw = full_raw_spec(elems, mapping, base);
    assert((raw + (pad as int) * (b * b)) % (b * b) == raw) by (nonlinear_arith)
        requires
            0 <= raw < b * b,
            0 <= pad as int,
            b >= 2,
    ;
}

/// The remainder of a division by a positive divisor lies below the divisor.
pub proof fn lemma_mod_bound(x: int, m: int)
    requires
        x >= 0,
        m >= 1,
    ensures
        0 <= x % m < m,
{
    assert(0 <= x % m < m) by (nonlinear_arith)
        requires
            x >= 0,
            m >= 1,
    ;
}

/// The fourth power of a base below the ceiling fits in 64 bits.
pub proof fn lemma_base_pow4_fits(base: u64)
    requires
        2 <= base <= 0xFFFF,
    ensures
        (base as int) * (base as int) <= 0xFFFF * 0xFFFF,
        (base as int) * (base as int) * (base as int) * (base as int) <= 0xFFFF * 0xFFFF * 0xFFFF
            * 0xFFFF,
{
    let b = base as int;
    assert(b * b <= 0xFFFF * 0xFFFF) by (nonlinear_arith)
        requires
            2 <= b <= 0xFFFF,
    ;
    assert(b * b * b * b <= 0xFFFF * 0xFFFF * 0xFFFF * 0xFFFF) by (nonlinear_arith)
        requires
            2 <= b <= 0xFFFF,
    ;
}

/// A count over a prefix is at most the prefix's length and never negative.
pub proof fn lemma_count_eq_bounds(vals: Seq<int>, v: int, n: int)
    ensures
        0 <= count_eq(vals, v, n),
        count_eq(vals, v, n) <= if n <= 0 { 0int } else { n },
    decreases n,
{
    if n > 0 {
        lemma_count_eq_bounds(vals, v, n - 1);
    }
}

/// A short count over a prefix is at most the prefix's length and never
/// negative.
pub proof fn lemma_short_count_bounds(words: Seq<Word>, fraws: Seq<int>, base: u64, v: int, i: int)
    ensures
        0 <= short_count_before(words, fraws, base, v, i),
        short_count_before(words, fraws, base, v, i) <= if i <= 0 { 0int } else { i },
    decreases i,
{
    if i > 0 {
        lemma_short_count_bounds(words, fraws, base, v, i - 1);
    }
}

/// A word's raw full code under a valid mapping is bounded by the base power
/// matching its element count, and in particular always below `base^4`.
pub proof fn lemma_full_raw_range(elems: Seq<usize>, mapping: Seq<u64>, base: u64)
    requires
        base >= 1,
        elems.len() <= 4,
        forall|k: int| 0 <= k < elems.len() ==> (#[trigger] elems[k]) < mapping.len(),
        forall|e: int| 0 <= e < mapping.len() ==> (#[trigger] mapping[e]) < base,
    ensures
        0 <= full_raw_spec(elems, mapping, base),
        full_raw_spec(elems, mapping, base) < (base as int) * (base as int) * (base as int) * (
        base as int),
        elems.len() <= 1 ==> full_raw_spec(elems, mapping, base) < base as int,
        elems.len() <= 2 ==> full_raw_spec(elems, mapping, base) < (base as int) * (base as int),
        elems.len() <= 3 ==> full_raw_spec(elems, mapping, base) < (base as int) * (base as int) * (
        base as int),
{
    let b = base as int;
    let d0 = digit_at(elems, mapping, 0);
    let d1 = digit_at(elems, mapping, 1);
    let d2 = digit_at(elems, mapping, 2);
    let d3 = digit_at(elems, mapping, 3);
    assert(0 <= d0 < b && 0 <= d1 < b && 0 <= d2 < b && 0 <= d3 < b);
    assert(d0 + d1 * b + d2 * b * b + d3 * b * b * b < b * b * b * b) by (nonlinear_arith)
        requires
            b >= 1,
            0 <= d0 < b,
            0 <= d1 < b,
            0 <= d2 < b,
            0 <= d3 < b,
    ;
    assert(0 <= d0 + d1 * b + d2 * b * b + d3 * b * b * b) by (nonlinear_arith)
        requires
            b >= 1,
            0 <= d0 < b,
            0 <= d1 < b,
            0 <= d2 < b,
            0 <= d3 < b,
    ;
    if elems.len() <= 3 {
        assert(d3 == 0);
        assert(d0 + d1 * b + d2 * b * b < b * b * b) by (nonlinear_arith)
            requires
                b >= 1,
                0 <= d0 < b,
                0 <= d1 < b,
                0 <= d2 < b,
        ;
    }
    if elems.len() <= 2 {
        assert(d2 == 0 && d3 == 0);
        assert(d0 + d1 * b < b * b) by (nonlinear_arith)
            requires
                b >= 1,
                0 <= d0 < b,
                0 <= d1 < b,
        ;
    }
    if elems.len() <= 1 {
        assert(d1 == 0);
    }
}

} // verus!
