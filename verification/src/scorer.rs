//! The scorer's verified core: frequency-weighted keystroke and abbreviation
//! tallies over the per-word code records. A rate whose denominator is zero
//! (empty vocabulary, or codes whose digits are all zero) is defined as zero;
//! in particular the overuse penalty never applies then.

use vstd::prelude::*;
use crate::data::CodeRecord;

verus! {

/// Number of nonzero base-`base` digits of `code`; a zero digit arises only
/// from padding and costs no keystroke.
pub open spec fn nonzero_digits(code: int, base: int) -> int
    decreases code via nonzero_digits_decreases
{
    if code <= 0 || base <= 1 {
        0
    } else {
        (if code % base != 0 {
            1int
        } else {
            0int
        }) + nonzero_digits(code / base, base)
    }
}

#[via_fn]
proof fn nonzero_digits_decreases(code: int, base: int) {
    if code > 0 && base > 1 {
        assert(0 <= code / base < code) by (nonlinear_arith)
            requires
                code > 0,
                base > 1,
        ;
    }
}

/// Number of nonzero base-`base` digits of `code` that equal `key`.
pub open spec fn digits_matching(code: int, base: int, key: int) -> int
    decreases code via digits_matching_decreases
{
    if code <= 0 || base <= 1 {
        0
    } else {
        (if code % base == key && code % base != 0 {
            1int
        } else {
            0int
        }) + digits_matching(code / base, base, key)
    }
}

#[via_fn]
proof fn digits_matching_decreases(code: int, base: int, key: int) {
    if code > 0 && base > 1 {
        assert(0 <= code / base < code) by (nonlinear_arith)
            requires
                code > 0,
                base > 1,
        ;
    }
}

/// Digit counts are never negative, and the digits matching a key are never
/// more than the nonzero digits.
pub proof fn lemma_matching_le(code: int, base: int, key: int)
    ensures
        0 <= digits_matching(code, base, key) <= nonzero_digits(code, base),
    decreases code,
{
    if code > 0 && base > 1 {
        assert(0 <= code / base < code) by (nonlinear_arith)
            requires
                code > 0,
                base > 1,
        ;
        lemma_matching_le(code / base, base, key);
    }
}

/// A code below the fourth power of the base has at most four digits.
pub proof fn lemma_digits_le4(code: int, base: int)
    requires
        0 <= code,
        2 <= base,
        code < base * base * base * base,
    ensures
        0 <= nonzero_digits(code, base) <= 4,
{
    let b = base;
    let c1 = code / b;
    let c2 = c1 / b;
    let c3 = c2 / b;
    let c4 = c3 / b;
    assert(0 <= c1 && c1 < b * b * b && 0 <= c2 && c2 < b * b && 0 <= c3 && c3 < b && c4 == 0)
        by (nonlinear_arith)
        requires
            0 <= code,
            2 <= b,
            code < b * b * b * b,
            c1 == code / b,
            c2 == c1 / b,
            c3 == c2 / b,
            c4 == c3 / b,
    ;
    assert(nonzero_digits(c4, b) == 0);
    assert(nonzero_digits(c3, b) <= 1);
    assert(nonzero_digits(c2, b) <= 2);
    assert(nonzero_digits(c1, b) <= 3);
    assert(nonzero_digits(code, b) <= 4);
    lemma_matching_le(code, b, 0);
}

/// Frequency-weighted sum of the words' frequencies over the first `n`
/// records.
pub open spec fn total_frequency_spec(recs: Seq<CodeRecord>, n: int) -> int
    decreases n,
{
    if n <= 0 {
        0
    } else {
        total_frequency_spec(recs, n - 1) + recs[n - 1].frequency
    }
}

/// Frequency-weighted count of keystrokes over the first `n` records: each
/// nonzero base-`base` digit of a word's actual short code costs the word's
/// frequency.
pub open spec fn total_keystrokes_spec(recs: Seq<CodeRecord>, base: u64, n: int) -> int
    decreases n,
{
    if n <= 0 {
        0
    } else {
        total_keystrokes_spec(recs, base, n - 1) + recs[n - 1].frequency * nonzero_digits(
            recs[n - 1].short.actual as int,
            base as int,
        )
    }
}

/// Frequency-weighted count of keystrokes on the overused key over the first
/// `n` records.
pub open spec fn overused_keystrokes_spec(recs: Seq<CodeRecord>, base: u64, key: u64, n: int) -> int
    decreases n,
{
    if n <= 0 {
        0
    } else {
        overused_keystrokes_spec(recs, base, key, n - 1) + recs[n - 1].frequency * digits_matching(
            recs[n - 1].short.actual as int,
            base as int,
            key as int,
        )
    }
}

/// Summed frequency of the words whose raw short code is a one-key
/// abbreviation (below the base), over the first `n` records.
pub open spec fn one_key_frequency_spec(recs: Seq<CodeRecord>, base: u64, n: int) -> int
    decreases n,
{
    if n <= 0 {
        0
    } else {
        one_key_frequency_spec(recs, base, n - 1) + if recs[n - 1].short.raw < base {
            recs[n - 1].frequency as int
        } else {
            0int
        }
    }
}

/// Summed frequency of the words whose raw short code is a two-key
/// abbreviation (at least the base, below its square), over the first `n`
/// records.
pub open spec fn two_key_frequency_spec(recs: Seq<CodeRecord>, base: u64, n: int) -> int
    decreases n,
{
    if n <= 0 {
        0
    } else {
        two_key_frequency_spec(recs, base, n - 1) + if base <= recs[n - 1].short.raw
            < (base as int) * (base as int) {
            recs[n - 1].frequency as int
        } else {
            0int
        }
    }
}

/// The tallies over a prefix are nonnegative, the overused keystrokes never
/// exceed all keystrokes, all keystrokes never exceed four per word, and the
/// two abbreviation frequencies together never exceed the total frequency.
pub proof fn lemma_tally_bounds(recs: Seq<CodeRecord>, base: u64, key: u64, n: int)
    requires
        2 <= base,
        forall|i: int|
            0 <= i < recs.len() ==> (#[trigger] recs[i]).short.actual < (base as int) * (
            base as int) * (base as int) * (base as int),
        n <= recs.len(),
    ensures
        0 <= total_frequency_spec(recs, n),
        0 <= overused_keystrokes_spec(recs, base, key, n) <= total_keystrokes_spec(recs, base, n),
        total_keystrokes_spec(recs, base, n) <= 4 * total_frequency_spec(recs, n),
        0 <= one_key_frequency_spec(recs, base, n),
        0 <= two_key_frequency_spec(recs, base, n),
        one_key_frequency_spec(recs, base, n) + two_key_frequency_spec(recs, base, n)
            <= total_frequency_spec(recs, n),
    decreases n,
{
    if n > 0 {
        lemma_tally_bounds(recs, base, key, n - 1);
        let f = recs[n - 1].frequency as int;
        let a = recs[n - 1].short.actual as int;
        let nz = nonzero_digits(a, base as int);
        let dm = digits_matching(a, base as int, key as int);
        lemma_digits_le4(a, base as int);
        lemma_matching_le(a, base as int, key as int);
        assert(0 <= f * dm <= f * nz && f * nz <= f * 4) by (nonlinear_arith)
            requires
                0 <= f,
                0 <= dm <= nz,
                nz <= 4,
        ;
    }
}

/// A longer prefix has at least the total frequency of a shorter one.
pub proof fn lemma_total_frequency_monotone(recs: Seq<CodeRecord>, m: int, n: int)
    requires
        m <= n,
    ensures
        total_frequency_spec(recs, m) <= total_frequency_spec(recs, n),
    decreases n - m,
{
    if m < n {
        lemma_total_frequency_monotone(recs, m, n - 1);
    }
}

/// The frequency-weighted metric tallies of one scoring pass. Rates are read
/// off these integer counts as quotients; a quotient whose denominator is
/// zero (an empty vocabulary, or codes whose digits are all zero) is defined
/// to be zero.
#[derive(Clone, Copy, PartialEq, Eq, Structural, Debug)]
pub struct ScoreTally {
    /// Sum of all words' frequencies.
    pub total_frequency: u64,
    /// Frequency-weighted keystrokes over all actual short codes.
    pub total_keystrokes: u64,
    /// Frequency-weighted keystrokes that press the overused key.
    pub overused_keystrokes: u64,
    /// Summed frequency of the words with a one-key abbreviation.
    pub one_key_frequency: u64,
    /// Summed frequency of the words with a two-key abbreviation.
    pub two_key_frequency: u64,
}

/// Accumulates the five scoring tallies over the per-word records: total
/// frequency, keystrokes (each nonzero base-`base` digit of an actual short
/// code costs the word's frequency; zero digits arise only from padding and
/// cost nothing), keystrokes on the overused key, and the frequencies of the
/// one-key and two-key abbreviated words.
#[verifier::loop_isolation(false)]
pub fn tally(records: &Vec<CodeRecord>, base: u64, overused_key: u64) -> (t: ScoreTally)
    requires
        2 <= base <= 0xFFFF,
        forall|i: int|
            0 <= i < records@.len() ==> (#[trigger] records@[i]).short.actual < (base as int) * (
            base as int) * (base as int) * (base as int),
        4 * total_frequency_spec(records@, records@.len() as int) <= u64::MAX,
    ensures
        t.total_frequency == total_frequency_spec(records@, records@.len() as int),
        t.total_keystrokes == total_keystrokes_spec(records@, base, records@.len() as int),
        t.overused_keystrokes == overused_keystrokes_spec(
            records@,
            base,
            overused_key,
            records@.len() as int,
        ),
        t.one_key_frequency == one_key_frequency_spec(records@, base, records@.len() as int),
        t.two_key_frequency == two_key_frequency_spec(records@, base, records@.len() as int),
        t.overused_keystrokes <= t.total_keystrokes,
        t.one_key_frequency + t.two_key_frequency <= t.total_frequency,
{
    let ghost n = records@.len() as int;
    proof {
        assert((base as int) * (base as int) <= 0xFFFF * 0xFFFF) by (nonlinear_arith)
            requires
                2 <= base <= 0xFFFF,
        ;
    }
    let b2: u64 = base * base;
    let mut total_frequency: u64 = 0;
    let mut total_keystrokes: u64 = 0;
    let mut overused_keystrokes: u64 = 0;
    let mut one_key_frequency: u64 = 0;
    let mut two_key_frequency: u64 = 0;
    let mut i: usize = 0;
    while i < records.len()
        invariant
            i <= records@.len(),
            total_frequency == total_frequency_spec(records@, i as int),
            total_keystrokes == total_keystrokes_spec(records@, base, i as int),
            overused_keystrokes == overused_keystrokes_spec(records@, base, overused_key, i as int),
            one_key_frequency == one_key_frequency_spec(records@, base, i as int),
            two_key_frequency == two_key_frequency_spec(records@, base, i as int),
        decreases records@.len() - i,
    {
        let freq: u64 = records[i].frequency;
        let actual: u64 = records[i].short.actual;
        let ghost a0 = actual as int;
        proof {
            lemma_digits_le4(a0, base as int);
            lemma_matching_le(a0, base as int, overused_key as int);
        }
        let mut code: u64 = actual;
        let mut kc: u64 = 0;
        let mut mc: u64 = 0;
        while code > 0
            invariant
                kc == nonzero_digits(a0, base as int) - nonzero_digits(code as int, base as int),
                mc == digits_matching(a0, base as int, overused_key as int) - digits_matching(
                    code as int,
                    base as int,
                    overused_key as int,
                ),
                0 <= digits_matching(code as int, base as int, overused_key as int)
                    <= nonzero_digits(code as int, base as int),
                nonzero_digits(code as int, base as int) <= 4,
            decreases code,
        {
            let d: u64 = code % base;
            let next: u64 = code / base;
            proof {
                assert(next < code) by (nonlinear_arith)
                    requires
                        next == code as int / base as int,
                        code >= 1,
                        base >= 2,
                ;
                lemma_matching_le(next as int, base as int, overused_key as int);
            }
            if d != 0 {
                kc = kc + 1;
                if d == overused_key {
                    mc = mc + 1;
                }
            }
            code = next;
        }
        proof {
            assert(kc == nonzero_digits(a0, base as int));
            assert(mc == digits_matching(a0, base as int, overused_key as int));
            lemma_tally_bounds(records@, base, overused_key, i + 1);
            lemma_tally_bounds(records@, base, overused_key, i as int);
            lemma_total_frequency_monotone(records@, i + 1, n);
            assert(0 <= (freq as int) * (kc as int) && (freq as int) * (kc as int) <= (freq as int)
                * 4 && 0 <= (freq as int) * (mc as int) && (freq as int) * (mc as int) <= (
            freq as int) * (kc as int)) by (nonlinear_arith)
                requires
                    0 <= freq,
                    0 <= mc <= kc,
                    kc <= 4,
            ;
        }
        total_frequency = total_frequency + freq;
        total_keystrokes = total_keystrokes + freq * kc;
        overused_keystrokes = overused_keystrokes + freq * mc;
        let raw: u64 = records[i].short.raw;
        if raw < base {
            one_key_frequency = one_key_frequency + freq;
        } else if raw < b2 {
            two_key_frequency = two_key_frequency + freq;
        }
        i += 1;
    }
    proof {
        lemma_tally_bounds(records@, base, overused_key, n);
    }
    ScoreTally {
        total_frequency,
        total_keystrokes,
        overused_keystrokes,
        one_key_frequency,
        two_key_frequency,
    }
}

/// Whether the rate `num / den` exceeds the rate `threshold_num /
/// threshold_den`, compared exactly by cross-multiplication. A rate with a
/// zero denominator is defined as zero, so with `num == 0` the result is
/// `false` whatever the threshold.
pub fn rate_exceeds(num: u64, den: u64, threshold_num: u64, threshold_den: u64) -> (r: bool)
    ensures
        r <==> (num as int) * (threshold_den as int) > (threshold_num as int) * (den as int),
{
    proof {
        assert((num as int) * (threshold_den as int) <= u128::MAX && (threshold_num as int) * (
        den as int) <= u128::MAX) by (nonlinear_arith)
            requires
                0 <= num <= u64::MAX,
                0 <= den <= u64::MAX,
                0 <= threshold_num <= u64::MAX,
                0 <= threshold_den <= u64::MAX,
        ;
    }
    (num as u128) * (threshold_den as u128) > (threshold_num as u128) * (den as u128)
}

} // verus!
