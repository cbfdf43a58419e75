use fourcode::codec::Codec;
use fourcode::data::Word;
use fourcode::scorer::{rate_exceeds, tally};

fn word(elements: Vec<usize>, length: usize, frequency: u64) -> Word {
    Word { elements, length, frequency }
}

#[test]
fn tally_counts_keystrokes_and_overuse() {
    // One word, full raw 5 + 7*30 = 215, pad key 2, so the actual short
    // code is 215 + 2*900 = 2015 with digits [5, 7, 2]: three keystrokes,
    // one of them on key 7.
    let words = vec![word(vec![0, 1], 2, 100)];
    let mut codec = Codec::new(words, 2, 30, 2).unwrap();
    let mapping: Vec<u64> = vec![5, 7];
    codec.encode(&mapping, &None);
    let t = tally(&codec.records, 30, 7);
    assert_eq!(t.total_frequency, 100);
    assert_eq!(t.total_keystrokes, 300);
    assert_eq!(t.overused_keystrokes, 100);
    assert_eq!(t.one_key_frequency, 0);
    // Classification goes by the raw short code's value: 215 lies in the
    // two-key band even though the word was never abbreviated.
    assert_eq!(t.two_key_frequency, 100);
}

#[test]
fn tally_skips_zero_digits() {
    // Pad key 0: the actual short code 215 + 0*900 = 215 has digits [5, 7]
    // followed by zeros, and zero digits cost no keystroke.
    let words = vec![word(vec![0, 1], 2, 10)];
    let mut codec = Codec::new(words, 2, 30, 0).unwrap();
    let mapping: Vec<u64> = vec![5, 7];
    codec.encode(&mapping, &None);
    let t = tally(&codec.records, 30, 29);
    assert_eq!(t.total_keystrokes, 20);
    assert_eq!(t.overused_keystrokes, 0);
}

#[test]
fn tally_classifies_abbreviation_levels() {
    // One word with a 1-key short code, one with a 2-key short code, one
    // unabbreviated.
    let words = vec![
        word(vec![0, 1], 1, 100),
        word(vec![0, 2, 3], 1, 50),
        word(vec![2, 3, 1], 2, 25),
    ];
    let mut codec = Codec::new(words, 4, 30, 0).unwrap();
    let mapping: Vec<u64> = vec![5, 7, 9, 11];
    codec.encode(&mapping, &None);
    assert!(codec.records[0].short.raw < 30);
    assert!(codec.records[1].short.raw >= 30 && codec.records[1].short.raw < 900);
    assert!(codec.records[2].short.raw >= 900);
    let t = tally(&codec.records, 30, 29);
    assert_eq!(t.total_frequency, 175);
    assert_eq!(t.one_key_frequency, 100);
    assert_eq!(t.two_key_frequency, 50);
}

#[test]
fn rates_lie_between_zero_and_one() {
    let words = vec![
        word(vec![0, 1], 1, 100),
        word(vec![0, 2, 3], 1, 50),
        word(vec![2, 3, 1], 2, 25),
    ];
    let mut codec = Codec::new(words, 4, 30, 0).unwrap();
    let mapping: Vec<u64> = vec![5, 7, 9, 11];
    codec.encode(&mapping, &None);
    let t = tally(&codec.records, 30, 7);
    assert!(t.overused_keystrokes <= t.total_keystrokes);
    assert!(t.one_key_frequency + t.two_key_frequency <= t.total_frequency);
    let overused_rate = t.overused_keystrokes as f64 / t.total_keystrokes as f64;
    let one_key_rate = t.one_key_frequency as f64 / t.total_frequency as f64;
    let two_key_rate = t.two_key_frequency as f64 / t.total_frequency as f64;
    assert!((0.0..=1.0).contains(&overused_rate));
    assert!((0.0..=1.0).contains(&one_key_rate));
    assert!((0.0..=1.0).contains(&two_key_rate));
}

#[test]
fn empty_vocabulary_scores_to_zero_rates() {
    // Scoring an empty vocabulary must not fault: every tally is zero, a
    // rate with a zero denominator is defined as zero, and the overuse
    // penalty does not apply.
    let mut codec = Codec::new(vec![], 0, 30, 0).unwrap();
    let mapping: Vec<u64> = vec![];
    codec.encode(&mapping, &None);
    let t = tally(&codec.records, 30, 29);
    assert_eq!(t.total_frequency, 0);
    assert_eq!(t.total_keystrokes, 0);
    assert_eq!(t.overused_keystrokes, 0);
    assert_eq!(t.one_key_frequency, 0);
    assert_eq!(t.two_key_frequency, 0);
    assert!(!rate_exceeds(t.overused_keystrokes, t.total_keystrokes, 175, 10000));
    let overused_rate = if t.total_keystrokes == 0 {
        0.0
    } else {
        t.overused_keystrokes as f64 / t.total_keystrokes as f64
    };
    assert_eq!(overused_rate, 0.0);
}

#[test]
fn rate_exceeds_compares_exactly() {
    // 175 / 10000 is the overuse threshold: strictly above it, not at it.
    assert!(!rate_exceeds(175, 10000, 175, 10000));
    assert!(rate_exceeds(176, 10000, 175, 10000));
    assert!(!rate_exceeds(0, 0, 175, 10000));
    assert!(!rate_exceeds(0, 57, 175, 10000));
    assert!(rate_exceeds(1, 1, 175, 10000));
    assert!(rate_exceeds(u64::MAX, u64::MAX, 175, 10000));
}
