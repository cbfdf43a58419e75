use fourcode::codec::Codec;
use fourcode::data::{CodecError, Word};

fn word(elements: Vec<usize>, length: usize, frequency: u64) -> Word {
    Word { elements, length, frequency }
}

#[test]
fn two_identical_words_collide_in_order() {
    // Base 30, pad key 0, two length-two words over the same two elements:
    // the first wins the slot, the second is a duplicate at candidate
    // position 1, at both the full and the short level.
    let words = vec![word(vec![1, 2], 2, 100), word(vec![1, 2], 2, 50)];
    let mut codec = Codec::new(words, 3, 30, 0).unwrap();
    let mut mapping: Vec<u64> = vec![0, 5, 7];
    codec.encode(&mapping, &None);
    let raw = 5 + 7 * 30;
    let a = codec.records[0];
    let b = codec.records[1];
    assert_eq!(a.full.raw, raw);
    assert_eq!(b.full.raw, raw);
    assert!(!a.full.duplicate);
    assert_eq!(a.full.candidate_position, 0);
    assert!(b.full.duplicate);
    assert_eq!(b.full.candidate_position, 1);
    assert!(!a.short.duplicate);
    assert_eq!(a.short.candidate_position, 0);
    assert!(b.short.duplicate);
    assert_eq!(b.short.candidate_position, 1);
    assert_eq!(a.short.raw, raw);
    assert_eq!(b.short.raw, raw);
    // Padding: raw < 30^2, so the actual code adds the pad key at position 2.
    assert_eq!(a.full.actual, raw + 0 * 30 * 30);
    // Changing the mapping changes both words the same way.
    mapping[1] = 9;
    codec.encode(&mapping, &None);
    assert_eq!(codec.records[0].full.raw, 9 + 7 * 30);
}

#[test]
fn single_element_word_blocked_by_its_own_full_code() {
    // A one-element word's full code occupies its own 1-key slot, so the
    // short code falls back to the full code; with pad key 0 the actual
    // short code still reads 3 + 0 * 30 = 3.
    let words = vec![word(vec![5], 1, 10)];
    let mut codec = Codec::new(words, 6, 30, 0).unwrap();
    let mut mapping: Vec<u64> = vec![0; 6];
    mapping[5] = 3;
    codec.encode(&mapping, &None);
    let rec = codec.records[0];
    assert_eq!(rec.full.raw, 3);
    assert_eq!(rec.short.raw, 3);
    assert!(!rec.short.duplicate);
    assert_eq!(rec.short.candidate_position, 0);
    assert_eq!(rec.short.actual, 3 + 0 * 30);
}

#[test]
fn free_one_key_slot_gives_one_key_abbreviation() {
    // A length-one word of two elements whose 1-key slot nothing occupies
    // gets the 1-key short form, padded in position one.
    let words = vec![word(vec![0, 1], 1, 10)];
    let mut codec = Codec::new(words, 2, 30, 2).unwrap();
    let mapping: Vec<u64> = vec![5, 7];
    codec.encode(&mapping, &None);
    let rec = codec.records[0];
    assert_eq!(rec.full.raw, 5 + 7 * 30);
    assert_eq!(rec.short.raw, 5);
    assert!(!rec.short.duplicate);
    assert_eq!(rec.short.candidate_position, 0);
    assert_eq!(rec.short.actual, 5 + 2 * 30);
}

#[test]
fn blocked_one_key_slot_falls_back_to_two_keys() {
    // Another word's full code occupies the 1-key slot, so the length-one
    // word takes its free 2-key candidate, padded in position two.
    let words = vec![word(vec![0, 1, 3], 1, 10), word(vec![2], 1, 5)];
    let mut codec = Codec::new(words, 4, 30, 2).unwrap();
    let mapping: Vec<u64> = vec![5, 7, 5, 3];
    codec.encode(&mapping, &None);
    let a = codec.records[0];
    assert_eq!(a.full.raw, 5 + 7 * 30 + 3 * 900);
    assert_eq!(a.short.raw, 5 + 7 * 30);
    assert!(!a.short.duplicate);
    assert_eq!(a.short.actual, 5 + 7 * 30 + 2 * 900);
}

#[test]
fn three_element_word_pads_in_position_four() {
    // A three-element raw code lies below 30^3, so padding inserts the pad
    // key at the fourth position.
    let words = vec![word(vec![0, 1, 2], 3, 1)];
    let mut codec = Codec::new(words, 3, 30, 4).unwrap();
    let mapping: Vec<u64> = vec![5, 7, 9];
    codec.encode(&mapping, &None);
    let raw = 5 + 7 * 30 + 9 * 900;
    assert_eq!(codec.records[0].full.raw, raw);
    assert_eq!(codec.records[0].full.actual, raw + 4 * 27000);
}

#[test]
fn four_element_word_needs_no_padding() {
    let words = vec![word(vec![0, 1, 2, 3], 2, 1)];
    let mut codec = Codec::new(words, 4, 30, 4).unwrap();
    let mapping: Vec<u64> = vec![5, 7, 9, 11];
    codec.encode(&mapping, &None);
    let raw = 5 + 7 * 30 + 9 * 900 + 11 * 27000;
    assert_eq!(codec.records[0].full.raw, raw);
    assert_eq!(codec.records[0].full.actual, raw);
}

#[test]
fn incremental_encode_matches_full_encode() {
    // Mark element 1 changed after moving its key: the incremental call must
    // produce records identical to a full re-encode of the new mapping.
    let vocab = || {
        vec![
            word(vec![0, 1], 2, 10),
            word(vec![2, 3], 2, 20),
            word(vec![1, 3], 1, 30),
            word(vec![0, 2], 1, 40),
        ]
    };
    let mut incremental = Codec::new(vocab(), 4, 30, 0).unwrap();
    let mut mapping: Vec<u64> = vec![3, 4, 5, 6];
    incremental.encode(&mapping, &None);
    mapping[1] = 9;
    incremental.encode(&mapping, &Some(vec![1]));
    let mut full = Codec::new(vocab(), 4, 30, 0).unwrap();
    full.encode(&mapping, &None);
    assert_eq!(incremental.records.len(), full.records.len());
    for i in 0..full.records.len() {
        assert!(incremental.records[i] == full.records[i]);
    }
}

#[test]
fn superset_change_hint_matches_full_encode() {
    // The changed set may name more elements than actually moved; the result
    // must still equal a full re-encode.
    let vocab = || vec![word(vec![0, 1], 2, 10), word(vec![2, 3], 1, 20)];
    let mut incremental = Codec::new(vocab(), 4, 30, 0).unwrap();
    let mut mapping: Vec<u64> = vec![3, 4, 5, 6];
    incremental.encode(&mapping, &None);
    mapping[3] = 8;
    incremental.encode(&mapping, &Some(vec![0, 2, 3]));
    let mut full = Codec::new(vocab(), 4, 30, 0).unwrap();
    full.encode(&mapping, &None);
    for i in 0..full.records.len() {
        assert!(incremental.records[i] == full.records[i]);
    }
}

#[test]
fn repeated_element_in_one_word_is_handled_once_per_position() {
    // A word may use the same element in two positions; moving that element
    // changes both digits, and the incremental path recomputes it correctly.
    let vocab = || vec![word(vec![1, 1], 2, 5)];
    let mut codec = Codec::new(vocab(), 2, 30, 0).unwrap();
    let mut mapping: Vec<u64> = vec![0, 4];
    codec.encode(&mapping, &None);
    assert_eq!(codec.records[0].full.raw, 4 + 4 * 30);
    mapping[1] = 6;
    codec.encode(&mapping, &Some(vec![1]));
    assert_eq!(codec.records[0].full.raw, 6 + 6 * 30);
    let mut full = Codec::new(vocab(), 2, 30, 0).unwrap();
    full.encode(&mapping, &None);
    assert!(codec.records[0] == full.records[0]);
}

#[test]
fn reset_spaces_zeroes_both_spaces() {
    let words = vec![word(vec![0, 1], 2, 10)];
    let mut codec = Codec::new(words, 2, 30, 0).unwrap();
    let mapping: Vec<u64> = vec![3, 4];
    codec.encode(&mapping, &None);
    assert!(codec.full_space.iter().any(|c| *c > 0));
    codec.reset_spaces();
    assert!(codec.full_space.iter().all(|c| *c == 0));
    assert!(codec.short_space.iter().all(|c| *c == 0));
}

#[test]
fn encode_is_deterministic() {
    let vocab = || vec![word(vec![0, 1], 2, 10), word(vec![1, 0], 1, 20)];
    let mapping: Vec<u64> = vec![3, 4];
    let mut first = Codec::new(vocab(), 2, 30, 0).unwrap();
    first.encode(&mapping, &None);
    let mut second = Codec::new(vocab(), 2, 30, 0).unwrap();
    second.encode(&mapping, &None);
    second.encode(&mapping, &None);
    for i in 0..first.records.len() {
        assert!(first.records[i] == second.records[i]);
    }
}

#[test]
fn collision_spaces_count_every_raw_code() {
    // After a full encode, the full space holds, for each raw value, the
    // number of words whose full raw code equals it; same for the short
    // space over short raw codes.
    let words = vec![
        word(vec![0, 1], 2, 10),
        word(vec![0, 1], 2, 20),
        word(vec![1, 0], 2, 30),
    ];
    let mut codec = Codec::new(words, 2, 30, 0).unwrap();
    let mapping: Vec<u64> = vec![3, 4];
    codec.encode(&mapping, &None);
    let raw_a = (3 + 4 * 30) as usize;
    let raw_b = (4 + 3 * 30) as usize;
    assert_eq!(codec.full_space[raw_a], 2);
    assert_eq!(codec.full_space[raw_b], 1);
    assert_eq!(codec.short_space[raw_a], 2);
    assert_eq!(codec.short_space[raw_b], 1);
    assert_eq!(codec.full_space[0], 0);
    assert_eq!(codec.short_space[0], 0);
}

#[test]
fn construction_rejects_bad_parameters() {
    assert!(matches!(
        Codec::new(vec![], 0, 1, 0),
        Err(CodecError::BaseOutOfRange)
    ));
    assert!(matches!(
        Codec::new(vec![], 0, 0x10000, 0),
        Err(CodecError::BaseOutOfRange)
    ));
    assert!(matches!(
        Codec::new(vec![], 0, 30, 30),
        Err(CodecError::PadKeyOutOfRange)
    ));
    assert!(matches!(
        Codec::new(vec![word(vec![], 1, 1)], 1, 30, 0),
        Err(CodecError::MalformedWord)
    ));
    assert!(matches!(
        Codec::new(vec![word(vec![0, 0, 0, 0, 0], 1, 1)], 1, 30, 0),
        Err(CodecError::MalformedWord)
    ));
    assert!(matches!(
        Codec::new(vec![word(vec![3], 1, 1)], 3, 30, 0),
        Err(CodecError::MalformedWord)
    ));
}
