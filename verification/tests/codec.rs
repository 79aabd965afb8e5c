//! Feedback encoding: the duplicate-letter rules and the base-3 pattern
//! codec.

use wordle_bot::feedback::calculate_pattern;
use wordle_bot::wordle::Colour;
use wordle_bot::wordle::Pattern;

#[test]
fn encode_word_against_itself_is_all_correct() {
    assert_eq!(calculate_pattern(*b"CRANE", *b"CRANE"), 242);
    assert_eq!(calculate_pattern(*b"SPEED", *b"SPEED"), 242);
    assert_eq!(calculate_pattern(*b"AAAAA", *b"AAAAA"), 242);
}

#[test]
fn encode_speed_against_erase_credits_unclaimed_letters_only() {
    // S: present (S at target position 3), P: absent, E: present (target
    // position 0), E: present (target position 4), D: absent.
    assert_eq!(calculate_pattern(*b"SPEED", *b"ERASE"), 1 + 9 + 27);
}

#[test]
fn encode_erase_against_speed() {
    // E: present (target position 2), R: absent, A: absent, S: present
    // (target position 0), E: present (target position 3).
    assert_eq!(calculate_pattern(*b"ERASE", *b"SPEED"), 1 + 27 + 81);
}

#[test]
fn encode_guess_repeats_letter_target_has_fewer_of() {
    // GEESE vs METER: G absent; E correct; E present (claims target's other
    // E); S absent; final E finds no unclaimed E left.
    assert_eq!(calculate_pattern(*b"GEESE", *b"METER"), 2 * 3 + 9);
}

#[test]
fn encode_disjoint_words_is_zero() {
    assert_eq!(calculate_pattern(*b"AAAAA", *b"BBBBB"), 0);
}

#[test]
fn encode_crane_slate_trace_pairs() {
    assert_eq!(calculate_pattern(*b"SLATE", *b"CRANE"), 180);
    assert_eq!(calculate_pattern(*b"TRACE", *b"CRANE"), 213);
    assert_eq!(calculate_pattern(*b"CRANE", *b"SLATE"), 180);
    assert_eq!(calculate_pattern(*b"TRACE", *b"SLATE"), 181);
    assert_eq!(calculate_pattern(*b"CRANE", *b"TRACE"), 187);
    assert_eq!(calculate_pattern(*b"SLATE", *b"TRACE"), 207);
}

#[test]
fn pattern_all_green_is_242() {
    let p = Pattern::new([Colour::Green; 5]);
    assert_eq!(p.get_id(), 242);
}

#[test]
fn pattern_all_black_is_zero() {
    let p = Pattern::new([Colour::Black; 5]);
    assert_eq!(p.get_id(), 0);
}

#[test]
fn pattern_digits_use_base_three_place_values() {
    let p = Pattern::new([
        Colour::Yellow,
        Colour::Black,
        Colour::Green,
        Colour::Black,
        Colour::Black,
    ]);
    assert_eq!(p.get_id(), 1 + 2 * 9);
}

#[test]
fn decoding_then_encoding_returns_the_original_code() {
    for code in 0u8..=242 {
        let p = Pattern::from_code(code).unwrap();
        assert_eq!(p.get_id(), code);
    }
}

#[test]
fn codes_above_242_are_rejected() {
    assert!(Pattern::from_code(243).is_err());
    assert!(Pattern::from_code(255).is_err());
}
