//! The interactive pattern builder.

use wordle_bot::pattern_builder::PatternBuilder;
use wordle_bot::wordle::Colour;

#[test]
fn builder_starts_empty() {
    let b = PatternBuilder::new();
    assert_eq!(b.count(), 0);
    assert!(b.get_pattern().is_none());
}

#[test]
fn append_fills_up_to_five_colours() {
    let mut b = PatternBuilder::new();
    for _ in 0..5 {
        assert!(b.append(Colour::Green));
    }
    assert_eq!(b.count(), 5);
    assert!(!b.append(Colour::Black));
    assert_eq!(b.count(), 5);
}

#[test]
fn remove_undoes_the_last_colour() {
    let mut b = PatternBuilder::new();
    assert!(!b.remove());
    assert!(b.append(Colour::Yellow));
    assert!(b.append(Colour::Green));
    assert!(b.remove());
    assert_eq!(b.count(), 1);
    assert_eq!(b.get(), vec![Colour::Yellow]);
}

#[test]
fn get_returns_entered_colours_in_order() {
    let mut b = PatternBuilder::new();
    b.append(Colour::Black);
    b.append(Colour::Green);
    b.append(Colour::Yellow);
    assert_eq!(b.get(), vec![Colour::Black, Colour::Green, Colour::Yellow]);
}

#[test]
fn clear_discards_everything() {
    let mut b = PatternBuilder::new();
    b.append(Colour::Green);
    b.append(Colour::Green);
    b.clear();
    assert_eq!(b.count(), 0);
    assert!(b.get_pattern().is_none());
}

#[test]
fn incomplete_builders_yield_no_pattern() {
    let mut b = PatternBuilder::new();
    for i in 0..4 {
        assert_eq!(b.count(), i);
        assert!(b.get_pattern().is_none());
        b.append(Colour::Black);
    }
    assert!(b.get_pattern().is_none());
    b.append(Colour::Green);
    let p = b.get_pattern().unwrap();
    assert_eq!(p.get_id(), 2 * 81);
}
