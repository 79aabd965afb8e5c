//! The online solver: loading, guess selection, narrowing, terminal states.

use wordle_bot::builder::build_artifact;
use wordle_bot::entropy::log2_fixed;
use wordle_bot::pattern_builder::PatternBuilder;
use wordle_bot::wordle::Colour;
use wordle_bot::wordle::SolverStatus;
use wordle_bot::wordle::Word;
use wordle_bot::wordle::Wordle;

fn words_of(names: &[&[u8; 5]]) -> Vec<Word> {
    names.iter().map(|n| Word::from_bytes(**n)).collect()
}

fn small_artifact() -> Vec<u8> {
    let words = words_of(&[b"CRANE", b"SLATE", b"TRACE"]);
    build_artifact(&words, &words)
}

#[test]
fn log2_fixed_is_exact_on_powers_of_two() {
    assert_eq!(log2_fixed(0), 0);
    assert_eq!(log2_fixed(1), 0);
    assert_eq!(log2_fixed(2), 65536);
    assert_eq!(log2_fixed(4), 2 * 65536);
    assert_eq!(log2_fixed(8), 3 * 65536);
    assert_eq!(log2_fixed(32768), 15 * 65536);
}

#[test]
fn log2_fixed_orders_between_powers() {
    let three = log2_fixed(3);
    assert!(65536 < three && three < 2 * 65536);
    assert!(log2_fixed(5) > log2_fixed(4));
    assert!(log2_fixed(6) > three);
}

#[test]
fn load_selects_first_guess_among_equal_scores() {
    // Each guess splits the three candidates into three distinct codes, so
    // all scores tie and the stable argmax picks the first word.
    let solver = Wordle::new(&small_artifact()).unwrap();
    assert_eq!(solver.options(), 3);
    assert_eq!(solver.guess().letters(), *b"CRANE");
}

#[test]
fn scores_tie_across_symmetric_guesses() {
    let solver = Wordle::new(&small_artifact()).unwrap();
    let a = solver.score_of_guess(0);
    let b = solver.score_of_guess(1);
    let c = solver.score_of_guess(2);
    assert_eq!(a, b);
    assert_eq!(b, c);
    assert!(a > 0);
}

#[test]
fn histogram_buckets_sum_to_candidate_count() {
    let solver = Wordle::new(&small_artifact()).unwrap();
    let h = solver.code_histogram(0);
    assert_eq!(h.len(), 243);
    let total: u64 = h.iter().map(|c| *c as u64).sum();
    assert_eq!(total, solver.options() as u64);
    // Guess CRANE: codes 242, 180, 187 against the three targets.
    assert_eq!(h[242], 1);
    assert_eq!(h[180], 1);
    assert_eq!(h[187], 1);
}

#[test]
fn feedback_for_true_answer_solves_the_session() {
    // Hidden answer TRACE: encode(CRANE, TRACE) == 187.
    let mut solver = Wordle::new(&small_artifact()).unwrap();
    let status = solver.apply_feedback(187).unwrap();
    match status {
        SolverStatus::Solved(w) => assert_eq!(w.letters(), *b"TRACE"),
        _ => panic!("expected a solved session"),
    }
    assert_eq!(solver.options(), 1);
    assert_eq!(solver.guess().letters(), *b"TRACE");
}

#[test]
fn contradictory_feedback_is_unsolvable_not_a_crash() {
    // Code 0 matches no target's row for the opening guess CRANE.
    let mut solver = Wordle::new(&small_artifact()).unwrap();
    let status = solver.apply_feedback(0).unwrap();
    assert!(matches!(status, SolverStatus::Unsolvable));
    assert_eq!(solver.options(), 0);
}

#[test]
fn candidate_count_never_grows_and_answer_survives_each_round() {
    // Vocabulary where the opening guess leaves two candidates; the true
    // answer CCCCC must survive every round driven by its own codes.
    let words = words_of(&[b"AAAAA", b"BBBBB", b"CCCCC"]);
    let data = build_artifact(&words, &words);
    let mut solver = Wordle::new(&data).unwrap();
    assert_eq!(solver.guess().letters(), *b"AAAAA");

    // encode(AAAAA, CCCCC) == 0: narrows to the two non-A words.
    let before = solver.options();
    let status = solver.apply_feedback(0).unwrap();
    assert!(solver.options() <= before);
    assert_eq!(solver.options(), 2);
    match status {
        SolverStatus::Continue(w) => assert_eq!(w.letters(), *b"BBBBB"),
        _ => panic!("expected the session to continue"),
    }

    // encode(BBBBB, CCCCC) == 0: the answer remains and is identified.
    let before = solver.options();
    let status = solver.apply_feedback(0).unwrap();
    assert!(solver.options() <= before);
    match status {
        SolverStatus::Solved(w) => assert_eq!(w.letters(), *b"CCCCC"),
        _ => panic!("expected a solved session"),
    }
}

#[test]
fn out_of_range_feedback_is_rejected_without_state_change() {
    let mut solver = Wordle::new(&small_artifact()).unwrap();
    let before = solver.options();
    assert!(solver.apply_feedback(243).is_err());
    assert_eq!(solver.options(), before);
    assert_eq!(solver.guess().letters(), *b"CRANE");
}

#[test]
fn terminal_sessions_accept_no_further_transitions() {
    let mut solver = Wordle::new(&small_artifact()).unwrap();
    solver.apply_feedback(187).unwrap();
    // A solved session restates its outcome and ignores the code.
    let status = solver.apply_feedback(0).unwrap();
    match status {
        SolverStatus::Solved(w) => assert_eq!(w.letters(), *b"TRACE"),
        _ => panic!("expected the solved outcome to be restated"),
    }
    assert_eq!(solver.options(), 1);
}

#[test]
fn update_with_pattern_narrows_like_a_raw_code() {
    // 187 in base 3 is [1, 2, 2, 0, 2]: yellow, green, green, black, green.
    let mut solver = Wordle::new(&small_artifact()).unwrap();
    let mut builder = PatternBuilder::new();
    for colour in [Colour::Yellow, Colour::Green, Colour::Green, Colour::Black, Colour::Green] {
        assert!(builder.append(colour));
    }
    let pattern = builder.get_pattern().unwrap();
    assert_eq!(pattern.get_id(), 187);
    solver.update(pattern);
    assert_eq!(solver.options(), 1);
    assert_eq!(solver.guess().letters(), *b"TRACE");
}

#[test]
fn corrupt_artifacts_are_rejected() {
    // Too short for a header.
    assert!(Wordle::new(&vec![1, 2, 3]).is_err());
    // Zero words.
    assert!(Wordle::new(&vec![0, 0, 0, 0]).is_err());
    // Truncated body.
    let mut data = small_artifact();
    data.pop();
    assert!(Wordle::new(&data).is_err());
    // Mask true-count disagrees with the declared target count.
    let mut data = small_artifact();
    data[19] = 0;
    assert!(Wordle::new(&data).is_err());
    // A matrix byte that is not a feedback code.
    let bad = vec![0, 1, 0, 1, 65, 65, 65, 65, 65, 1, 255];
    assert!(Wordle::new(&bad).is_err());
    let good = vec![0, 1, 0, 1, 65, 65, 65, 65, 65, 1, 242];
    assert!(Wordle::new(&good).is_ok());
}

#[test]
fn single_candidate_session_solves_on_all_correct_feedback() {
    let solver = Wordle::new(&vec![0, 1, 0, 1, 65, 65, 65, 65, 65, 1, 242]).unwrap();
    assert_eq!(solver.options(), 1);
    assert_eq!(solver.guess().letters(), *b"AAAAA");
    let mut solver = solver;
    let status = solver.apply_feedback(242).unwrap();
    assert!(matches!(status, SolverStatus::Solved(_)));
}

#[test]
fn words_compare_by_letters() {
    let a = Word::from_bytes(*b"CRANE");
    let b = Word::from_bytes(*b"CRANE");
    let c = Word::from_bytes(*b"SLATE");
    assert!(a.same(&b));
    assert!(!a.same(&c));
}
