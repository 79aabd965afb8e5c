//! Word-list parsing and artifact serialization.

use wordle_bot::builder::build_artifact;
use wordle_bot::builder::parse_word;
use wordle_bot::builder::parse_word_list;
use wordle_bot::wordle::Word;

fn words_of(names: &[&[u8; 5]]) -> Vec<Word> {
    names.iter().map(|n| Word::from_bytes(**n)).collect()
}

#[test]
fn parse_word_normalizes_to_upper_case() {
    let w = parse_word(&b"crane".to_vec()).unwrap();
    assert_eq!(w.letters(), *b"CRANE");
    let w = parse_word(&b"CrAnE".to_vec()).unwrap();
    assert_eq!(w.letters(), *b"CRANE");
}

#[test]
fn parse_word_rejects_bad_tokens() {
    assert!(parse_word(&b"cranes".to_vec()).is_err());
    assert!(parse_word(&b"cran".to_vec()).is_err());
    assert!(parse_word(&b"cr4ne".to_vec()).is_err());
    assert!(parse_word(&b"".to_vec()).is_err());
}

#[test]
fn parse_word_list_reads_newline_delimited_tokens() {
    let ws = parse_word_list(&b"crane\nslate\ntrace\n".to_vec()).unwrap();
    assert_eq!(ws.len(), 3);
    assert_eq!(ws[0].letters(), *b"CRANE");
    assert_eq!(ws[1].letters(), *b"SLATE");
    assert_eq!(ws[2].letters(), *b"TRACE");
}

#[test]
fn parse_word_list_accepts_missing_final_newline_and_crlf() {
    let ws = parse_word_list(&b"crane\r\nslate".to_vec()).unwrap();
    assert_eq!(ws.len(), 2);
    assert_eq!(ws[0].letters(), *b"CRANE");
    assert_eq!(ws[1].letters(), *b"SLATE");
}

#[test]
fn parse_word_list_of_empty_input_is_empty() {
    let ws = parse_word_list(&Vec::new()).unwrap();
    assert_eq!(ws.len(), 0);
}

#[test]
fn parse_word_list_aborts_on_first_bad_line() {
    assert!(parse_word_list(&b"crane\nbad\nslate\n".to_vec()).is_err());
    assert!(parse_word_list(&b"crane\n\nslate\n".to_vec()).is_err());
}

#[test]
fn build_artifact_lays_out_header_words_mask_and_matrix() {
    let words = words_of(&[b"CRANE", b"SLATE", b"TRACE"]);
    let targets = words_of(&[b"TRACE", b"SLATE"]);
    let out = build_artifact(&words, &targets);

    // Header: 3 words, 2 targets, big-endian 16-bit each.
    assert_eq!(&out[0..4], &[0, 3, 0, 2]);
    // Vocabulary, fixed width, in order.
    assert_eq!(&out[4..9], b"CRANE");
    assert_eq!(&out[9..14], b"SLATE");
    assert_eq!(&out[14..19], b"TRACE");
    // Mask aligned to vocabulary order.
    assert_eq!(&out[19..22], &[0, 1, 1]);
    // Matrix rows in target order (SLATE first: vocabulary order decides).
    assert_eq!(&out[22..25], &[180, 242, 181]);
    assert_eq!(&out[25..28], &[187, 207, 242]);
    assert_eq!(out.len(), 4 + 6 * 3 + 3 * 2);
}

#[test]
fn parsed_lists_build_a_loadable_artifact() {
    let words = parse_word_list(&b"crane\nslate\ntrace\n".to_vec()).unwrap();
    let targets = parse_word_list(&b"trace\n".to_vec()).unwrap();
    let data = build_artifact(&words, &targets);
    let mut solver = wordle_bot::wordle::Wordle::new(&data).unwrap();
    assert_eq!(solver.options(), 1);
    match solver.apply_feedback(242).unwrap() {
        wordle_bot::wordle::SolverStatus::Solved(w) => assert_eq!(w.letters(), *b"TRACE"),
        _ => panic!("expected the sole target to be identified"),
    }
}

#[test]
fn build_artifact_with_no_targets_has_empty_matrix() {
    let words = words_of(&[b"CRANE"]);
    let out = build_artifact(&words, &Vec::new());
    assert_eq!(&out[0..4], &[0, 1, 0, 0]);
    assert_eq!(out.len(), 4 + 6);
    assert_eq!(out[9], 0);
}
