use wordle_solver::feedback::{compute_bucket, Mark};
use wordle_solver::words::word_of;

use Mark::{NotPresent as N, RightPosition as R, WrongPosition as W};

fn classify(g: &str, w: &str) -> Vec<Mark> {
    compute_bucket(&word_of(g), &word_of(w))
}

#[test]
fn word_against_itself_is_all_exact() {
    for w in ["crane", "speed", "aaaaa", "place", "sheer"] {
        assert_eq!(classify(w, w), vec![R; 5]);
    }
}

#[test]
fn exact_marks_count_shared_positions() {
    let cases = [("crane", "trace"), ("slate", "place"), ("speed", "erase"), ("abcde", "edcba")];
    for (g, w) in cases {
        let marks = classify(g, w);
        let exact = marks.iter().filter(|m| **m == R).count();
        let shared = g.chars().zip(w.chars()).filter(|(a, b)| a == b).count();
        assert_eq!(exact, shared);
        assert!(exact <= 5);
    }
}

#[test]
fn sheer_against_crepe() {
    assert_eq!(classify("sheer", "crepe"), vec![N, N, R, W, W]);
}

#[test]
fn speed_against_erase_marks_both_e_present() {
    // "erase" holds two unmatched e's, so both e's of the guess are marked.
    assert_eq!(classify("speed", "erase"), vec![W, N, W, W, N]);
}

#[test]
fn repeated_guess_letter_single_in_target() {
    // "abide" holds one e: only the first e of "speed" is marked.
    let marks = classify("speed", "abide");
    assert_eq!(marks, vec![N, N, W, N, W]);
    let e_marked = marks
        .iter()
        .zip("speed".chars())
        .filter(|(m, c)| *c == 'e' && **m != N)
        .count();
    assert_eq!(e_marked, 1);
}

#[test]
fn exact_match_consumes_before_wrong_position() {
    // the last e of "crepe" is matched exactly; its other e justifies one mark.
    assert_eq!(classify("eerie", "crepe"), vec![W, N, W, N, R]);
}

#[test]
fn crane_against_the_vocabulary() {
    assert_eq!(classify("crane", "slate"), vec![N, N, R, N, R]);
    assert_eq!(classify("crane", "trace"), vec![W, R, R, N, R]);
    assert_eq!(classify("crane", "grape"), vec![N, R, R, N, R]);
    assert_eq!(classify("crane", "place"), vec![W, N, R, N, R]);
}

#[test]
fn empty_words() {
    assert_eq!(classify("", ""), Vec::<Mark>::new());
}

#[test]
fn word_of_keeps_letters() {
    assert_eq!(word_of("crane"), vec!['c', 'r', 'a', 'n', 'e']);
    assert_eq!(word_of(""), Vec::<char>::new());
    assert_eq!(word_of("é!"), vec!['é', '!']);
}
