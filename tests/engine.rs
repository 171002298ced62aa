use wordle_solver::dictionary::{keep_line, read_dict};
use wordle_solver::driver::{
    marks_from_chars, parse_feedback_line, play_guess, round_status, Outcome, Status,
};
use wordle_solver::feedback::{compute_bucket, Mark};
use wordle_solver::partition::compute_bucket_sizes;
use wordle_solver::rank::rank_by_score;
use wordle_solver::reduce::reduce_dictionary;
use wordle_solver::strategy::{gambling_bucket, worst_case_bucket};
use wordle_solver::words::word_of;

use Mark::{NotPresent as N, RightPosition as R, WrongPosition as W};

fn words(ws: &[&str]) -> Vec<Vec<char>> {
    ws.iter().map(|w| word_of(w)).collect()
}

fn vocabulary() -> Vec<Vec<char>> {
    words(&["crane", "slate", "trace", "grape", "place"])
}

fn sorted(mut v: Vec<usize>) -> Vec<usize> {
    v.sort();
    v
}

fn entropy(sizes: &[usize], n: usize) -> f64 {
    sizes
        .iter()
        .map(|&s| {
            let p = s as f64 / n as f64;
            p * (1.0 / p).log2()
        })
        .sum()
}

#[test]
fn bucket_sizes_of_slate() {
    let sizes = compute_bucket_sizes(&word_of("slate"), &vocabulary());
    assert_eq!(sorted(sizes), vec![1, 1, 1, 2]);
}

#[test]
fn bucket_sizes_sum_to_candidates() {
    let vocab = vocabulary();
    for g in ["crane", "slate", "trace", "grape", "place", "eerie", "zzzzz"] {
        let sizes = compute_bucket_sizes(&word_of(g), &vocab);
        assert_eq!(sizes.iter().sum::<usize>(), vocab.len());
        assert!(sizes.iter().all(|s| *s > 0));
    }
}

#[test]
fn bucket_sizes_of_empty_set() {
    assert_eq!(compute_bucket_sizes(&word_of("crane"), &Vec::new()), Vec::<usize>::new());
}

#[test]
fn reduce_after_crane_against_place() {
    let vocab = vocabulary();
    let marks = compute_bucket(&word_of("crane"), &word_of("place"));
    let left = reduce_dictionary(&word_of("crane"), &marks, &vocab);
    assert_eq!(left, words(&["place"]));
}

#[test]
fn reduce_keeps_order_and_is_idempotent() {
    let vocab = vocabulary();
    let guess = word_of("slate");
    let marks = compute_bucket(&guess, &word_of("crane"));
    let once = reduce_dictionary(&guess, &marks, &vocab);
    assert_eq!(once, words(&["crane", "grape"]));
    let twice = reduce_dictionary(&guess, &marks, &once);
    assert_eq!(twice, once);
    assert!(once.len() <= vocab.len());
}

#[test]
fn worst_case_takes_largest_bucket() {
    assert_eq!(worst_case_bucket(&vec![1, 3, 2]), 3);
    assert_eq!(worst_case_bucket(&vec![]), 0);
}

#[test]
fn gambling_sorts_before_walking() {
    assert_eq!(gambling_bucket(vec![3, 1, 1], 5, 0, 1), 3);
}

#[test]
fn gambling_thresholds() {
    let sizes = vec![1, 2, 1, 1];
    assert_eq!(gambling_bucket(sizes.clone(), 5, 0, 1), 2);
    assert_eq!(gambling_bucket(sizes.clone(), 5, 1, 2), 1);
    // 4/5 of the candidates lie in all but the smallest bucket: not above it
    assert_eq!(gambling_bucket(sizes.clone(), 5, 4, 5), 1);
    assert_eq!(gambling_bucket(vec![4, 1], 5, 3, 4), 4);
    assert_eq!(gambling_bucket(vec![4, 1], 5, 4, 5), 1);
    // a fraction of 1 is never exceeded
    assert_eq!(gambling_bucket(sizes, 5, 1, 1), 0);
    assert_eq!(gambling_bucket(vec![], 0, 1, 2), 0);
}

#[test]
fn gambling_zero_matches_worst_case() {
    let vocab = vocabulary();
    for g in ["crane", "slate", "trace", "eerie"] {
        let sizes = compute_bucket_sizes(&word_of(g), &vocab);
        let worst = worst_case_bucket(&sizes);
        assert_eq!(gambling_bucket(sizes, vocab.len(), 0, 1), worst);
    }
}

#[test]
fn worst_case_score_below_average_score() {
    let n = 5;
    for sizes in [vec![2, 1, 1, 1], vec![5], vec![1, 1, 1, 1, 1], vec![3, 2]] {
        let worst = (n as f64 / worst_case_bucket(&sizes) as f64).log2();
        assert!(worst <= entropy(&sizes, n) + 1e-12);
    }
}

#[test]
fn status_of_answer_sets() {
    assert!(matches!(round_status(&vec![]), Status::Stuck));
    match round_status(&words(&["place"])) {
        Status::Solved(w) => assert_eq!(w, word_of("place")),
        other => panic!("unexpected {:?}", other),
    }
    assert!(matches!(round_status(&vocabulary()), Status::Playing));
}

#[test]
fn end_to_end_average_strategy() {
    let vocab = vocabulary();
    let target = word_of("place");
    let first = play_guess(&word_of("crane"), &target, &vocab);
    match &first {
        Outcome::Narrowed(left) => assert_eq!(*left, words(&["place"])),
        Outcome::Guessed => panic!("crane is not the target"),
    }
    let mut possible = vocab.clone();
    let mut solved = false;
    for _round in 0..5 {
        match round_status(&possible) {
            Status::Solved(w) => {
                assert_eq!(w, target);
                solved = true;
                break;
            }
            Status::Stuck => panic!("stuck"),
            Status::Playing => {}
        }
        let n = possible.len();
        let best = |list: &Vec<Vec<char>>| {
            let mut best: Option<(Vec<char>, f64)> = None;
            for w in list {
                let score = entropy(&compute_bucket_sizes(w, &possible), n);
                if best.as_ref().map_or(true, |(_, s)| score > *s) {
                    best = Some((w.clone(), score));
                }
            }
            best.unwrap()
        };
        let (sug, sug_score) = best(&vocab);
        let (guess, guess_score) = best(&possible);
        let attempt = if sug_score >= guess_score + 0.005 { sug } else { guess };
        match play_guess(&attempt, &target, &possible) {
            Outcome::Guessed => {
                solved = true;
                break;
            }
            Outcome::Narrowed(left) => possible = left,
        }
    }
    assert!(solved);
}

#[test]
fn contradictory_feedback_gets_stuck() {
    let vocab = vocabulary();
    let marks = marks_from_chars(&word_of("+++++"));
    let left = reduce_dictionary(&word_of("crane"), &marks, &vocab);
    assert!(left.is_empty());
    assert!(matches!(round_status(&left), Status::Stuck));
}

#[test]
fn target_is_guessed() {
    assert!(matches!(
        play_guess(&word_of("place"), &word_of("place"), &vocabulary()),
        Outcome::Guessed
    ));
}

#[test]
fn feedback_line_parsing() {
    let (w, m) = parse_feedback_line(&word_of("crane -+x-+")).unwrap();
    assert_eq!(w, word_of("crane"));
    assert_eq!(m, vec![N, W, R, N, W]);
    let (w, m) = parse_feedback_line(&word_of("crane ----- trailing")).unwrap();
    assert_eq!(w, word_of("crane"));
    assert_eq!(m, vec![N; 5]);
    assert!(parse_feedback_line(&word_of("crane")).is_none());
    assert!(parse_feedback_line(&word_of("crane -+")).is_none());
    assert!(parse_feedback_line(&word_of("")).is_none());
}

#[test]
fn dictionary_filter() {
    let lines: Vec<String> = ["crane", "Crane", "cranes", "abc", "slate", "ÉCLAT", "éclat"]
        .iter()
        .map(|s| s.to_string())
        .collect();
    assert_eq!(read_dict(&lines, 5), words(&["crane", "slate", "éclat"]));
    assert!(keep_line("place", 5));
    assert!(!keep_line("PLACE", 5));
    assert!(!keep_line("plac", 5));
}

#[test]
fn possible_wrong_guess_shrinks_and_keeps_target() {
    let vocab = vocabulary();
    match play_guess(&word_of("slate"), &word_of("place"), &vocab) {
        Outcome::Narrowed(left) => {
            assert!(left.len() < vocab.len());
            assert!(left.contains(&word_of("place")));
            assert!(!left.contains(&word_of("slate")));
        }
        Outcome::Guessed => panic!("slate is not the target"),
    }
}

#[test]
fn ranking_by_descending_score_keeps_ties_in_order() {
    assert_eq!(rank_by_score(&vec![1, 3, 2, 3]), vec![1, 3, 2, 0]);
    assert_eq!(rank_by_score(&vec![5, 5, 5]), vec![0, 1, 2]);
    assert_eq!(rank_by_score(&vec![]), Vec::<usize>::new());
    assert_eq!(rank_by_score(&vec![0, u64::MAX]), vec![1, 0]);
}
