use meetings::measure::Measure;
use meetings::powerset::{
    best_permutation, permutation, powerset_members, takes_part, MAX_LOCAL_SPEAKERS,
    MIN_ACTIVITY_BITS, PERMUTATIONS, POWERSET_CLASSES,
};

fn m(x: f32) -> Measure {
    Measure { bits: x.to_bits() }
}

fn best(scores: [f32; 6]) -> [usize; 3] {
    best_permutation(&[
        m(scores[0]),
        m(scores[1]),
        m(scores[2]),
        m(scores[3]),
        m(scores[4]),
        m(scores[5]),
    ])
}

#[test]
fn classes_are_sets_of_at_most_two_speakers() {
    let classes: Vec<Vec<usize>> = (0..POWERSET_CLASSES).map(powerset_members).collect();
    assert_eq!(
        classes,
        vec![vec![], vec![0], vec![1], vec![2], vec![0, 1], vec![0, 2], vec![1, 2]]
    );
}

#[test]
fn permutations_are_all_different() {
    let all: Vec<[usize; 3]> = (0..PERMUTATIONS).map(permutation).collect();
    for (i, p) in all.iter().enumerate() {
        for l in 0..MAX_LOCAL_SPEAKERS {
            assert!(p.contains(&l));
        }
        assert!(!all[..i].contains(p));
    }
    assert_eq!(all[0], [0, 1, 2]);
}

#[test]
fn the_highest_score_is_matched() {
    assert_eq!(best([1.0, 2.0, 3.0, 9.0, 5.0, 4.0]), [1, 2, 0]);
    assert_eq!(best([1.0, 2.0, 3.0, 4.0, 5.0, 6.0]), [2, 1, 0]);
    assert_eq!(best([-1.0, -2.0, -3.0, -4.0, -5.0, -6.0]), [0, 1, 2]);
}

#[test]
fn the_first_of_equal_scores_is_matched() {
    assert_eq!(best([0.0; 6]), [0, 1, 2]);
    assert_eq!(best([0.0, 7.0, 7.0, 7.0, 0.0, 0.0]), [0, 2, 1]);
}

#[test]
fn scores_that_are_no_numbers_do_not_count() {
    let nan = f32::NAN;
    assert_eq!(best([nan; 6]), [0, 1, 2]);
    assert_eq!(best([f32::NEG_INFINITY; 6]), [0, 1, 2]);
    assert_eq!(best([nan, nan, 0.0, nan, 1.0, nan]), [2, 0, 1]);
}

#[test]
fn low_activity_takes_no_part() {
    assert_eq!(0.01f32.to_bits(), MIN_ACTIVITY_BITS);
    assert!(takes_part(m(0.01)));
    assert!(takes_part(m(0.8)));
    assert!(!takes_part(m(0.0099)));
    assert!(!takes_part(m(-1.0)));
    assert!(takes_part(m(f32::NAN)));
}
