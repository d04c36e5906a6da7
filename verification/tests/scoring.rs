use quizdrill::question::{AtomicQuestion, Question, SequenceQuestion};

fn atomic(answer: &str, score: i32) -> AtomicQuestion {
    AtomicQuestion {
        question: String::from("prompt"),
        note: None,
        answer: String::from(answer),
        score,
        previous_raise: 0,
    }
}

fn sequence(scores: &[i32]) -> Question {
    let mut content = Vec::new();
    for (i, s) in scores.iter().enumerate() {
        content.push(atomic(&format!("a{}", i), *s));
    }
    Question::SequenceQuestion(SequenceQuestion { content })
}

#[test]
fn min_score_atomic_is_own_score() {
    let q = Question::AtomicQuestion(atomic("x", 5));
    assert_eq!(q.min_score(), 5);
    let q = Question::AtomicQuestion(atomic("x", -3));
    assert_eq!(q.min_score(), -3);
}

#[test]
fn min_score_sequence_is_true_minimum() {
    assert_eq!(sequence(&[3, 1, 2]).min_score(), 1);
    assert_eq!(sequence(&[7]).min_score(), 7);
    assert_eq!(sequence(&[0, 1, 0]).min_score(), 0);
    assert_eq!(sequence(&[4, -2, 9]).min_score(), -2);
}

#[test]
fn min_score_holds_after_mutation() {
    let mut q = sequence(&[3, 1, 2]);
    q.decrease_score(1);
    assert_eq!(q.min_score(), 0);
}

#[test]
fn decrease_score_atomic_shifts_by_exactly_k() {
    let mut q = Question::AtomicQuestion(atomic("x", 5));
    q.decrease_score(2);
    assert_eq!(q.min_score(), 3);
    match &q {
        Question::AtomicQuestion(a) => assert_eq!(a.score, 3),
        _ => unreachable!(),
    }
}

#[test]
fn decrease_score_sequence_shifts_every_member() {
    let mut q = sequence(&[0, 1, 0]);
    q.decrease_score(-1);
    match &q {
        Question::SequenceQuestion(s) => {
            let scores: Vec<i32> = s.content.iter().map(|a| a.score).collect();
            assert_eq!(scores, vec![1, 2, 1]);
        },
        _ => unreachable!(),
    }
    assert_eq!(q.min_score(), 1);
}

#[test]
fn decrease_score_keeps_relative_order() {
    let mut low = Question::AtomicQuestion(atomic("x", 1));
    let mut high = sequence(&[9, 4]);
    assert!(low.min_score() <= high.min_score());
    low.decrease_score(3);
    high.decrease_score(3);
    assert!(low.min_score() <= high.min_score());
    assert_eq!(low.min_score(), -2);
    assert_eq!(high.min_score(), 1);
}

#[test]
fn adaptive_raise_three_in_a_row() {
    let mut a = atomic("x", 0);
    assert_eq!((a.score, a.previous_raise), (0, 0));
    a.apply_correct();
    assert_eq!((a.score, a.previous_raise), (1, 1));
    a.apply_correct();
    assert_eq!((a.score, a.previous_raise), (3, 2));
    a.apply_correct();
    assert_eq!((a.score, a.previous_raise), (6, 3));
}

#[test]
fn incorrect_after_streak_resets_counter() {
    let mut a = atomic("x", 0);
    a.apply_correct();
    a.apply_correct();
    a.apply_correct();
    a.apply_incorrect();
    assert_eq!(a.score, 5);
    assert_eq!(a.previous_raise, 2);
    assert!(a.previous_raise >= 0);
}

#[test]
fn incorrect_at_zero_counter_stays_at_zero() {
    let mut a = atomic("x", 4);
    a.apply_incorrect();
    assert_eq!(a.score, 3);
    assert_eq!(a.previous_raise, 0);
    a.apply_incorrect();
    assert_eq!(a.score, 2);
    assert_eq!(a.previous_raise, 0);
}
