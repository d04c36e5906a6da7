use quizdrill::interrogate::{
    string_to_command, matches_ignore_case, char_feedback, Answer, AtomicPass, CharFeedback,
    Command, StepOutcome,
};
use quizdrill::question::{AtomicQuestion, SequenceQuestion};

fn atomic(answer: &str, score: i32, previous_raise: i32) -> AtomicQuestion {
    AtomicQuestion {
        question: String::from("prompt"),
        note: None,
        answer: String::from(answer),
        score,
        previous_raise,
    }
}

#[test]
fn command_tokens() {
    assert_eq!(string_to_command("1"), Some(Command::Save));
    assert_eq!(string_to_command("2"), Some(Command::SkipNeutral));
    assert_eq!(string_to_command("3"), Some(Command::SkipCorrect));
    assert_eq!(string_to_command("4"), Some(Command::ToggleSkip));
    assert_eq!(string_to_command("5"), None);
    assert_eq!(string_to_command(""), None);
    assert_eq!(string_to_command("11"), None);
}

#[test]
fn answer_match_ignores_case() {
    assert!(matches_ignore_case("PARIS", "paris"));
    assert!(matches_ignore_case("pArIs", "Paris"));
    assert!(!matches_ignore_case("london", "paris"));
    assert!(matches_ignore_case("", ""));
    assert!(!matches_ignore_case("a", ""));
}

#[test]
fn classify_answer_commands_win() {
    let q = atomic("1", 0, 0);
    match q.classify_answer(String::from("1")) {
        Answer::Command(Command::Save) => {},
        _ => panic!("expected the save command"),
    }
}

#[test]
fn classify_answer_correct_and_incorrect() {
    let q = atomic("Paris", 0, 0);
    match q.classify_answer(String::from("PARIS")) {
        Answer::Correct(s) => assert_eq!(s, "PARIS"),
        _ => panic!("expected a correct answer"),
    }
    match q.classify_answer(String::from("Lyon")) {
        Answer::Incorrect(s) => assert_eq!(s, "Lyon"),
        _ => panic!("expected an incorrect answer"),
    }
}

#[test]
fn pass_first_correct_raises_and_finishes() {
    let q = atomic("yes", 0, 0);
    let mut pass = AtomicPass::start(&q);
    match pass.step(Answer::Correct(String::from("yes"))) {
        StepOutcome::Finished(out) => {
            assert_eq!(out.score, 1);
            assert_eq!(out.previous_raise, 1);
        },
        _ => panic!("expected the pass to finish"),
    }
}

#[test]
fn pass_incorrect_charges_once_then_repeats() {
    let q = atomic("yes", 0, 2);
    let mut pass = AtomicPass::start(&q);
    match pass.step(Answer::Incorrect(String::from("no"))) {
        StepOutcome::Repeat => {},
        _ => panic!("expected a repeat"),
    }
    assert_eq!(pass.current.score, -1);
    assert_eq!(pass.current.previous_raise, 1);
    match pass.step(Answer::Incorrect(String::from("no"))) {
        StepOutcome::Repeat => {},
        _ => panic!("expected a repeat"),
    }
    assert_eq!(pass.current.score, -1);
    assert_eq!(pass.current.previous_raise, 1);
    match pass.step(Answer::Correct(String::from("yes"))) {
        StepOutcome::Finished(out) => {
            assert_eq!(out.score, -1);
            assert_eq!(out.previous_raise, 1);
        },
        _ => panic!("expected the pass to finish"),
    }
}

#[test]
fn pass_skip_neutral_returns_question_unaltered() {
    let q = atomic("yes", 7, 3);
    let mut pass = AtomicPass::start(&q);
    match pass.step(Answer::Incorrect(String::from("no"))) {
        StepOutcome::Repeat => {},
        _ => panic!("expected a repeat"),
    }
    match pass.step(Answer::Command(Command::SkipNeutral)) {
        StepOutcome::Finished(out) => {
            assert_eq!(out.score, 7);
            assert_eq!(out.previous_raise, 3);
        },
        _ => panic!("expected the pass to finish"),
    }
}

#[test]
fn pass_skip_correct_adds_flat_one() {
    let q = atomic("yes", 7, 3);
    let mut pass = AtomicPass::start(&q);
    match pass.step(Answer::Command(Command::SkipCorrect)) {
        StepOutcome::Finished(out) => {
            assert_eq!(out.score, 8);
            assert_eq!(out.previous_raise, 3);
        },
        _ => panic!("expected the pass to finish"),
    }
}

#[test]
fn pass_save_keeps_state_and_continues() {
    let q = atomic("yes", 2, 1);
    let mut pass = AtomicPass::start(&q);
    match pass.step(Answer::Command(Command::Save)) {
        StepOutcome::SaveRequested => {},
        _ => panic!("expected a save request"),
    }
    assert_eq!(pass.current.score, 2);
    assert_eq!(pass.current.previous_raise, 1);
    assert!(!pass.decreased_already);
}

#[test]
fn pass_toggle_skip_fails_loudly() {
    let q = atomic("yes", 2, 1);
    let mut pass = AtomicPass::start(&q);
    match pass.step(Answer::Command(Command::ToggleSkip)) {
        StepOutcome::Unimplemented => {},
        _ => panic!("expected the unimplemented signal"),
    }
}

#[test]
fn sequence_pass_drills_only_minimum_children() {
    let content = vec![atomic("a", 0, 0), atomic("b", 1, 0), atomic("c", 0, 0)];
    let seq = SequenceQuestion { content };
    let min = 0;
    assert!(seq.is_drilled(0, min));
    assert!(!seq.is_drilled(1, min));
    assert!(seq.is_drilled(2, min));

    let mut drilled = Vec::new();
    let mut first = seq.content[0].clone();
    first.apply_correct();
    drilled.push(first);
    let mut third = seq.content[2].clone();
    third.apply_incorrect();
    drilled.push(third);

    let rebuilt = seq.reassemble(min, &drilled);
    assert_eq!(rebuilt.content.len(), 3);
    assert_eq!(rebuilt.content[0].score, 1);
    assert_eq!(rebuilt.content[0].answer, "a");
    assert_eq!(rebuilt.content[1].score, 1);
    assert_eq!(rebuilt.content[1].answer, "b");
    assert_eq!(rebuilt.content[2].score, -1);
    assert_eq!(rebuilt.content[2].answer, "c");
}

#[test]
fn feedback_classes_three_way() {
    let q = atomic("Hello", 0, 0);
    let (classes, tail) = q.feedback_classes("hXllo");
    assert_eq!(
        classes,
        vec![
            CharFeedback::CaseMismatch,
            CharFeedback::Wrong,
            CharFeedback::Match,
            CharFeedback::Match,
            CharFeedback::Match,
        ]
    );
    assert!(!tail);
}

#[test]
fn feedback_missing_tail() {
    let q = atomic("Hello", 0, 0);
    let (classes, tail) = q.feedback_classes("He");
    assert_eq!(classes, vec![CharFeedback::Match, CharFeedback::Match]);
    assert!(tail);
}

#[test]
fn feedback_longer_answer_than_expected() {
    let q = atomic("Hi", 0, 0);
    let (classes, tail) = q.feedback_classes("High");
    assert_eq!(classes.len(), 2);
    assert!(!tail);
}

#[test]
fn char_feedback_cases() {
    assert_eq!(char_feedback('a', 'a'), CharFeedback::Match);
    assert_eq!(char_feedback('a', 'A'), CharFeedback::CaseMismatch);
    assert_eq!(char_feedback('a', 'b'), CharFeedback::Wrong);
}
