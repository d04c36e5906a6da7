use quizdrill::question::{AtomicQuestion, Question};
use quizdrill::question_roster::{Order, QuestionRoster};

fn atomic(answer: &str, score: i32) -> Question {
    Question::AtomicQuestion(AtomicQuestion {
        question: String::from("prompt"),
        note: None,
        answer: String::from(answer),
        score,
        previous_raise: 0,
    })
}

fn scores_of(roster: &QuestionRoster) -> Vec<i32> {
    roster.questions.iter().map(|q| q.min_score()).collect()
}

#[test]
fn new_roster_starts_flat() {
    let roster = QuestionRoster::new(vec![atomic("a", 1)]);
    assert_eq!(roster.questions.len(), 1);
    assert_eq!(roster.question_levels.len(), 0);
    assert_eq!(roster.altered_questions.len(), 0);
    assert_eq!(roster.number_of_wrongs, 0);
}

#[test]
fn sort_ascending_and_descending() {
    let mut roster = QuestionRoster::new(vec![atomic("a", 2), atomic("b", 0), atomic("c", 1)]);
    roster.sort_by_scores(Order::Ascending);
    assert_eq!(scores_of(&roster), vec![0, 1, 2]);
    roster.sort_by_scores(Order::Descending);
    assert_eq!(scores_of(&roster), vec![2, 1, 0]);
}

#[test]
fn even_out_scores_zeroes_the_floor() {
    let mut roster = QuestionRoster::new(vec![atomic("a", 1), atomic("b", 2), atomic("c", 5)]);
    roster.even_out_scores();
    assert_eq!(scores_of(&roster), vec![0, 1, 4]);
}

#[test]
fn even_out_scores_uses_the_global_minimum() {
    let mut roster = QuestionRoster::new(vec![atomic("a", 5), atomic("b", 1), atomic("c", 2)]);
    roster.even_out_scores();
    assert_eq!(scores_of(&roster), vec![4, 0, 1]);
}

#[test]
fn shuffle_keeps_the_members() {
    let mut roster = QuestionRoster::new(vec![atomic("a", 1), atomic("b", 2), atomic("c", 3)]);
    roster.shuffle_questions();
    assert_eq!(roster.questions.len(), 3);
    let mut answers: Vec<String> = roster
        .questions
        .iter()
        .map(|q| match q {
            Question::AtomicQuestion(a) => a.answer.clone(),
            _ => unreachable!(),
        })
        .collect();
    answers.sort();
    assert_eq!(answers, vec!["a", "b", "c"]);
}

#[test]
fn build_levels_two_zero_one_two() {
    // three questions at scores [2, 0, 0]: two levels, score 0 with two
    // members and score 2 with one member, and the selector falls back
    let mut roster = QuestionRoster::new(vec![atomic("a", 2), atomic("b", 0), atomic("c", 0)]);
    roster.build_levels();
    assert_eq!(roster.questions.len(), 0);
    assert_eq!(roster.question_levels.len(), 2);
    assert_eq!(roster.question_levels[0].score, 0);
    assert_eq!(roster.question_levels[0].length, 2);
    assert_eq!(roster.question_levels[0].questions.len(), 2);
    assert_eq!(roster.question_levels[1].score, 2);
    assert_eq!(roster.question_levels[1].length, 1);
    assert_eq!(roster.question_levels[1].questions.len(), 1);

    let (index, fallback) = roster.select_drill_level();
    assert_eq!(index, 0);
    assert!(fallback);
}

#[test]
fn build_levels_uniform_and_strictly_increasing() {
    let mut roster = QuestionRoster::new(vec![
        atomic("a", 5),
        atomic("b", 3),
        atomic("c", 3),
        atomic("d", 9),
    ]);
    roster.build_levels();
    assert_eq!(roster.question_levels.len(), 3);
    let mut last_score = None;
    let mut total: usize = 0;
    for level in &roster.question_levels {
        for q in &level.questions {
            assert_eq!(q.min_score(), level.score);
        }
        assert_eq!(level.length, level.questions.len());
        if let Some(prev) = last_score {
            assert!(level.score > prev);
        }
        last_score = Some(level.score);
        total += level.length;
    }
    assert_eq!(total, 4);
    assert_eq!(roster.question_levels[0].score, 0);
    assert_eq!(roster.question_levels[0].length, 2);
    assert_eq!(roster.question_levels[1].score, 2);
    assert_eq!(roster.question_levels[2].score, 6);
}

#[test]
fn selector_picks_first_big_enough_level() {
    let mut roster = QuestionRoster::new(vec![
        atomic("a", 0),
        atomic("b", 1),
        atomic("c", 1),
        atomic("d", 1),
    ]);
    roster.build_levels();
    assert_eq!(roster.question_levels.len(), 2);
    let (index, fallback) = roster.select_drill_level();
    assert_eq!(index, 1);
    assert!(!fallback);
}

#[test]
fn destruct_levels_restores_the_flat_collection() {
    let mut roster = QuestionRoster::new(vec![atomic("a", 2), atomic("b", 0), atomic("c", 0)]);
    roster.build_levels();
    roster.destruct_levels();
    assert_eq!(roster.questions.len(), 3);
    assert_eq!(scores_of(&roster), vec![0, 0, 2]);
}

#[test]
fn set_level_question_replaces_one_slot() {
    let mut roster = QuestionRoster::new(vec![atomic("a", 0), atomic("b", 0)]);
    roster.build_levels();
    roster.set_level_question(0, 1, atomic("changed", 4));
    assert_eq!(roster.question_levels[0].questions.len(), 2);
    assert_eq!(roster.question_levels[0].questions[1].min_score(), 4);
    assert_eq!(roster.question_levels[0].score, 0);
}

#[test]
fn save_hands_back_sorted_normalized_records() {
    let mut roster = QuestionRoster::new(vec![atomic("a", 4), atomic("b", 2), atomic("c", 2)]);
    roster.build_levels();
    let records = roster.save();
    assert_eq!(records.len(), 3);
    let scores: Vec<i32> = records
        .iter()
        .map(|r| match r {
            quizdrill::record::QuestionRecord::Atomic(a) => a.score,
            _ => unreachable!(),
        })
        .collect();
    assert_eq!(scores, vec![0, 0, 2]);
    assert_eq!(scores_of(&roster), vec![0, 0, 2]);
}

#[test]
fn save_includes_altered_questions() {
    let mut roster = QuestionRoster::new(vec![atomic("a", 1), atomic("b", 1), atomic("c", 5)]);
    roster.build_levels();
    roster.altered_questions.push(atomic("side", 9));
    let records = roster.save();
    assert_eq!(records.len(), 4);
    let mut answers: Vec<String> = records
        .iter()
        .map(|r| match r {
            quizdrill::record::QuestionRecord::Atomic(a) => a.answer.clone(),
            _ => unreachable!(),
        })
        .collect();
    answers.sort();
    assert_eq!(answers, vec!["a", "b", "c", "side"]);
}
