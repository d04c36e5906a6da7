use quizdrill::question::{AtomicQuestion, Question, SequenceQuestion};
use quizdrill::record::{
    questions_to_records, records_to_questions, AtomicRecord, QuestionRecord,
};

fn atomic(question: &str, answer: &str, note: Option<&str>, score: i32, raise: i32)
    -> AtomicQuestion {
    AtomicQuestion {
        question: String::from(question),
        note: note.map(String::from),
        answer: String::from(answer),
        score,
        previous_raise: raise,
    }
}

#[test]
fn atomic_round_trip_is_field_for_field() {
    let q = atomic("capital of France?", "Paris", Some("a city"), 4, 2);
    let back = q.to_record().to_question();
    assert_eq!(back.question, "capital of France?");
    assert_eq!(back.answer, "Paris");
    assert_eq!(back.note.as_deref(), Some("a city"));
    assert_eq!(back.score, 4);
    assert_eq!(back.previous_raise, 2);
}

#[test]
fn sequence_round_trip_keeps_order_and_fields() {
    let q = Question::SequenceQuestion(SequenceQuestion {
        content: vec![
            atomic("one", "1", None, 0, 0),
            atomic("two", "2", Some("pair"), -1, 5),
        ],
    });
    match q.to_record().to_question() {
        Question::SequenceQuestion(s) => {
            assert_eq!(s.content.len(), 2);
            assert_eq!(s.content[0].question, "one");
            assert_eq!(s.content[0].answer, "1");
            assert_eq!(s.content[0].note, None);
            assert_eq!(s.content[0].score, 0);
            assert_eq!(s.content[0].previous_raise, 0);
            assert_eq!(s.content[1].question, "two");
            assert_eq!(s.content[1].note.as_deref(), Some("pair"));
            assert_eq!(s.content[1].score, -1);
            assert_eq!(s.content[1].previous_raise, 5);
        },
        _ => panic!("expected a sequence question"),
    }
}

#[test]
fn missing_streak_counter_defaults_to_zero() {
    let record = AtomicRecord {
        question: String::from("q"),
        answer: String::from("a"),
        score: 3,
        note: None,
        previous_raise: None,
    };
    let q = record.to_question();
    assert_eq!(q.previous_raise, 0);
    assert_eq!(q.score, 3);
}

#[test]
fn written_records_carry_every_field() {
    let q = atomic("q", "a", None, 7, 1);
    let record = q.to_record();
    assert_eq!(record.question, "q");
    assert_eq!(record.answer, "a");
    assert_eq!(record.score, 7);
    assert_eq!(record.note, None);
    assert_eq!(record.previous_raise, Some(1));
}

#[test]
fn collection_round_trip_keeps_order() {
    let questions = vec![
        Question::AtomicQuestion(atomic("q1", "a1", None, 2, 0)),
        Question::SequenceQuestion(SequenceQuestion {
            content: vec![atomic("q2", "a2", None, 1, 1)],
        }),
        Question::AtomicQuestion(atomic("q3", "a3", Some("n"), -4, 3)),
    ];
    let records = questions_to_records(&questions);
    assert_eq!(records.len(), 3);
    match &records[1] {
        QuestionRecord::Sequence(s) => assert_eq!(s.content[0].question, "q2"),
        _ => panic!("expected a sequence record"),
    }
    let back = records_to_questions(&records);
    assert_eq!(back.len(), 3);
    match &back[0] {
        Question::AtomicQuestion(a) => {
            assert_eq!(a.question, "q1");
            assert_eq!(a.score, 2);
        },
        _ => panic!("expected an atomic question"),
    }
    match &back[2] {
        Question::AtomicQuestion(a) => {
            assert_eq!(a.note.as_deref(), Some("n"));
            assert_eq!(a.previous_raise, 3);
        },
        _ => panic!("expected an atomic question"),
    }
}
