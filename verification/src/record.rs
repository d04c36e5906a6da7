use vstd::prelude::*;

use crate::question::{AtomicQuestion, AtomicView, Question, QuestionView, SequenceQuestion};
use crate::ScoreType;

verus! {

// ---------------------------------------------------------------------------
// The record format
// ---------------------------------------------------------------------------

/// One atomic question as the storage format holds it. A record may omit the
/// note and the streak counter; a missing counter reads as 0.
pub struct AtomicRecord {
    pub question: String,
    pub answer: String,
    pub score: ScoreType,
    pub note: Option<String>,
    pub previous_raise: Option<ScoreType>,
}

/// A sequence question as the storage format holds it.
pub struct SequenceRecord {
    pub content: Vec<AtomicRecord>,
}

/// One stored question: the tagged union the question source yields and the
/// persistence writer accepts.
pub enum QuestionRecord {
    Atomic(AtomicRecord),
    Sequence(SequenceRecord),
}

// ---------------------------------------------------------------------------
// Model of the record format
// ---------------------------------------------------------------------------

/// Model of a stored atomic question.
pub ghost struct AtomicRecordView {
    pub question: Seq<char>,
    pub answer: Seq<char>,
    pub score: int,
    pub note: Option<Seq<char>>,
    pub previous_raise: Option<int>,
}

/// Model of a stored question.
pub ghost enum QuestionRecordView {
    Atomic(AtomicRecordView),
    Sequence(Seq<AtomicRecordView>),
}

impl View for AtomicRecord {
    type V = AtomicRecordView;

    open spec fn view(&self) -> AtomicRecordView {
        AtomicRecordView {
            question: self.question@,
            answer: self.answer@,
            score: self.score as int,
            note: match self.note {
                Some(n) => Some(n@),
                None => None,
            },
            previous_raise: match self.previous_raise {
                Some(p) => Some(p as int),
                None => None,
            },
        }
    }
}

impl View for SequenceRecord {
    type V = Seq<AtomicRecordView>;

    open spec fn view(&self) -> Seq<AtomicRecordView> {
        self.content@.map_values(|a: AtomicRecord| a@)
    }
}

impl View for QuestionRecord {
    type V = QuestionRecordView;

    open spec fn view(&self) -> QuestionRecordView {
        match self {
            QuestionRecord::Atomic(a) => QuestionRecordView::Atomic(a@),
            QuestionRecord::Sequence(s) => QuestionRecordView::Sequence(s@),
        }
    }
}

impl AtomicView {
    /// How a live atomic question is written out: every field present.
    pub open spec fn to_record(self) -> AtomicRecordView {
        AtomicRecordView {
            question: self.question,
            answer: self.answer,
            score: self.score,
            note: self.note,
            previous_raise: Some(self.previous_raise),
        }
    }
}

impl AtomicRecordView {
    /// How a stored atomic question is read back: a missing streak counter
    /// defaults to 0.
    pub open spec fn to_question(self) -> AtomicView {
        AtomicView {
            question: self.question,
            note: self.note,
            answer: self.answer,
            score: self.score,
            previous_raise: match self.previous_raise {
                Some(p) => p,
                None => 0,
            },
        }
    }
}

impl QuestionView {
    /// How a live question is written out.
    pub open spec fn to_record(self) -> QuestionRecordView {
        match self {
            QuestionView::Atomic(a) => QuestionRecordView::Atomic(a.to_record()),
            QuestionView::Sequence(s) => QuestionRecordView::Sequence(
                s.map_values(|a: AtomicView| a.to_record()),
            ),
        }
    }
}

impl QuestionRecordView {
    /// How a stored question is read back.
    pub open spec fn to_question(self) -> QuestionView {
        match self {
            QuestionRecordView::Atomic(a) => QuestionView::Atomic(a.to_question()),
            QuestionRecordView::Sequence(s) => QuestionView::Sequence(
                s.map_values(|a: AtomicRecordView| a.to_question()),
            ),
        }
    }
}

// ---------------------------------------------------------------------------
// Round trip
// ---------------------------------------------------------------------------

/// Law (round trip): a question written out as a record and read back is the
/// same question, field for field.
pub proof fn lemma_record_round_trip(q: QuestionView)
    ensures
        q.to_record().to_question() == q,
{
    match q {
        QuestionView::Atomic(_) => {},
        QuestionView::Sequence(s) => {
            assert(s.map_values(|a: AtomicView| a.to_record()).map_values(
                |a: AtomicRecordView| a.to_question(),
            ) =~= s);
        },
    }
}

/// Law (round trip, collections): writing a whole question collection out and
/// reading it back yields an equal collection, in order.
pub proof fn lemma_records_round_trip(qs: Seq<QuestionView>)
    ensures
        qs.map_values(|q: QuestionView| q.to_record()).map_values(
            |r: QuestionRecordView| r.to_question(),
        ) =~= qs,
{
    assert forall|i: int| 0 <= i < qs.len() implies qs.map_values(
        |q: QuestionView| q.to_record(),
    ).map_values(|r: QuestionRecordView| r.to_question())[i] == qs[i] by {
        lemma_record_round_trip(qs[i]);
    }
}

// ---------------------------------------------------------------------------
// Executable conversions
// ---------------------------------------------------------------------------

impl AtomicQuestion {
    /// Write one atomic question in the storage shape.
    pub fn to_record(&self) -> (r: AtomicRecord)
        ensures
            r@ == self@.to_record(),
    {
        AtomicRecord {
            question: self.question.clone(),
            answer: self.answer.clone(),
            score: self.score,
            note: match &self.note {
                Some(n) => Some(n.clone()),
                None => None,
            },
            previous_raise: Some(self.previous_raise),
        }
    }
}

impl AtomicRecord {
    /// Read one stored atomic question back, filling defaults.
    pub fn to_question(&self) -> (r: AtomicQuestion)
        ensures
            r@ == self@.to_question(),
    {
        AtomicQuestion {
            question: self.question.clone(),
            note: match &self.note {
                Some(n) => Some(n.clone()),
                None => None,
            },
            answer: self.answer.clone(),
            score: self.score,
            previous_raise: match self.previous_raise {
                Some(p) => p,
                None => crate::score_zero(),
            },
        }
    }
}

impl Question {
    /// Write one question in the storage shape.
    pub fn to_record(&self) -> (r: QuestionRecord)
        ensures
            r@ == self@.to_record(),
    {
        match self {
            Question::AtomicQuestion(a) => QuestionRecord::Atomic(a.to_record()),
            Question::SequenceQuestion(s) => {
                let mut content: Vec<AtomicRecord> = Vec::new();
                let mut i: usize = 0;
                while i < s.content.len()
                    invariant
                        i <= s.content@.len(),
                        content@.len() == i as int,
                        forall|j: int|
                            0 <= j < i ==> (#[trigger] content@[j])@
                                == s.content@[j]@.to_record(),
                    decreases s.content@.len() - i,
                {
                    content.push(s.content[i].to_record());
                    i += 1;
                }
                proof {
                    assert(content@.map_values(|a: AtomicRecord| a@) =~= s@.map_values(
                        |a: AtomicView| a.to_record(),
                    ));
                }
                QuestionRecord::Sequence(SequenceRecord { content })
            },
        }
    }
}

impl QuestionRecord {
    /// Read one stored question back, filling defaults.
    pub fn to_question(&self) -> (r: Question)
        ensures
            r@ == self@.to_question(),
    {
        match self {
            QuestionRecord::Atomic(a) => Question::AtomicQuestion(a.to_question()),
            QuestionRecord::Sequence(s) => {
                let mut content: Vec<AtomicQuestion> = Vec::new();
                let mut i: usize = 0;
                while i < s.content.len()
                    invariant
                        i <= s.content@.len(),
                        content@.len() == i as int,
                        forall|j: int|
                            0 <= j < i ==> (#[trigger] content@[j])@
                                == s.content@[j]@.to_question(),
                    decreases s.content@.len() - i,
                {
                    content.push(s.content[i].to_question());
                    i += 1;
                }
                proof {
                    assert(content@.map_values(|a: AtomicQuestion| a@) =~= s@.map_values(
                        |a: AtomicRecordView| a.to_question(),
                    ));
                }
                Question::SequenceQuestion(SequenceQuestion { content })
            },
        }
    }
}

/// Write a whole collection in the storage shape, in order.
pub fn questions_to_records(questions: &Vec<Question>) -> (r: Vec<QuestionRecord>)
    ensures
        r@.map_values(|x: QuestionRecord| x@) == questions@.map_values(
            |q: Question| q@,
        ).map_values(|v: QuestionView| v.to_record()),
{
    let mut r: Vec<QuestionRecord> = Vec::new();
    let mut i: usize = 0;
    while i < questions.len()
        invariant
            i <= questions@.len(),
            r@.len() == i as int,
            forall|j: int| 0 <= j < i ==> (#[trigger] r@[j])@ == questions@[j]@.to_record(),
        decreases questions@.len() - i,
    {
        r.push(questions[i].to_record());
        i += 1;
    }
    proof {
        assert(r@.map_values(|x: QuestionRecord| x@) =~= questions@.map_values(
            |q: Question| q@,
        ).map_values(|v: QuestionView| v.to_record()));
    }
    r
}

/// Read a whole stored collection back, in order.
pub fn records_to_questions(records: &Vec<QuestionRecord>) -> (r: Vec<Question>)
    ensures
        r@.map_values(|q: Question| q@) == records@.map_values(
            |x: QuestionRecord| x@,
        ).map_values(|v: QuestionRecordView| v.to_question()),
{
    let mut r: Vec<Question> = Vec::new();
    let mut i: usize = 0;
    while i < records.len()
        invariant
            i <= records@.len(),
            r@.len() == i as int,
            forall|j: int| 0 <= j < i ==> (#[trigger] r@[j])@ == records@[j]@.to_question(),
        decreases records@.len() - i,
    {
        r.push(records[i].to_question());
        i += 1;
    }
    proof {
        assert(r@.map_values(|q: Question| q@) =~= records@.map_values(
            |x: QuestionRecord| x@,
        ).map_values(|v: QuestionRecordView| v.to_question()));
    }
    r
}

} // verus!
