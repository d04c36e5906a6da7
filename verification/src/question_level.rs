use vstd::prelude::*;

use crate::question::{Question, QuestionView};
use crate::ScoreType;

verus! {

/// An ordered run of questions that all sit at the same `min_score`, keyed by
/// that score, with a cached member count. Levels are rebuilt every session
/// and never persisted.
pub struct QuestionLevel {
    pub questions: Vec<Question>,
    pub length: usize,
    pub score: ScoreType,
}

/// Model of a level: its members' models, the cached count and the score.
pub ghost struct LevelView {
    pub questions: Seq<QuestionView>,
    pub length: int,
    pub score: int,
}

impl View for QuestionLevel {
    type V = LevelView;

    open spec fn view(&self) -> LevelView {
        LevelView {
            questions: self.questions@.map_values(|q: Question| q@),
            length: self.length as int,
            score: self.score as int,
        }
    }
}

impl LevelView {
    /// A level is uniform: non-empty, the cached count is the member count,
    /// every member is well formed, and every member's `min_score` is the
    /// level's score.
    pub open spec fn wf(self) -> bool {
        &&& self.length == self.questions.len()
        &&& self.questions.len() > 0
        &&& forall|i: int| 0 <= i < self.questions.len() ==> (#[trigger] self.questions[i]).wf()
        &&& forall|i: int|
            0 <= i < self.questions.len() ==> (#[trigger] self.questions[i]).min_score()
                == self.score
    }
}

impl Clone for QuestionLevel {
    fn clone(&self) -> (r: Self)
        ensures
            r@ == self@,
    {
        let mut questions: Vec<Question> = Vec::new();
        let mut i: usize = 0;
        while i < self.questions.len()
            invariant
                i <= self.questions@.len(),
                questions@.len() == i as int,
                forall|j: int| 0 <= j < i ==> (#[trigger] questions@[j])@ == self.questions@[j]@,
            decreases self.questions@.len() - i,
        {
            questions.push(self.questions[i].clone());
            i += 1;
        }
        proof {
            assert(questions@.map_values(|q: Question| q@) =~= self.questions@.map_values(
                |q: Question| q@,
            ));
        }
        QuestionLevel { questions, length: self.length, score: self.score }
    }
}

impl QuestionLevel {
    /// Package a non-empty run of questions that share one `min_score` into a
    /// level keyed by that score.
    pub fn new(questions: Vec<Question>) -> (r: QuestionLevel)
        requires
            questions@.len() > 0,
            forall|i: int| 0 <= i < questions@.len() ==> (#[trigger] questions@[i])@.wf(),
            forall|i: int|
                0 <= i < questions@.len() ==> (#[trigger] questions@[i])@.min_score()
                    == questions@[0]@.min_score(),
        ensures
            r@.wf(),
            r@.questions == questions@.map_values(|q: Question| q@),
            r@.length == questions@.len(),
            r@.score == questions@[0]@.min_score(),
    {
        let length = questions.len();
        let score = questions[0].min_score();
        QuestionLevel { questions, length, score }
    }
}

} // verus!
