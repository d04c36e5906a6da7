use vstd::prelude::*;

use crate::ScoreType;

verus! {

// ---------------------------------------------------------------------------
// Executable data
// ---------------------------------------------------------------------------

/// A single fact: a prompt, the expected answer, an optional note, the
/// current score and the streak counter driving the adaptive raise rule.
pub struct AtomicQuestion {
    pub question: String,
    pub note: Option<String>,
    pub answer: String,
    pub score: ScoreType,
    pub previous_raise: ScoreType,
}

/// An ordered group of atomic facts drilled together; each member keeps its
/// own score, and the group counts as its worst (lowest-scored) member.
pub struct SequenceQuestion {
    pub content: Vec<AtomicQuestion>,
}

/// The scored, answerable unit: either one fact or a group of facts.
pub enum Question {
    SequenceQuestion(SequenceQuestion),
    AtomicQuestion(AtomicQuestion),
}

// ---------------------------------------------------------------------------
// Mathematical model
// ---------------------------------------------------------------------------

/// Model of an atomic question: text as character sequences, scores as
/// unbounded integers.
pub ghost struct AtomicView {
    pub question: Seq<char>,
    pub note: Option<Seq<char>>,
    pub answer: Seq<char>,
    pub score: int,
    pub previous_raise: int,
}

/// Model of a question: one fact, or the ordered models of a group's members.
pub ghost enum QuestionView {
    Sequence(Seq<AtomicView>),
    Atomic(AtomicView),
}

impl View for AtomicQuestion {
    type V = AtomicView;

    open spec fn view(&self) -> AtomicView {
        AtomicView {
            question: self.question@,
            note: match self.note {
                Some(n) => Some(n@),
                None => None,
            },
            answer: self.answer@,
            score: self.score as int,
            previous_raise: self.previous_raise as int,
        }
    }
}

impl View for SequenceQuestion {
    type V = Seq<AtomicView>;

    open spec fn view(&self) -> Seq<AtomicView> {
        self.content@.map_values(|a: AtomicQuestion| a@)
    }
}

impl View for Question {
    type V = QuestionView;

    open spec fn view(&self) -> QuestionView {
        match self {
            Question::SequenceQuestion(s) => QuestionView::Sequence(s@),
            Question::AtomicQuestion(a) => QuestionView::Atomic(a@),
        }
    }
}

/// Least score among a non-empty sequence of atomic models.
pub open spec fn seq_min_score(s: Seq<AtomicView>) -> int
    decreases s.len(),
{
    if s.len() <= 1 {
        s[0].score
    } else {
        let rest = seq_min_score(s.drop_first());
        if s[0].score <= rest {
            s[0].score
        } else {
            rest
        }
    }
}

impl AtomicView {
    /// The same fact with its score shifted down by `k`.
    pub open spec fn decreased(self, k: int) -> AtomicView {
        AtomicView { score: self.score - k, ..self }
    }

    /// Effect of the first correct answer in a pass: the streak counter grows
    /// by one and the score grows by the new counter value.
    pub open spec fn raised(self) -> AtomicView {
        AtomicView {
            score: self.score + self.previous_raise + 1,
            previous_raise: self.previous_raise + 1,
            ..self
        }
    }

    /// Effect of the first incorrect answer in a pass: the score drops by one
    /// and the streak counter drops by one, floored at zero.
    pub open spec fn lowered(self) -> AtomicView {
        AtomicView {
            score: self.score - 1,
            previous_raise: if self.previous_raise <= 0 {
                0
            } else {
                self.previous_raise - 1
            },
            ..self
        }
    }
}

impl QuestionView {
    /// A sequence question must hold at least one fact, else it has no score.
    pub open spec fn wf(self) -> bool {
        match self {
            QuestionView::Sequence(s) => s.len() > 0,
            QuestionView::Atomic(_) => true,
        }
    }

    /// The grouping key for leveling: the question's own score for a fact,
    /// the least member score for a group.
    pub open spec fn min_score(self) -> int {
        match self {
            QuestionView::Sequence(s) => seq_min_score(s),
            QuestionView::Atomic(a) => a.score,
        }
    }

    /// Whether `sc` is the score of some atomic fact inside this question.
    pub open spec fn contains_score(self, sc: int) -> bool {
        match self {
            QuestionView::Sequence(s) => exists|i: int| 0 <= i < s.len() && s[i].score == sc,
            QuestionView::Atomic(a) => a.score == sc,
        }
    }

    /// The same question with every contained score shifted down by `k`.
    pub open spec fn decreased(self, k: int) -> QuestionView {
        match self {
            QuestionView::Sequence(s) => QuestionView::Sequence(
                s.map_values(|a: AtomicView| a.decreased(k)),
            ),
            QuestionView::Atomic(a) => QuestionView::Atomic(a.decreased(k)),
        }
    }

    /// Every contained score stays inside the score type after shifting by `k`.
    pub open spec fn fits_decreased(self, k: int) -> bool {
        forall|sc: int|
            self.contains_score(sc) ==> i32::MIN <= sc - k && sc - k <= i32::MAX
    }
}

// ---------------------------------------------------------------------------
// Facts about the minimum
// ---------------------------------------------------------------------------

proof fn lemma_seq_min_is_min(s: Seq<AtomicView>)
    requires
        s.len() > 0,
    ensures
        forall|i: int| 0 <= i < s.len() ==> seq_min_score(s) <= #[trigger] s[i].score,
        exists|i: int| 0 <= i < s.len() && seq_min_score(s) == s[i].score,
    decreases s.len(),
{
    if s.len() > 1 {
        lemma_seq_min_is_min(s.drop_first());
        assert forall|i: int| 0 <= i < s.len() implies seq_min_score(s) <= #[trigger] s[i].score by {
            if i > 0 {
                assert(s[i] == s.drop_first()[i - 1]);
            }
        }
        if seq_min_score(s) != s[0].score {
            let j = choose|j: int|
                0 <= j < s.drop_first().len() && seq_min_score(s.drop_first()) == s.drop_first()[j].score;
            assert(seq_min_score(s) == s[j + 1].score);
        }
    }
}

proof fn lemma_seq_min_push(s: Seq<AtomicView>, x: AtomicView)
    requires
        s.len() > 0,
    ensures
        seq_min_score(s.push(x)) == if x.score < seq_min_score(s) {
            x.score
        } else {
            seq_min_score(s)
        },
    decreases s.len(),
{
    assert(s.push(x)[0] == s[0]);
    if s.len() == 1 {
        assert(s.push(x).drop_first() =~= seq![x]);
        assert(seq_min_score(seq![x]) == x.score);
        assert(seq_min_score(s) == s[0].score);
    } else {
        assert(s.push(x).drop_first() =~= s.drop_first().push(x));
        lemma_seq_min_push(s.drop_first(), x);
    }
}

/// Law: a question's `min_score` is the least atomic score it contains —
/// the score itself for an atomic question, the true minimum over the
/// members for a sequence question.
pub proof fn lemma_min_score_is_minimum(q: QuestionView)
    requires
        q.wf(),
    ensures
        q.contains_score(q.min_score()),
        forall|sc: int| q.contains_score(sc) ==> q.min_score() <= sc,
{
    match q {
        QuestionView::Sequence(s) => {
            lemma_seq_min_is_min(s);
        },
        QuestionView::Atomic(_) => {},
    }
}

proof fn lemma_seq_min_decreased(s: Seq<AtomicView>, k: int)
    requires
        s.len() > 0,
    ensures
        seq_min_score(s.map_values(|a: AtomicView| a.decreased(k))) == seq_min_score(s) - k,
    decreases s.len(),
{
    let m = s.map_values(|a: AtomicView| a.decreased(k));
    if s.len() > 1 {
        lemma_seq_min_decreased(s.drop_first(), k);
        assert(m.drop_first() =~= s.drop_first().map_values(|a: AtomicView| a.decreased(k)));
    }
}

/// Law: shifting every contained score down by `k` shifts `min_score` down
/// by exactly `k`, and therefore keeps the relative order of any two
/// questions' `min_score` values.
pub proof fn lemma_decreased_min_score(q1: QuestionView, q2: QuestionView, k: int)
    requires
        q1.wf(),
        q2.wf(),
    ensures
        q1.decreased(k).min_score() == q1.min_score() - k,
        q1.decreased(k).min_score() <= q2.decreased(k).min_score() <==> q1.min_score()
            <= q2.min_score(),
{
    match q1 {
        QuestionView::Sequence(s) => {
            lemma_seq_min_decreased(s, k);
        },
        QuestionView::Atomic(_) => {},
    }
    match q2 {
        QuestionView::Sequence(s) => {
            lemma_seq_min_decreased(s, k);
        },
        QuestionView::Atomic(_) => {},
    }
}

// ---------------------------------------------------------------------------
// Executable operations
// ---------------------------------------------------------------------------

impl Clone for AtomicQuestion {
    fn clone(&self) -> (r: Self)
        ensures
            r == *self,
    {
        AtomicQuestion {
            question: self.question.clone(),
            note: match &self.note {
                Some(n) => Some(n.clone()),
                None => None,
            },
            answer: self.answer.clone(),
            score: self.score,
            previous_raise: self.previous_raise,
        }
    }
}

impl Clone for SequenceQuestion {
    fn clone(&self) -> (r: Self)
        ensures
            r@ == self@,
            r.content@ == self.content@,
    {
        let mut content: Vec<AtomicQuestion> = Vec::new();
        let mut i: usize = 0;
        while i < self.content.len()
            invariant
                i <= self.content@.len(),
                content@ =~= self.content@.take(i as int),
            decreases self.content@.len() - i,
        {
            content.push(self.content[i].clone());
            i += 1;
        }
        assert(content@ =~= self.content@);
        SequenceQuestion { content }
    }
}

impl Clone for Question {
    fn clone(&self) -> (r: Self)
        ensures
            r@ == self@,
            r matches Question::AtomicQuestion(a) ==> *self matches Question::AtomicQuestion(b)
                && a == b,
    {
        match self {
            Question::SequenceQuestion(s) => Question::SequenceQuestion(s.clone()),
            Question::AtomicQuestion(a) => Question::AtomicQuestion(a.clone()),
        }
    }
}

impl Question {
    /// The grouping key for leveling, as stored data shows it.
    pub fn min_score(&self) -> (r: ScoreType)
        requires
            self@.wf(),
        ensures
            r as int == self@.min_score(),
    {
        match self {
            Question::AtomicQuestion(q) => q.score,
            Question::SequenceQuestion(q) => {
                let ghost s = q@;
                let mut min: ScoreType = q.content[0].score;
                let mut i: usize = 1;
                assert(s.take(1) =~= seq![s[0]]);
                while i < q.content.len()
                    invariant
                        1 <= i <= s.len(),
                        s == q.content@.map_values(|a: AtomicQuestion| a@),
                        s.len() == q.content@.len(),
                        min as int == seq_min_score(s.take(i as int)),
                    decreases s.len() - i,
                {
                    proof {
                        assert(s.take(i + 1) =~= s.take(i as int).push(s[i as int]));
                        lemma_seq_min_push(s.take(i as int), s[i as int]);
                    }
                    if q.content[i].score < min {
                        min = q.content[i].score;
                    }
                    i += 1;
                }
                proof {
                    assert(s.take(s.len() as int) =~= s);
                }
                min
            },
        }
    }

    /// Shift every contained score down by `amount`; used to normalize the
    /// score floor to zero before leveling and before saving.
    pub fn decrease_score(&mut self, amount: ScoreType)
        requires
            old(self)@.fits_decreased(amount as int),
        ensures
            final(self)@ == old(self)@.decreased(amount as int),
    {
        match self {
            Question::AtomicQuestion(q) => {
                assert(old(self)@.contains_score(q.score as int));
                q.score = q.score - amount;
            },
            Question::SequenceQuestion(q) => {
                let ghost orig = q@;
                let mut i: usize = 0;
                while i < q.content.len()
                    invariant
                        i <= orig.len(),
                        q.content@.len() == orig.len(),
                        old(self)@ == QuestionView::Sequence(orig),
                        old(self)@.fits_decreased(amount as int),
                        forall|j: int|
                            0 <= j < i ==> q.content@.map_values(|a: AtomicQuestion| a@)[j]
                                == orig[j].decreased(amount as int),
                        forall|j: int|
                            i <= j < orig.len() ==> q.content@.map_values(
                                |a: AtomicQuestion| a@,
                            )[j] == orig[j],
                    decreases orig.len() - i,
                {
                    proof {
                        assert(old(self)@.contains_score(orig[i as int].score));
                    }
                    let qi = &mut q.content[i];
                    qi.score = qi.score - amount;
                    i += 1;
                }
                proof {
                    assert(q.content@.map_values(|a: AtomicQuestion| a@) =~= orig.map_values(
                        |a: AtomicView| a.decreased(amount as int),
                    ));
                }
            },
        }
    }
}

// ---------------------------------------------------------------------------
// The adaptive raise rule
// ---------------------------------------------------------------------------

impl AtomicQuestion {
    /// First correct answer of a pass: grow the streak counter by one, then
    /// grow the score by the new counter value.
    pub fn apply_correct(&mut self)
        requires
            old(self).previous_raise < i32::MAX,
            i32::MIN <= old(self).score + old(self).previous_raise,
            old(self).score + old(self).previous_raise + 1 <= i32::MAX,
        ensures
            final(self)@ == old(self)@.raised(),
    {
        self.score = self.score + self.previous_raise + 1;
        self.previous_raise = self.previous_raise + 1;
    }

    /// First incorrect answer of a pass: drop the score by one and drop the
    /// streak counter by one, floored at zero (the counter never goes
    /// negative).
    pub fn apply_incorrect(&mut self)
        requires
            old(self).score > i32::MIN,
        ensures
            final(self)@ == old(self)@.lowered(),
    {
        self.score = self.score - 1;
        self.previous_raise = if self.previous_raise <= 0 {
            0
        } else {
            self.previous_raise - 1
        };
    }
}

/// Each state in `states` after the first arises from the previous one by
/// one application of the raise rule (a streak of correct answers).
pub open spec fn raise_chain(states: Seq<AtomicView>) -> bool {
    forall|i: int| 0 <= i < states.len() - 1 ==> states[i + 1] == #[trigger] states[i].raised()
}

/// Law (adaptive raise): starting from score 0 and streak counter 0, a
/// streak of correct answers yields counter values 1, 2, 3, ... and
/// cumulative scores 1, 3, 6, ... (the i-th score is 1 + 2 + ... + i).
pub proof fn lemma_adaptive_raise_streak(states: Seq<AtomicView>, n: int)
    requires
        0 <= n,
        states.len() == n + 1,
        raise_chain(states),
        states[0].score == 0,
        states[0].previous_raise == 0,
    ensures
        forall|i: int|
            0 <= i <= n ==> (#[trigger] states[i].previous_raise == i && 2 * states[i].score == i
                * (i + 1)),
    decreases n,
{
    if n > 0 {
        let prefix = states.take(n);
        assert(raise_chain(prefix)) by {
            assert forall|i: int| 0 <= i < prefix.len() - 1 implies prefix[i + 1]
                == #[trigger] prefix[i].raised() by {
                assert(states[i + 1] == states[i].raised());
            }
        }
        lemma_adaptive_raise_streak(prefix, n - 1);
        assert forall|i: int|
            0 <= i <= n implies (#[trigger] states[i].previous_raise == i && 2 * states[i].score
            == i * (i + 1)) by {
            if i < n {
                assert(prefix[i] == states[i]);
                assert(prefix[i].previous_raise == i && 2 * prefix[i].score == i * (i + 1));
            } else {
                assert(prefix[n - 1] == states[n - 1]);
                assert(prefix[n - 1].previous_raise == n - 1 && 2 * prefix[n - 1].score == (n - 1)
                    * n);
                assert(states[n] == states[n - 1].raised());
                assert(2 * states[n].score == (n - 1) * n + 2 * n) by (nonlinear_arith)
                    requires
                        2 * states[n - 1].score == (n - 1) * n,
                        states[n].score == states[n - 1].score + states[n - 1].previous_raise + 1,
                        states[n - 1].previous_raise == n - 1,
                ;
                assert((n - 1) * n + 2 * n == n * (n + 1)) by (nonlinear_arith);
            }
        }
    }
}

/// Law (streak reset): after any streak of correct answers that began with a
/// streak counter of 0, one incorrect answer lowers the score by exactly 1,
/// moves the counter back toward 0, and never makes it negative.
pub proof fn lemma_incorrect_resets_streak(states: Seq<AtomicView>, n: int, after: AtomicView)
    requires
        0 <= n,
        states.len() == n + 1,
        raise_chain(states),
        states[0].previous_raise == 0,
        after == states[n].lowered(),
    ensures
        after.score == states[n].score - 1,
        after.previous_raise == if n == 0 {
            0
        } else {
            n - 1
        },
        after.previous_raise >= 0,
{
    lemma_raise_chain_counter(states);
}

proof fn lemma_raise_chain_counter(states: Seq<AtomicView>)
    requires
        raise_chain(states),
        states.len() > 0,
    ensures
        forall|i: int|
            0 <= i < states.len() ==> #[trigger] states[i].previous_raise == states[0].previous_raise
                + i,
    decreases states.len(),
{
    if states.len() > 1 {
        let prefix = states.take(states.len() - 1);
        assert(raise_chain(prefix)) by {
            assert forall|i: int| 0 <= i < prefix.len() - 1 implies prefix[i + 1]
                == #[trigger] prefix[i].raised() by {
                assert(states[i + 1] == states[i].raised());
            }
        }
        lemma_raise_chain_counter(prefix);
        assert forall|i: int|
            0 <= i < states.len() implies #[trigger] states[i].previous_raise
            == states[0].previous_raise + i by {
            if i < states.len() - 1 {
                assert(prefix[i] == states[i]);
                assert(prefix[i].previous_raise == prefix[0].previous_raise + i);
            } else {
                assert(prefix[i - 1] == states[i - 1]);
                assert(prefix[i - 1].previous_raise == prefix[0].previous_raise + i - 1);
                assert(states[i] == states[i - 1].raised());
            }
        }
    }
}

} // verus!
