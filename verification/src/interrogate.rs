use vstd::prelude::*;

use crate::question::{AtomicQuestion, AtomicView, SequenceQuestion};
use crate::ScoreType;

verus! {

// ---------------------------------------------------------------------------
// Commands and answers
// ---------------------------------------------------------------------------

/// In-session commands, typed at the answer prompt in place of an answer.
#[derive(Clone, Copy, Debug, PartialEq, Eq, Structural)]
pub enum Command {
    Save,
    SkipCorrect,
    SkipNeutral,
    ToggleSkip,
}

/// How one line of user input is understood.
pub enum Answer {
    Correct(String),
    Incorrect(String),
    Command(Command),
}

/// The command denoted by an input line, if any: "1" saves, "2" skips
/// without scoring, "3" skips counting as correct, "4" is reserved.
pub open spec fn spec_command_of(s: Seq<char>) -> Option<Command> {
    if s == seq!['1'] {
        Some(Command::Save)
    } else if s == seq!['2'] {
        Some(Command::SkipNeutral)
    } else if s == seq!['3'] {
        Some(Command::SkipCorrect)
    } else if s == seq!['4'] {
        Some(Command::ToggleSkip)
    } else {
        None
    }
}

/// Recognize a command token.
pub fn string_to_command(s: &str) -> (r: Option<Command>)
    ensures
        r == spec_command_of(s@),
{
    if s.unicode_len() == 1 {
        let c = s.get_char(0);
        proof {
            assert(s@ =~= seq![s@[0]]);
        }
        if c == '1' {
            Some(Command::Save)
        } else if c == '2' {
            Some(Command::SkipNeutral)
        } else if c == '3' {
            Some(Command::SkipCorrect)
        } else if c == '4' {
            Some(Command::ToggleSkip)
        } else {
            proof {
                assert(s@ != seq!['1'] && s@ != seq!['2'] && s@ != seq!['3'] && s@ != seq!['4']);
            }
            None
        }
    } else {
        proof {
            assert(seq!['1'].len() == 1 && seq!['2'].len() == 1 && seq!['3'].len() == 1
                && seq!['4'].len() == 1);
        }
        None
    }
}

// ---------------------------------------------------------------------------
// Case-insensitive comparison
// ---------------------------------------------------------------------------

/// The lowercase form of a string, as `str::to_lowercase` computes it.
pub uninterp spec fn lower_of(s: Seq<char>) -> Seq<char>;

/// Relies on str::to_lowercase: the lowercase form of a string is a function
/// of its characters alone.
#[verifier::external_body]
fn lowercase(s: &str) -> (r: String)
    ensures
        r@ == lower_of(s@),
{
    s.to_lowercase()
}

/// Two strings count as the same answer when their lowercase forms agree.
pub open spec fn spec_matches_ignore_case(a: Seq<char>, b: Seq<char>) -> bool {
    lower_of(a) == lower_of(b)
}

/// Case-insensitive string equality, the rule deciding answer correctness.
pub fn matches_ignore_case(a: &str, b: &str) -> (r: bool)
    ensures
        r == spec_matches_ignore_case(a@, b@),
{
    let la = lowercase(a);
    let lb = lowercase(b);
    la == lb
}

impl AtomicQuestion {
    /// Sort one line of user input: a command token if it is one, else a
    /// correct answer when it matches the expected answer ignoring case,
    /// else an incorrect answer. The original line rides along.
    pub fn classify_answer(&self, user_answer: String) -> (a: Answer)
        ensures
            match spec_command_of(user_answer@) {
                Some(c) => a == Answer::Command(c),
                None => if spec_matches_ignore_case(user_answer@, self@.answer) {
                    a == Answer::Correct(user_answer)
                } else {
                    a == Answer::Incorrect(user_answer)
                },
            },
    {
        if let Some(command) = string_to_command(user_answer.as_str()) {
            return Answer::Command(command);
        }
        if matches_ignore_case(user_answer.as_str(), self.answer.as_str()) {
            Answer::Correct(user_answer)
        } else {
            Answer::Incorrect(user_answer)
        }
    }
}

// ---------------------------------------------------------------------------
// One interrogation pass over an atomic question
// ---------------------------------------------------------------------------

/// What the drill loop must do after feeding one answer to a pass.
pub enum StepOutcome {
    /// The answer was wrong: show feedback and ask the same question again.
    Repeat,
    /// The pass is over; the question leaves it in this state.
    Finished(AtomicQuestion),
    /// Save was requested: persist a snapshot, then ask again.
    SaveRequested,
    /// The reserved toggle-skip command: reported loudly, never a silent no-op.
    Unimplemented,
}

/// The state of one pass: the question as it entered the pass, its current
/// state, and whether this pass already charged an incorrect answer (the
/// score moves at most once per pass in each direction).
pub struct AtomicPass {
    pub original: AtomicQuestion,
    pub current: AtomicQuestion,
    pub decreased_already: bool,
}

impl AtomicPass {
    /// Open a pass over `q`.
    pub fn start(q: &AtomicQuestion) -> (p: AtomicPass)
        ensures
            p.original == *q,
            p.current == *q,
            !p.decreased_already,
    {
        AtomicPass { original: q.clone(), current: q.clone(), decreased_already: false }
    }

    /// Feed one classified answer to the pass.
    ///
    /// A first correct answer applies the raise rule and ends the pass; a
    /// correct answer after a miss ends it without a further score change.
    /// A first incorrect answer applies the lowering rule; later misses only
    /// repeat the question. Skipping neutrally returns the question as it
    /// entered the pass; skipping as correct adds a flat 1 to the score.
    pub fn step(&mut self, answer: Answer) -> (out: StepOutcome)
        requires
            (answer matches Answer::Correct(_) && !old(self).decreased_already) ==> ({
                &&& old(self).current.previous_raise < i32::MAX
                &&& i32::MIN <= old(self).current.score + old(self).current.previous_raise
                &&& old(self).current.score + old(self).current.previous_raise + 1 <= i32::MAX
            }),
            (answer matches Answer::Incorrect(_) && !old(self).decreased_already) ==> old(
                self,
            ).current.score > i32::MIN,
            answer == Answer::Command(Command::SkipCorrect) ==> old(self).current.score
                < i32::MAX,
        ensures
            final(self).original == old(self).original,
            match answer {
                Answer::Correct(_) => {
                    &&& final(self).decreased_already == old(self).decreased_already
                    &&& if old(self).decreased_already {
                        final(self).current == old(self).current
                    } else {
                        final(self).current@ == old(self).current@.raised()
                    }
                    &&& out == StepOutcome::Finished(final(self).current)
                },
                Answer::Incorrect(_) => {
                    &&& final(self).decreased_already
                    &&& if old(self).decreased_already {
                        final(self).current == old(self).current
                    } else {
                        final(self).current@ == old(self).current@.lowered()
                    }
                    &&& out == StepOutcome::Repeat
                },
                Answer::Command(c) => match c {
                    Command::Save => {
                        &&& *final(self) == *old(self)
                        &&& out == StepOutcome::SaveRequested
                    },
                    Command::SkipNeutral => {
                        &&& *final(self) == *old(self)
                        &&& out == StepOutcome::Finished(old(self).original)
                    },
                    Command::SkipCorrect => {
                        &&& final(self).decreased_already == old(self).decreased_already
                        &&& final(self).current@ == AtomicView {
                            score: old(self).current@.score + 1,
                            ..old(self).current@
                        }
                        &&& out == StepOutcome::Finished(final(self).current)
                    },
                    Command::ToggleSkip => {
                        &&& *final(self) == *old(self)
                        &&& out == StepOutcome::Unimplemented
                    },
                },
            },
    {
        match answer {
            Answer::Correct(_) => {
                if !self.decreased_already {
                    self.current.apply_correct();
                }
                StepOutcome::Finished(self.current.clone())
            },
            Answer::Incorrect(_) => {
                if !self.decreased_already {
                    self.current.apply_incorrect();
                    self.decreased_already = true;
                }
                StepOutcome::Repeat
            },
            Answer::Command(command) => match command {
                Command::Save => StepOutcome::SaveRequested,
                Command::SkipNeutral => StepOutcome::Finished(self.original.clone()),
                Command::SkipCorrect => {
                    self.current.score = self.current.score + 1;
                    StepOutcome::Finished(self.current.clone())
                },
                Command::ToggleSkip => StepOutcome::Unimplemented,
            },
        }
    }
}

// ---------------------------------------------------------------------------
// One interrogation pass over a sequence question
// ---------------------------------------------------------------------------

/// How many of the first `upto` members sit at the group's minimum score and
/// are therefore drilled rather than revealed.
pub open spec fn drilled_count(s: Seq<AtomicView>, min: int, upto: int) -> int
    decreases upto,
{
    if upto <= 0 {
        0
    } else {
        drilled_count(s, min, upto - 1) + if s[upto - 1].score == min {
            1int
        } else {
            0int
        }
    }
}

proof fn lemma_drilled_count_le(s: Seq<AtomicView>, min: int, i: int, j: int)
    requires
        0 <= i <= j,
    ensures
        drilled_count(s, min, i) <= drilled_count(s, min, j),
    decreases j - i,
{
    if i < j {
        lemma_drilled_count_le(s, min, i, j - 1);
    }
}

impl SequenceQuestion {
    /// Whether the member at `i` is drilled in this pass: only members at the
    /// group's minimum score are asked; the others are revealed untouched.
    pub fn is_drilled(&self, i: usize, min_score: ScoreType) -> (r: bool)
        requires
            i < self@.len(),
        ensures
            r == (self@[i as int].score == min_score as int),
    {
        self.content[i].score == min_score
    }

    /// Rebuild the group after a pass: members away from the minimum score
    /// stay exactly as they were, and the members that were drilled are
    /// replaced, in their original positions, by the pass results in order.
    pub fn reassemble(&self, min_score: ScoreType, drilled: &Vec<AtomicQuestion>) -> (r:
        SequenceQuestion)
        requires
            drilled@.len() == drilled_count(self@, min_score as int, self@.len() as int),
        ensures
            r@.len() == self@.len(),
            forall|i: int|
                0 <= i < self@.len() && self@[i].score != min_score as int ==> r@[i] == self@[i],
            forall|i: int|
                0 <= i < self@.len() && self@[i].score == min_score as int ==> r@[i] == drilled@[
                    drilled_count(self@, min_score as int, i)
                ]@,
    {
        let ghost s = self@;
        let ghost m = min_score as int;
        let dlen = drilled.len();
        let mut content: Vec<AtomicQuestion> = Vec::new();
        let mut k: usize = 0;
        let mut i: usize = 0;
        while i < self.content.len()
            invariant
                dlen == drilled@.len(),
                i <= s.len(),
                s == self.content@.map_values(|a: AtomicQuestion| a@),
                s.len() == self.content@.len(),
                m == min_score as int,
                drilled@.len() == drilled_count(s, m, s.len() as int),
                content@.len() == i as int,
                k as int == drilled_count(s, m, i as int),
                forall|j: int|
                    0 <= j < i && s[j].score != m ==> content@.map_values(
                        |a: AtomicQuestion| a@,
                    )[j] == s[j],
                forall|j: int|
                    0 <= j < i && s[j].score == m ==> content@.map_values(
                        |a: AtomicQuestion| a@,
                    )[j] == drilled@[drilled_count(s, m, j)]@,
            decreases s.len() - i,
        {
            if self.content[i].score != min_score {
                content.push(self.content[i].clone());
            } else {
                proof {
                    assert(s[i as int].score == m);
                    assert(drilled_count(s, m, i + 1) == drilled_count(s, m, i as int) + 1);
                    lemma_drilled_count_le(s, m, i + 1, s.len() as int);
                    assert(k < dlen);
                }
                content.push(drilled[k].clone());
                k = k + 1;
            }
            i += 1;
        }
        SequenceQuestion { content }
    }
}

// ---------------------------------------------------------------------------
// Feedback rendering classes
// ---------------------------------------------------------------------------

/// Per-character verdict when showing how a typed answer compares with the
/// expected one.
#[derive(Clone, Copy, Debug, PartialEq, Eq, Structural)]
pub enum CharFeedback {
    /// The typed character is exactly right.
    Match,
    /// Right letter, wrong case.
    CaseMismatch,
    /// Wrong character.
    Wrong,
}

/// The lowercase form of a character, as `char::to_lowercase` computes it.
pub uninterp spec fn char_lower_of(c: char) -> Seq<char>;

/// Relies on char::to_lowercase: the lowercase form of a character is a
/// function of the character alone.
#[verifier::external_body]
fn char_lower(c: char) -> (r: String)
    ensures
        r@ == char_lower_of(c),
{
    c.to_lowercase().to_string()
}

/// The verdict for one typed character against one expected character.
pub open spec fn spec_char_feedback(u: char, e: char) -> CharFeedback {
    if u == e {
        CharFeedback::Match
    } else if char_lower_of(u) == char_lower_of(e) {
        CharFeedback::CaseMismatch
    } else {
        CharFeedback::Wrong
    }
}

/// Judge one typed character against the expected one.
pub fn char_feedback(u: char, e: char) -> (r: CharFeedback)
    ensures
        r == spec_char_feedback(u, e),
{
    if u == e {
        CharFeedback::Match
    } else {
        let lu = char_lower(u);
        let le = char_lower(e);
        if lu == le {
            CharFeedback::CaseMismatch
        } else {
            CharFeedback::Wrong
        }
    }
}

impl AtomicQuestion {
    /// The diff shown after an answer: one verdict per typed character
    /// (paired with the expected answer's characters, up to the shorter
    /// length), plus whether the typed answer fell short of the expected
    /// length (the missing tail).
    pub fn feedback_classes(&self, user_answer: &str) -> (r: (Vec<CharFeedback>, bool))
        ensures
            r.0@.len() == if user_answer@.len() <= self@.answer.len() {
                user_answer@.len()
            } else {
                self@.answer.len()
            },
            forall|i: int|
                0 <= i < r.0@.len() ==> r.0@[i] == spec_char_feedback(
                    user_answer@[i],
                    self@.answer[i],
                ),
            r.1 == (user_answer@.len() < self@.answer.len()),
    {
        let ulen = user_answer.unicode_len();
        let alen = self.answer.as_str().unicode_len();
        let n = if ulen <= alen {
            ulen
        } else {
            alen
        };
        let mut classes: Vec<CharFeedback> = Vec::new();
        let mut i: usize = 0;
        while i < n
            invariant
                i <= n,
                n == if user_answer@.len() <= self@.answer.len() {
                    user_answer@.len()
                } else {
                    self@.answer.len()
                },
                ulen == user_answer@.len(),
                alen == self@.answer.len(),
                classes@.len() == i as int,
                forall|j: int|
                    0 <= j < i ==> classes@[j] == spec_char_feedback(
                        user_answer@[j],
                        self@.answer[j],
                    ),
            decreases n - i,
        {
            let u = user_answer.get_char(i);
            let e = self.answer.as_str().get_char(i);
            classes.push(char_feedback(u, e));
            i += 1;
        }
        (classes, ulen < alen)
    }
}

} // verus!
