use vstd::prelude::*;
use vstd::multiset::Multiset;

use rand::seq::SliceRandom;

use crate::question::{Question, QuestionView};
use crate::question_level::{LevelView, QuestionLevel};
use crate::record::QuestionRecord;

verus! {

broadcast use {vstd::multiset::group_multiset_axioms, vstd::seq_lib::group_to_multiset_ensures};

/// Smallest level size the drill selector accepts before falling back to the
/// lowest level.
pub const MINIMUM_QUESTION_COUNT: usize = 3;

// ---------------------------------------------------------------------------
// Collection-level predicates
// ---------------------------------------------------------------------------

/// The models of a question collection, in order.
pub open spec fn qviews(qs: Seq<Question>) -> Seq<QuestionView> {
    qs.map_values(|q: Question| q@)
}

/// The models of a level collection, in order.
pub open spec fn lviews(ls: Seq<QuestionLevel>) -> Seq<LevelView> {
    ls.map_values(|l: QuestionLevel| l@)
}

/// Every question in the collection is well formed.
pub open spec fn all_wf(vs: Seq<QuestionView>) -> bool {
    forall|v: QuestionView| #[trigger] vs.contains(v) ==> v.wf()
}

/// Every contained atomic score, shifted down by any question's `min_score`,
/// still fits the score type: floor normalization cannot overflow.
pub open spec fn spread_fits(vs: Seq<QuestionView>) -> bool {
    forall|v1: QuestionView, v2: QuestionView, sc: int|
        #![trigger vs.contains(v1), vs.contains(v2), v1.contains_score(sc)]
        vs.contains(v1) && vs.contains(v2) && v1.contains_score(sc) ==> sc - v2.min_score()
            <= i32::MAX
}

/// Sort direction for the flat collection.
#[derive(Clone, Copy, PartialEq, Eq, Structural)]
pub enum Order {
    Ascending,
    Descending,
}

/// `a` comes no later than `b` under the given order.
pub open spec fn score_le(order: Order, a: int, b: int) -> bool {
    match order {
        Order::Ascending => a <= b,
        Order::Descending => a >= b,
    }
}

/// The collection is sorted by `min_score` under the given order.
pub open spec fn sorted_by_score(order: Order, vs: Seq<QuestionView>) -> bool {
    forall|i: int, j: int|
        0 <= i < j < vs.len() ==> score_le(
            order,
            (#[trigger] vs[i]).min_score(),
            (#[trigger] vs[j]).min_score(),
        )
}

/// The least `min_score` in a non-empty collection: the global score floor.
pub open spec fn min_over(vs: Seq<QuestionView>) -> int
    decreases vs.len(),
{
    if vs.len() <= 1 {
        vs[0].min_score()
    } else {
        let rest = min_over(vs.drop_first());
        if vs[0].min_score() <= rest {
            vs[0].min_score()
        } else {
            rest
        }
    }
}

// ---------------------------------------------------------------------------
// Facts about the predicates
// ---------------------------------------------------------------------------

/// The floor is a lower bound on every `min_score` and is attained.
pub proof fn lemma_min_over_is_min(vs: Seq<QuestionView>)
    requires
        vs.len() > 0,
    ensures
        forall|i: int| 0 <= i < vs.len() ==> min_over(vs) <= (#[trigger] vs[i]).min_score(),
        exists|i: int| 0 <= i < vs.len() && min_over(vs) == vs[i].min_score(),
    decreases vs.len(),
{
    if vs.len() > 1 {
        lemma_min_over_is_min(vs.drop_first());
        assert forall|i: int| 0 <= i < vs.len() implies min_over(vs) <= (
        #[trigger] vs[i]).min_score() by {
            if i > 0 {
                assert(vs[i] == vs.drop_first()[i - 1]);
            }
        }
        if min_over(vs) != vs[0].min_score() {
            let j = choose|j: int|
                0 <= j < vs.drop_first().len() && min_over(vs.drop_first())
                    == vs.drop_first()[j].min_score();
            assert(min_over(vs) == vs[j + 1].min_score());
        }
    } else {
        assert(min_over(vs) == vs[0].min_score());
    }
}

/// Extending a collection by one question updates the floor to the smaller
/// of the two.
proof fn lemma_min_over_push(vs: Seq<QuestionView>, x: QuestionView)
    requires
        vs.len() > 0,
    ensures
        min_over(vs.push(x)) == if x.min_score() < min_over(vs) {
            x.min_score()
        } else {
            min_over(vs)
        },
    decreases vs.len(),
{
    assert(vs.push(x)[0] == vs[0]);
    if vs.len() == 1 {
        assert(vs.push(x).drop_first() =~= seq![x]);
        assert(min_over(seq![x]) == x.min_score());
        assert(min_over(vs) == vs[0].min_score());
    } else {
        assert(vs.push(x).drop_first() =~= vs.drop_first().push(x));
        lemma_min_over_push(vs.drop_first(), x);
    }
}

/// Two collections with the same members have the same floor.
proof fn lemma_min_over_multiset(a: Seq<QuestionView>, b: Seq<QuestionView>)
    requires
        a.to_multiset() == b.to_multiset(),
        a.len() > 0,
    ensures
        b.len() > 0,
        min_over(a) == min_over(b),
{
    assert(a.len() == a.to_multiset().len());
    assert(b.len() == b.to_multiset().len());
    lemma_min_over_is_min(a);
    lemma_min_over_is_min(b);
    let ia = choose|i: int| 0 <= i < a.len() && min_over(a) == a[i].min_score();
    assert(a.contains(a[ia]));
    assert(a.to_multiset().count(a[ia]) > 0);
    assert(b.to_multiset().count(a[ia]) > 0);
    assert(b.contains(a[ia]));
    assert(min_over(b) <= a[ia].min_score());
    let ib = choose|i: int| 0 <= i < b.len() && min_over(b) == b[i].min_score();
    assert(b.contains(b[ib]));
    assert(b.to_multiset().count(b[ib]) > 0);
    assert(a.to_multiset().count(b[ib]) > 0);
    assert(a.contains(b[ib]));
    assert(min_over(a) <= b[ib].min_score());
}

/// Well-formedness and normalization headroom carry across reorderings.
proof fn lemma_props_multiset(a: Seq<QuestionView>, b: Seq<QuestionView>)
    requires
        a.to_multiset() == b.to_multiset(),
    ensures
        all_wf(a) ==> all_wf(b),
        spread_fits(a) ==> spread_fits(b),
{
    assert forall|v: QuestionView| #[trigger] b.contains(v) implies a.contains(v) by {
        assert(b.to_multiset().count(v) > 0);
    }
}

/// Mapping two collections with the same members gives collections with the
/// same members.
proof fn lemma_map_values_multiset<A, B>(a: Seq<A>, b: Seq<A>, f: spec_fn(A) -> B)
    requires
        a.to_multiset() == b.to_multiset(),
    ensures
        a.map_values(f).to_multiset() == b.map_values(f).to_multiset(),
    decreases a.len(),
{
    assert(a.len() == a.to_multiset().len());
    assert(b.len() == b.to_multiset().len());
    if a.len() == 0 {
        assert(a.map_values(f) =~= b.map_values(f));
    } else {
        let x = a.last();
        assert(a.contains(x));
        assert(b.to_multiset().count(x) > 0);
        assert(b.contains(x));
        let j = choose|j: int| 0 <= j < b.len() && b[j] == x;
        assert(a.drop_last() =~= a.remove(a.len() - 1));
        assert(a.remove(a.len() - 1).to_multiset() == a.to_multiset().remove(x));
        assert(b.remove(j).to_multiset() == b.to_multiset().remove(x));
        lemma_map_values_multiset(a.drop_last(), b.remove(j), f);
        assert(a.drop_last().map_values(f) =~= a.map_values(f).remove(a.len() - 1));
        assert(b.remove(j).map_values(f) =~= b.map_values(f).remove(j));
        assert(a.map_values(f).remove(a.len() - 1).to_multiset() == a.map_values(
            f,
        ).to_multiset().remove(f(x)));
        assert(b.map_values(f).remove(j).to_multiset() == b.map_values(f).to_multiset().remove(
            f(x),
        ));
        assert(a.map_values(f).to_multiset().count(f(x)) > 0) by {
            assert(a.map_values(f)[a.len() - 1] == f(x));
            assert(a.map_values(f).contains(f(x)));
        }
        assert(b.map_values(f).to_multiset().count(f(x)) > 0) by {
            assert(b.map_values(f)[j] == f(x));
            assert(b.map_values(f).contains(f(x)));
        }
        assert(a.map_values(f).to_multiset() =~= b.map_values(f).to_multiset()) by {
            let ma = a.map_values(f).to_multiset();
            let mb = b.map_values(f).to_multiset();
            assert forall|y: B| ma.count(y) == mb.count(y) by {
                assert(ma.remove(f(x)).count(y) == mb.remove(f(x)).count(y));
            }
        }
    }
}

/// Inserting a member on one side and removing it on the other leaves a
/// combined collection unchanged.
proof fn lemma_insert_remove_add<A>(m1: Multiset<A>, m2: Multiset<A>, x: A)
    requires
        m2.count(x) >= 1,
    ensures
        m1.insert(x).add(m2.remove(x)) == m1.add(m2),
{
    assert(m1.insert(x).add(m2.remove(x)) =~= m1.add(m2)) by {
        assert forall|y: A| m1.insert(x).add(m2.remove(x)).count(y) == m1.add(m2).count(y) by {
            assert(m1.insert(x).count(y) == m1.count(y) + if y == x {
                1int
            } else {
                0int
            });
            assert(m2.remove(x).count(y) == m2.count(y) - if y == x {
                1int
            } else {
                0int
            });
        }
    }
}

// ---------------------------------------------------------------------------
// The roster
// ---------------------------------------------------------------------------

/// Owner of the session's question data: the flat collection, the leveled
/// partition (the two are alternative views of the same data), a side list
/// for questions altered outside any level, and a tally of wrong answers.
pub struct QuestionRoster {
    pub questions: Vec<Question>,
    pub question_levels: Vec<QuestionLevel>,
    pub altered_questions: Vec<Question>,
    pub number_of_wrongs: usize,
}

fn clone_questions(qs: &Vec<Question>) -> (r: Vec<Question>)
    ensures
        qviews(r@) == qviews(qs@),
{
    let mut r: Vec<Question> = Vec::new();
    let mut i: usize = 0;
    while i < qs.len()
        invariant
            i <= qs@.len(),
            r@.len() == i as int,
            forall|j: int| 0 <= j < i ==> (#[trigger] r@[j])@ == qs@[j]@,
        decreases qs@.len() - i,
    {
        r.push(qs[i].clone());
        i += 1;
    }
    proof {
        assert(qviews(r@) =~= qviews(qs@));
    }
    r
}

impl Clone for QuestionRoster {
    fn clone(&self) -> (r: Self)
        ensures
            qviews(r.questions@) == qviews(self.questions@),
            lviews(r.question_levels@) == lviews(self.question_levels@),
            qviews(r.altered_questions@) == qviews(self.altered_questions@),
            r.number_of_wrongs == self.number_of_wrongs,
    {
        let mut question_levels: Vec<QuestionLevel> = Vec::new();
        let mut i: usize = 0;
        while i < self.question_levels.len()
            invariant
                i <= self.question_levels@.len(),
                question_levels@.len() == i as int,
                forall|j: int|
                    0 <= j < i ==> (#[trigger] question_levels@[j])@ == self.question_levels@[j]@,
            decreases self.question_levels@.len() - i,
        {
            question_levels.push(self.question_levels[i].clone());
            i += 1;
        }
        proof {
            assert(lviews(question_levels@) =~= lviews(self.question_levels@));
        }
        QuestionRoster {
            questions: clone_questions(&self.questions),
            question_levels,
            altered_questions: clone_questions(&self.altered_questions),
            number_of_wrongs: self.number_of_wrongs,
        }
    }
}

/// Relies on rand's `SliceRandom::shuffle` with `thread_rng`: an in-place
/// Fisher-Yates permutation; it only swaps elements, whatever order the
/// generator picks.
#[verifier::external_body]
fn shuffle_in_place(questions: &mut Vec<Question>)
    ensures
        final(questions)@.to_multiset() == old(questions)@.to_multiset(),
{
    questions.shuffle(&mut rand::thread_rng());
}

impl QuestionRoster {
    /// A fresh roster owning a loaded collection, not yet leveled.
    pub fn new(questions: Vec<Question>) -> (r: QuestionRoster)
        ensures
            r.questions == questions,
            r.question_levels@.len() == 0,
            r.altered_questions@.len() == 0,
            r.number_of_wrongs == 0,
    {
        QuestionRoster {
            questions,
            question_levels: Vec::new(),
            altered_questions: Vec::new(),
            number_of_wrongs: 0,
        }
    }

    /// Randomize the drill order of the flat collection; its members do not
    /// change. The order itself is deliberately unspecified.
    pub fn shuffle_questions(&mut self)
        ensures
            qviews(final(self).questions@).to_multiset() == qviews(
                old(self).questions@,
            ).to_multiset(),
            final(self).questions@.len() == old(self).questions@.len(),
            final(self).question_levels == old(self).question_levels,
            final(self).altered_questions == old(self).altered_questions,
            final(self).number_of_wrongs == old(self).number_of_wrongs,
    {
        let ghost before = self.questions@;
        shuffle_in_place(&mut self.questions);
        proof {
            lemma_map_values_multiset(before, self.questions@, |q: Question| q@);
            assert(before.len() == before.to_multiset().len());
            assert(self.questions@.len() == self.questions@.to_multiset().len());
        }
    }

    /// Sort the flat collection by `min_score` under the given order; its
    /// members do not change.
    pub fn sort_by_scores(&mut self, order: Order)
        requires
            all_wf(qviews(old(self).questions@)),
        ensures
            qviews(final(self).questions@).to_multiset() == qviews(
                old(self).questions@,
            ).to_multiset(),
            sorted_by_score(order, qviews(final(self).questions@)),
            all_wf(qviews(final(self).questions@)),
            final(self).questions@.len() == old(self).questions@.len(),
            final(self).question_levels == old(self).question_levels,
            final(self).altered_questions == old(self).altered_questions,
            final(self).number_of_wrongs == old(self).number_of_wrongs,
    {
        let ghost orig = qviews(old(self).questions@);
        let mut sorted: Vec<Question> = Vec::new();
        while self.questions.len() > 0
            invariant
                all_wf(qviews(self.questions@)),
                all_wf(qviews(sorted@)),
                qviews(sorted@).to_multiset().add(qviews(self.questions@).to_multiset())
                    == orig.to_multiset(),
                sorted@.len() + self.questions@.len() == orig.len(),
                sorted_by_score(order, qviews(sorted@)),
                forall|i: int, j: int|
                    0 <= i < sorted@.len() && 0 <= j < self.questions@.len() ==> score_le(
                        order,
                        (#[trigger] qviews(sorted@)[i]).min_score(),
                        (#[trigger] qviews(self.questions@)[j]).min_score(),
                    ),
                self.question_levels == old(self).question_levels,
                self.altered_questions == old(self).altered_questions,
                self.number_of_wrongs == old(self).number_of_wrongs,
            decreases self.questions@.len(),
        {
            let ghost rem = qviews(self.questions@);
            let mut best: usize = 0;
            let mut k: usize = 1;
            proof {
                assert(rem.contains(rem[0]));
            }
            while k < self.questions.len()
                invariant
                    best < k,
                    k <= self.questions@.len(),
                    rem == qviews(self.questions@),
                    all_wf(qviews(self.questions@)),
                    forall|t: int|
                        0 <= t < k ==> score_le(
                            order,
                            rem[best as int].min_score(),
                            (#[trigger] rem[t]).min_score(),
                        ),
                decreases self.questions@.len() - k,
            {
                proof {
                    assert(rem.contains(rem[k as int]));
                    assert(rem.contains(rem[best as int]));
                }
                let better = match order {
                    Order::Ascending => self.questions[k].min_score()
                        < self.questions[best].min_score(),
                    Order::Descending => self.questions[k].min_score()
                        > self.questions[best].min_score(),
                };
                if better {
                    best = k;
                }
                k += 1;
            }
            let ghost x = rem[best as int];
            let q = self.questions.remove(best);
            proof {
                assert(q@ == x);
                assert(qviews(self.questions@) =~= rem.remove(best as int));
                assert(rem.remove(best as int).to_multiset() == rem.to_multiset().remove(x));
                assert(rem.contains(x));
                assert(rem.to_multiset().count(x) > 0);
            }
            let ghost sorted_before = qviews(sorted@);
            sorted.push(q);
            proof {
                assert(qviews(sorted@) =~= sorted_before.push(x));
                assert(sorted_before.push(x).to_multiset() == sorted_before.to_multiset().insert(
                    x,
                ));
                lemma_insert_remove_add(sorted_before.to_multiset(), rem.to_multiset(), x);
                // the new member is well formed and ordered after everything sorted
                assert forall|v: QuestionView| #[trigger]
                    qviews(sorted@).contains(v) implies v.wf() by {
                    let ii = choose|ii: int|
                        0 <= ii < qviews(sorted@).len() && qviews(sorted@)[ii] == v;
                    if ii < sorted_before.len() {
                        assert(sorted_before.contains(v));
                    } else {
                        assert(v == x);
                        assert(rem.contains(x));
                    }
                }
                assert forall|v: QuestionView| #[trigger]
                    qviews(self.questions@).contains(v) implies v.wf() by {
                    assert(qviews(self.questions@).to_multiset().count(v) > 0);
                    assert(rem.to_multiset().count(v) > 0);
                    assert(rem.contains(v));
                }
                assert forall|i: int, j: int|
                    0 <= i < j < qviews(sorted@).len() implies score_le(
                    order,
                    (#[trigger] qviews(sorted@)[i]).min_score(),
                    (#[trigger] qviews(sorted@)[j]).min_score(),
                ) by {
                    assert(qviews(sorted@)[i] == if i < sorted_before.len() {
                        sorted_before[i]
                    } else {
                        x
                    });
                    if j < sorted_before.len() {
                        assert(qviews(sorted@)[j] == sorted_before[j]);
                    } else {
                        assert(qviews(sorted@)[j] == x);
                    }
                }
                assert forall|i: int, j: int|
                    0 <= i < qviews(sorted@).len() && 0 <= j
                        < qviews(self.questions@).len() implies score_le(
                    order,
                    (#[trigger] qviews(sorted@)[i]).min_score(),
                    (#[trigger] qviews(self.questions@)[j]).min_score(),
                ) by {
                    let w = qviews(self.questions@)[j];
                    assert(w == rem.remove(best as int)[j]);
                    if j < best as int {
                        assert(w == rem[j]);
                    } else {
                        assert(w == rem[j + 1]);
                    }
                    if i >= sorted_before.len() {
                        assert(qviews(sorted@)[i] == x);
                    }
                }
            }
        }
        self.questions = sorted;
    }
}

// ---------------------------------------------------------------------------
// Floor normalization
// ---------------------------------------------------------------------------

/// Shifting every question down by `k` shifts the floor by `k`.
proof fn lemma_min_over_decreased(vs: Seq<QuestionView>, k: int)
    requires
        vs.len() > 0,
        all_wf(vs),
    ensures
        min_over(vs.map_values(|v: QuestionView| v.decreased(k))) == min_over(vs) - k,
{
    let mapped = vs.map_values(|v: QuestionView| v.decreased(k));
    lemma_min_over_is_min(vs);
    lemma_min_over_is_min(mapped);
    assert forall|i: int| 0 <= i < vs.len() implies (#[trigger] mapped[i]).min_score() == vs[i].min_score() - k by {
        assert(vs.contains(vs[i]));
        crate::question::lemma_decreased_min_score(vs[i], vs[i], k);
    }
    let ia = choose|i: int| 0 <= i < vs.len() && min_over(vs) == vs[i].min_score();
    let ib = choose|i: int| 0 <= i < mapped.len() && min_over(mapped) == mapped[i].min_score();
    assert(min_over(mapped) <= mapped[ia].min_score());
    assert(min_over(vs) <= vs[ib].min_score());
}

/// Shifting every question down by `k` keeps the sort order.
proof fn lemma_sorted_decreased(order: Order, vs: Seq<QuestionView>, k: int)
    requires
        all_wf(vs),
        sorted_by_score(order, vs),
    ensures
        sorted_by_score(order, vs.map_values(|v: QuestionView| v.decreased(k))),
{
    let mapped = vs.map_values(|v: QuestionView| v.decreased(k));
    assert forall|i: int, j: int| 0 <= i < j < mapped.len() implies score_le(
        order,
        (#[trigger] mapped[i]).min_score(),
        (#[trigger] mapped[j]).min_score(),
    ) by {
        assert(vs.contains(vs[i]));
        assert(vs.contains(vs[j]));
        crate::question::lemma_decreased_min_score(vs[i], vs[i], k);
        crate::question::lemma_decreased_min_score(vs[j], vs[j], k);
        assert(score_le(order, vs[i].min_score(), vs[j].min_score()));
    }
}

/// Shifting every question down by `k` keeps every question well formed.
proof fn lemma_all_wf_decreased(vs: Seq<QuestionView>, k: int)
    requires
        all_wf(vs),
    ensures
        all_wf(vs.map_values(|v: QuestionView| v.decreased(k))),
{
    let mapped = vs.map_values(|v: QuestionView| v.decreased(k));
    assert forall|v: QuestionView| #[trigger] mapped.contains(v) implies v.wf() by {
        let i = choose|i: int| 0 <= i < mapped.len() && mapped[i] == v;
        assert(vs.contains(vs[i]));
        match vs[i] {
            QuestionView::Sequence(s) => {
                assert(v == QuestionView::Sequence(s.map_values(|a: crate::question::AtomicView| a.decreased(k))));
            },
            QuestionView::Atomic(_) => {},
        }
    }
}

/// Well-formedness splits over concatenation.
proof fn lemma_all_wf_concat(a: Seq<QuestionView>, b: Seq<QuestionView>)
    requires
        all_wf(a),
        all_wf(b),
    ensures
        all_wf(a + b),
{
    assert forall|v: QuestionView| #[trigger] (a + b).contains(v) implies v.wf() by {
        let i = choose|i: int| 0 <= i < (a + b).len() && (a + b)[i] == v;
        if i < a.len() {
            assert(a[i] == v);
            assert(a.contains(v));
        } else {
            assert(b[i - a.len()] == v);
            assert(b.contains(v));
        }
    }
}

impl QuestionRoster {
    /// Shift every question's scores down by the global minimum `min_score`,
    /// so the score floor lands at zero.
    pub fn even_out_scores(&mut self)
        requires
            old(self).questions@.len() > 0,
            all_wf(qviews(old(self).questions@)),
            spread_fits(qviews(old(self).questions@)),
        ensures
            qviews(final(self).questions@) == qviews(old(self).questions@).map_values(
                |v: QuestionView| v.decreased(min_over(qviews(old(self).questions@))),
            ),
            final(self).questions@.len() == old(self).questions@.len(),
            final(self).question_levels == old(self).question_levels,
            final(self).altered_questions == old(self).altered_questions,
            final(self).number_of_wrongs == old(self).number_of_wrongs,
    {
        let ghost vs = qviews(old(self).questions@);
        proof {
            assert(vs.contains(vs[0]));
            assert(qviews(self.questions@)[0] == self.questions@[0]@);
            assert(vs.take(1) =~= seq![vs[0]]);
        }
        let mut lowest = self.questions[0].min_score();
        let mut k: usize = 1;
        while k < self.questions.len()
            invariant
                1 <= k <= vs.len(),
                vs == qviews(self.questions@),
                self.questions@.len() == vs.len(),
                all_wf(vs),
                lowest as int == min_over(vs.take(k as int)),
            decreases vs.len() - k,
        {
            proof {
                assert(vs.take(k + 1) =~= vs.take(k as int).push(vs[k as int]));
                lemma_min_over_push(vs.take(k as int), vs[k as int]);
                assert(qviews(self.questions@)[k as int] == self.questions@[k as int]@);
                assert(vs.contains(vs[k as int]));
            }
            let s = self.questions[k].min_score();
            if s < lowest {
                lowest = s;
            }
            k += 1;
        }
        proof {
            assert(vs.take(vs.len() as int) =~= vs);
        }
        let ghost m = lowest as int;
        let mut i: usize = 0;
        while i < self.questions.len()
            invariant
                i <= vs.len(),
                self.questions@.len() == vs.len(),
                m == min_over(vs),
                m == lowest as int,
                all_wf(vs),
                spread_fits(vs),
                i32::MIN <= m <= i32::MAX,
                forall|j: int| 0 <= j < i ==> (#[trigger] qviews(self.questions@)[j]) == vs[j].decreased(m),
                forall|j: int| i <= j < vs.len() ==> (#[trigger] qviews(self.questions@)[j]) == vs[j],
                self.question_levels == old(self).question_levels,
                self.altered_questions == old(self).altered_questions,
                self.number_of_wrongs == old(self).number_of_wrongs,
            decreases vs.len() - i,
        {
            let ghost prev = self.questions@;
            proof {
                assert(qviews(prev)[i as int] == prev[i as int]@);
                assert(prev[i as int]@ == vs[i as int]);
                assert(vs.contains(vs[i as int]));
                crate::question::lemma_min_score_is_minimum(vs[i as int]);
                lemma_min_over_is_min(vs);
                let ja = choose|ja: int| 0 <= ja < vs.len() && min_over(vs) == vs[ja].min_score();
                assert(vs.contains(vs[ja]));
                assert forall|sc: int| vs[i as int].contains_score(sc) implies i32::MIN <= sc - m
                    && sc - m <= i32::MAX by {
                    assert(sc >= vs[i as int].min_score());
                    assert(vs[i as int].min_score() >= min_over(vs));
                    assert(sc - vs[ja].min_score() <= i32::MAX);
                }
                assert(vs[i as int].fits_decreased(m));
                assert(m == lowest as int);
                assert(vs[i as int].fits_decreased(lowest as int));
            }
            let q = &mut self.questions[i];
            proof {
                assert((*q)@ == vs[i as int]);
                assert((*q)@.fits_decreased(lowest as int));
            }
            q.decrease_score(lowest);
            proof {
                assert(self.questions@[i as int]@ == vs[i as int].decreased(m));
                assert forall|j: int| 0 <= j < i + 1 implies (#[trigger] qviews(
                    self.questions@,
                )[j]) == vs[j].decreased(m) by {
                    if j < i {
                        assert(qviews(prev)[j] == vs[j].decreased(m));
                        assert(self.questions@[j] == prev[j]);
                    } else {
                        assert(qviews(self.questions@)[j] == self.questions@[j]@);
                    }
                }
                assert forall|j: int| i + 1 <= j < vs.len() implies (#[trigger] qviews(
                    self.questions@,
                )[j]) == vs[j] by {
                    assert(qviews(prev)[j] == vs[j]);
                    assert(self.questions@[j] == prev[j]);
                }
            }
            i += 1;
        }
        proof {
            assert(qviews(self.questions@) =~= vs.map_values(|v: QuestionView| v.decreased(m)));
        }
    }
}

// ---------------------------------------------------------------------------
// Leveling
// ---------------------------------------------------------------------------

/// All level members, in level order: the leveled counterpart of the flat
/// collection.
pub open spec fn levels_flat(lvs: Seq<LevelView>) -> Seq<QuestionView>
    decreases lvs.len(),
{
    if lvs.len() == 0 {
        Seq::empty()
    } else {
        levels_flat(lvs.drop_last()) + lvs.last().questions
    }
}

impl QuestionRoster {
    /// Partition the collection into levels: shuffle, sort ascending,
    /// normalize the score floor to zero, then cut the sorted collection
    /// into maximal runs of equal `min_score`, in ascending score order.
    ///
    /// Afterwards the flat list is drained; the levels carry exactly the
    /// input collection (with its scores shifted down by the old floor),
    /// every level is uniform at its recorded score, the level scores are
    /// strictly increasing, and the lowest level sits at score zero.
    pub fn build_levels(&mut self)
        requires
            old(self).questions@.len() > 0,
            old(self).question_levels@.len() == 0,
            all_wf(qviews(old(self).questions@)),
            spread_fits(qviews(old(self).questions@)),
        ensures
            final(self).questions@.len() == 0,
            lviews(final(self).question_levels@).len() > 0,
            forall|i: int|
                0 <= i < lviews(final(self).question_levels@).len() ==> (#[trigger] lviews(
                    final(self).question_levels@,
                )[i]).wf(),
            forall|i: int, j: int|
                0 <= i < j < lviews(final(self).question_levels@).len() ==> lviews(
                    final(self).question_levels@,
                )[i].score < lviews(final(self).question_levels@)[j].score,
            lviews(final(self).question_levels@)[0].score == 0,
            levels_flat(lviews(final(self).question_levels@)).to_multiset() == qviews(
                old(self).questions@,
            ).map_values(
                |v: QuestionView| v.decreased(min_over(qviews(old(self).questions@))),
            ).to_multiset(),
            final(self).altered_questions == old(self).altered_questions,
            final(self).number_of_wrongs == old(self).number_of_wrongs,
    {
        let ghost orig = qviews(old(self).questions@);
        self.shuffle_questions();
        proof {
            lemma_props_multiset(orig, qviews(self.questions@));
        }
        self.sort_by_scores(Order::Ascending);
        let ghost sorted_vs = qviews(self.questions@);
        proof {
            lemma_props_multiset(orig, sorted_vs);
            lemma_min_over_multiset(orig, sorted_vs);
        }
        self.even_out_scores();
        let ghost m = min_over(orig);
        let ghost evened = qviews(self.questions@);
        proof {
            assert(evened == sorted_vs.map_values(|v: QuestionView| v.decreased(m)));
            lemma_sorted_decreased(Order::Ascending, sorted_vs, m);
            lemma_all_wf_decreased(sorted_vs, m);
            lemma_min_over_decreased(sorted_vs, m);
            lemma_map_values_multiset(sorted_vs, orig, |v: QuestionView| v.decreased(m));
            // the floor of the evened collection is zero, and it is the first member
            lemma_min_over_is_min(evened);
            let j = choose|j: int| 0 <= j < evened.len() && min_over(evened) == evened[j].min_score();
            if j > 0 {
                assert(score_le(Order::Ascending, evened[0].min_score(), evened[j].min_score()));
            }
            assert(evened[0].min_score() == 0);
        }
        while self.questions.len() > 0
            invariant
                all_wf(evened),
                sorted_by_score(Order::Ascending, evened),
                evened.len() > 0,
                evened[0].min_score() == 0,
                self.questions@.len() <= evened.len(),
                qviews(self.questions@) == evened.skip(
                    evened.len() - self.questions@.len(),
                ),
                levels_flat(lviews(self.question_levels@)) == evened.take(
                    evened.len() - self.questions@.len(),
                ),
                forall|i: int|
                    0 <= i < lviews(self.question_levels@).len() ==> (#[trigger] lviews(
                        self.question_levels@,
                    )[i]).wf(),
                forall|i: int, j: int|
                    0 <= i < j < lviews(self.question_levels@).len() ==> lviews(
                        self.question_levels@,
                    )[i].score < lviews(self.question_levels@)[j].score,
                lviews(self.question_levels@).len() == 0 ==> self.questions@.len()
                    == evened.len(),
                lviews(self.question_levels@).len() > 0 && self.questions@.len() > 0
                    ==> lviews(self.question_levels@).last().score < evened[
                    evened.len() - self.questions@.len()
                ].min_score(),
                lviews(self.question_levels@).len() > 0 ==> lviews(
                    self.question_levels@,
                )[0].score == 0,
                self.altered_questions == old(self).altered_questions,
                self.number_of_wrongs == old(self).number_of_wrongs,
            decreases self.questions@.len(),
        {
            let ghost c0 = evened.len() - self.questions@.len();
            proof {
                assert forall|j: int| 0 <= j < self.questions@.len() implies (
                #[trigger] self.questions@[j])@.wf() by {
                    assert(self.questions@[j]@ == qviews(self.questions@)[j]);
                    assert(qviews(self.questions@)[j] == evened[c0 + j]);
                    assert(evened.contains(evened[c0 + j]));
                }
                assert(self.questions@[0]@ == qviews(self.questions@)[0]);
                assert(qviews(self.questions@)[0] == evened[c0]);
            }
            let lowest = self.questions[0].min_score();
            let ghost levels_snap = self.question_levels@;
            let mut level_questions: Vec<Question> = Vec::new();
            while self.questions.len() > 0 && self.questions[0].min_score() == lowest
                invariant
                    all_wf(evened),
                    sorted_by_score(Order::Ascending, evened),
                    c0 == evened.len() as int - self.questions@.len() - level_questions@.len(),
                    0 <= c0 <= c0 + level_questions@.len() <= evened.len(),
                    lowest as int == evened[c0].min_score(),
                    qviews(self.questions@) == evened.skip(
                        evened.len() - self.questions@.len(),
                    ),
                    qviews(level_questions@) == evened.subrange(
                        c0,
                        c0 + level_questions@.len(),
                    ),
                    forall|j: int|
                        0 <= j < self.questions@.len() ==> (#[trigger] self.questions@[j])@.wf(),
                    forall|j: int|
                        c0 <= j < c0 + level_questions@.len() ==> (#[trigger] evened[j]).min_score()
                            == lowest as int,
                    self.question_levels@ == levels_snap,
                    self.altered_questions == old(self).altered_questions,
                    self.number_of_wrongs == old(self).number_of_wrongs,
                decreases self.questions@.len(),
            {
                let ghost c = evened.len() - self.questions@.len();
                let ghost prev = self.questions@;
                let ghost lq_prev = level_questions@;
                proof {
                    assert(qviews(self.questions@)[0] == evened[c]);
                    assert(prev[0]@ == evened[c]);
                    assert(evened.contains(evened[c]));
                }
                let q = self.questions.remove(0);
                level_questions.push(q);
                proof {
                    assert(self.questions@ == prev.remove(0));
                    assert forall|j: int| 0 <= j < self.questions@.len() implies (
                    #[trigger] qviews(self.questions@)[j]) == evened[c + 1 + j] by {
                        assert(self.questions@[j] == prev[j + 1]);
                        assert(qviews(prev)[j + 1] == evened.skip(c)[j + 1]);
                    }
                    assert(qviews(self.questions@) =~= evened.skip(c + 1));
                    assert forall|j: int| 0 <= j < self.questions@.len() implies (
                    #[trigger] self.questions@[j])@.wf() by {
                        assert(self.questions@[j]@ == qviews(self.questions@)[j]);
                        assert(qviews(self.questions@)[j] == evened[c + 1 + j]);
                        assert(evened.contains(evened[c + 1 + j]));
                    }
                    assert forall|j: int| 0 <= j < level_questions@.len() implies (
                    #[trigger] qviews(level_questions@)[j]) == evened.subrange(c0, c + 1)[j] by {
                        if j < lq_prev.len() {
                            assert(level_questions@[j] == lq_prev[j]);
                            assert(qviews(lq_prev)[j] == evened.subrange(c0, c)[j]);
                        } else {
                            assert(level_questions@[j] == q);
                            assert(q@ == evened[c]);
                        }
                    }
                    assert(qviews(level_questions@) =~= evened.subrange(c0, c + 1));
                }
            }
            proof {
                assert(level_questions@.len() > 0);
                assert forall|i: int| 0 <= i < level_questions@.len() implies (
                #[trigger] level_questions@[i])@.wf() by {
                    assert(qviews(level_questions@)[i] == evened[c0 + i]);
                    assert(evened.contains(evened[c0 + i]));
                }
                assert forall|i: int| 0 <= i < level_questions@.len() implies (
                #[trigger] level_questions@[i])@.min_score() == level_questions@[0]@.min_score() by {
                    assert(qviews(level_questions@)[i] == evened[c0 + i]);
                    assert(qviews(level_questions@)[0] == evened[c0]);
                }
            }
            let level = QuestionLevel::new(level_questions);
            let ghost before_levels = lviews(self.question_levels@);
            self.question_levels.push(level);
            proof {
                assert(lviews(self.question_levels@) =~= before_levels.push(level@));
                assert(lviews(self.question_levels@).drop_last() =~= before_levels);
                assert(levels_flat(lviews(self.question_levels@)) == levels_flat(before_levels)
                    + level@.questions);
                let c1 = evened.len() - self.questions@.len();
                assert(level@.questions =~= evened.subrange(c0, c1));
                assert(evened.take(c0) + evened.subrange(c0, c1) =~= evened.take(c1));
                // level score sits at the run value
                assert(level@.score == evened[c0].min_score());
                // ordering versus earlier levels and the rest
                if before_levels.len() > 0 {
                    assert(before_levels.last().score < evened[c0].min_score());
                    assert forall|i: int, j: int|
                        0 <= i < j < lviews(self.question_levels@).len() implies lviews(
                        self.question_levels@,
                    )[i].score < lviews(self.question_levels@)[j].score by {
                        if j < before_levels.len() {
                        } else {
                            assert(lviews(self.question_levels@)[j] == level@);
                            if i < before_levels.len() - 1 {
                                assert(before_levels[i].score < before_levels[
                                    before_levels.len() - 1
                                ].score);
                            }
                        }
                    }
                } else {
                    assert(c0 == 0);
                    assert(level@.score == 0);
                }
                if self.questions@.len() > 0 {
                    assert(qviews(self.questions@)[0] == evened[c1]);
                    assert(evened[c1].min_score() != lowest as int);
                    assert(score_le(Order::Ascending, evened[c0].min_score(), evened[c1].min_score()));
                }
            }
        }
        proof {
            assert(levels_flat(lviews(self.question_levels@)) =~= evened);
        }
    }
}

// ---------------------------------------------------------------------------
// Flattening, saving, selecting
// ---------------------------------------------------------------------------

impl QuestionRoster {
    /// Rebuild the flat collection from the levels plus the side-tracked
    /// altered questions, then sort it ascending. The levels themselves are
    /// left as they are; the flat list becomes the authoritative view again.
    pub fn destruct_levels(&mut self)
        requires
            all_wf(levels_flat(lviews(old(self).question_levels@))),
            all_wf(qviews(old(self).altered_questions@)),
        ensures
            qviews(final(self).questions@).to_multiset() == (levels_flat(
                lviews(old(self).question_levels@),
            ) + qviews(old(self).altered_questions@)).to_multiset(),
            sorted_by_score(Order::Ascending, qviews(final(self).questions@)),
            all_wf(qviews(final(self).questions@)),
            final(self).questions@.len() == levels_flat(
                lviews(old(self).question_levels@),
            ).len() + old(self).altered_questions@.len(),
            final(self).question_levels == old(self).question_levels,
            final(self).altered_questions == old(self).altered_questions,
            final(self).number_of_wrongs == old(self).number_of_wrongs,
    {
        self.questions.clear();
        let ghost flat = levels_flat(lviews(self.question_levels@));
        let mut li: usize = 0;
        while li < self.question_levels.len()
            invariant
                li <= self.question_levels@.len(),
                flat == levels_flat(lviews(self.question_levels@)),
                qviews(self.questions@) == levels_flat(
                    lviews(self.question_levels@).take(li as int),
                ),
                self.question_levels == old(self).question_levels,
                self.altered_questions == old(self).altered_questions,
                self.number_of_wrongs == old(self).number_of_wrongs,
            decreases self.question_levels@.len() - li,
        {
            let ghost lvs = lviews(self.question_levels@);
            let ghost outer_done = qviews(self.questions@);
            let mut qi: usize = 0;
            while qi < self.question_levels[li].questions.len()
                invariant
                    li < lvs.len(),
                    lvs == lviews(self.question_levels@),
                    li < self.question_levels@.len(),
                    lvs[li as int].questions.len() == self.question_levels@[
                        li as int
                    ].questions@.len(),
                    qi <= lvs[li as int].questions.len(),
                    outer_done == levels_flat(lvs.take(li as int)),
                    qviews(self.questions@) == outer_done + lvs[li as int].questions.take(
                        qi as int,
                    ),
                    self.question_levels == old(self).question_levels,
                    self.altered_questions == old(self).altered_questions,
                    self.number_of_wrongs == old(self).number_of_wrongs,
                decreases self.question_levels@[li as int].questions@.len() - qi,
            {
                let ghost before = qviews(self.questions@);
                let q = self.question_levels[li].questions[qi].clone();
                proof {
                    assert(q@ == self.question_levels@[li as int].questions@[qi as int]@);
                    assert(lvs[li as int].questions[qi as int] == self.question_levels@[
                        li as int
                    ].questions@[qi as int]@);
                }
                self.questions.push(q);
                proof {
                    assert(qviews(self.questions@) =~= before.push(
                        lvs[li as int].questions[qi as int],
                    ));
                    assert(lvs[li as int].questions.take(qi + 1) =~= lvs[
                        li as int
                    ].questions.take(qi as int).push(lvs[li as int].questions[qi as int]));
                    assert(qviews(self.questions@) =~= outer_done + lvs[
                        li as int
                    ].questions.take(qi + 1));
                }
                qi += 1;
            }
            proof {
                assert(lvs[li as int].questions.take(lvs[li as int].questions.len() as int)
                    =~= lvs[li as int].questions);
                assert(lvs.take(li + 1).drop_last() =~= lvs.take(li as int));
                assert(lvs.take(li + 1).last() == lvs[li as int]);
                assert(levels_flat(lvs.take(li + 1)) == levels_flat(lvs.take(li as int)) + lvs[
                    li as int
                ].questions);
            }
            li += 1;
        }
        proof {
            assert(lviews(self.question_levels@).take(
                lviews(self.question_levels@).len() as int,
            ) =~= lviews(self.question_levels@));
        }
        let ghost avs = qviews(self.altered_questions@);
        let mut ai: usize = 0;
        while ai < self.altered_questions.len()
            invariant
                ai <= self.altered_questions@.len(),
                avs == qviews(self.altered_questions@),
                avs.len() == self.altered_questions@.len(),
                flat == levels_flat(lviews(self.question_levels@)),
                qviews(self.questions@) == flat + avs.take(ai as int),
                self.question_levels == old(self).question_levels,
                self.altered_questions == old(self).altered_questions,
                self.number_of_wrongs == old(self).number_of_wrongs,
            decreases self.altered_questions@.len() - ai,
        {
            let ghost before = qviews(self.questions@);
            let q = self.altered_questions[ai].clone();
            proof {
                assert(q@ == avs[ai as int]);
            }
            self.questions.push(q);
            proof {
                assert(qviews(self.questions@) =~= before.push(avs[ai as int]));
                assert(avs.take(ai + 1) =~= avs.take(ai as int).push(avs[ai as int]));
            }
            ai += 1;
        }
        proof {
            assert(avs.take(avs.len() as int) =~= avs);
            assert(qviews(self.questions@) == flat + avs);
            lemma_all_wf_concat(flat, avs);
        }
        self.sort_by_scores(Order::Ascending);
    }

    /// Flatten the levels and the altered questions back into one flat
    /// collection, sort it ascending, normalize the score floor back to
    /// zero, and hand back the records for the persistence writer, in that
    /// ascending order.
    pub fn save(&mut self) -> (r: Vec<QuestionRecord>)
        requires
            levels_flat(lviews(old(self).question_levels@)).len() + old(self).altered_questions@.len() > 0,
            all_wf(levels_flat(lviews(old(self).question_levels@))),
            all_wf(qviews(old(self).altered_questions@)),
            spread_fits(
                levels_flat(lviews(old(self).question_levels@)) + qviews(
                    old(self).altered_questions@,
                ),
            ),
        ensures
            sorted_by_score(Order::Ascending, qviews(final(self).questions@)),
            qviews(final(self).questions@).to_multiset() == (levels_flat(
                lviews(old(self).question_levels@),
            ) + qviews(old(self).altered_questions@)).map_values(
                |v: QuestionView|
                    v.decreased(
                        min_over(
                            levels_flat(lviews(old(self).question_levels@)) + qviews(
                                old(self).altered_questions@,
                            ),
                        ),
                    ),
            ).to_multiset(),
            min_over(qviews(final(self).questions@)) == 0,
            r@.map_values(|x: QuestionRecord| x@) == qviews(final(self).questions@).map_values(
                |v: QuestionView| v.to_record(),
            ),
            final(self).question_levels == old(self).question_levels,
            final(self).altered_questions == old(self).altered_questions,
            final(self).number_of_wrongs == old(self).number_of_wrongs,
    {
        let ghost target = levels_flat(lviews(old(self).question_levels@)) + qviews(
            old(self).altered_questions@,
        );
        proof {
            assert(target.len() > 0);
        }
        self.destruct_levels();
        proof {
            lemma_props_multiset(target, qviews(self.questions@));
        }
        self.sort_by_scores(Order::Ascending);
        let ghost mid = qviews(self.questions@);
        proof {
            lemma_props_multiset(target, mid);
            lemma_min_over_multiset(target, mid);
        }
        self.even_out_scores();
        proof {
            let m = min_over(target);
            assert(min_over(mid) == m);
            assert(qviews(self.questions@) == mid.map_values(
                |v: QuestionView| v.decreased(m),
            ));
            lemma_sorted_decreased(Order::Ascending, mid, m);
            lemma_min_over_decreased(mid, m);
            lemma_map_values_multiset(mid, target, |v: QuestionView| v.decreased(m));
        }
        crate::record::questions_to_records(&self.questions)
    }

    /// The drill selector: pick the first (lowest-score) level with at least
    /// `MINIMUM_QUESTION_COUNT` members. When no level is that big, fall
    /// back to the lowest level and say so (the second component); drilling
    /// proceeds with the small level rather than refusing.
    pub fn select_drill_level(&self) -> (r: (usize, bool))
        requires
            self.question_levels@.len() > 0,
        ensures
            r.0 < self.question_levels@.len(),
            !r.1 ==> lviews(self.question_levels@)[r.0 as int].questions.len()
                >= MINIMUM_QUESTION_COUNT && forall|j: int|
                0 <= j < r.0 ==> (#[trigger] lviews(self.question_levels@)[j]).questions.len()
                    < MINIMUM_QUESTION_COUNT,
            r.1 ==> r.0 == 0 && forall|j: int|
                0 <= j < self.question_levels@.len() ==> (#[trigger] lviews(
                    self.question_levels@,
                )[j]).questions.len() < MINIMUM_QUESTION_COUNT,
    {
        let mut i: usize = 0;
        while i < self.question_levels.len()
            invariant
                i <= self.question_levels@.len(),
                forall|j: int|
                    0 <= j < i ==> (#[trigger] lviews(self.question_levels@)[j]).questions.len()
                        < MINIMUM_QUESTION_COUNT,
            decreases self.question_levels@.len() - i,
        {
            if self.question_levels[i].questions.len() >= MINIMUM_QUESTION_COUNT {
                return (i, false);
            }
            i += 1;
        }
        (0, true)
    }

    /// Write one question's post-drill state back into its level slot. The
    /// level's cached count and score key stay as they are: levels are
    /// ephemeral and rebuilt from the flat list each session.
    pub fn set_level_question(&mut self, level_index: usize, question_index: usize, q: Question)
        requires
            level_index < old(self).question_levels@.len(),
            question_index < old(self).question_levels@[level_index as int].questions@.len(),
        ensures
            final(self).question_levels@.len() == old(self).question_levels@.len(),
            forall|i: int|
                0 <= i < old(self).question_levels@.len() && i != level_index ==> final(self).question_levels@[i] == old(self).question_levels@[i],
            final(self).question_levels@[level_index as int].questions@ == old(self).question_levels@[level_index as int].questions@.update(question_index as int, q),
            final(self).question_levels@[level_index as int].length == old(self).question_levels@[level_index as int].length,
            final(self).question_levels@[level_index as int].score == old(self).question_levels@[level_index as int].score,
            final(self).questions == old(self).questions,
            final(self).altered_questions == old(self).altered_questions,
            final(self).number_of_wrongs == old(self).number_of_wrongs,
    {
        let level = &mut self.question_levels[level_index];
        let slot = &mut level.questions[question_index];
        *slot = q;
    }
}

} // verus!
