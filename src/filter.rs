use vstd::prelude::*;

use crate::charset::{is_letter, letter_set, letters, letters_of, Charset};
use crate::word::{blank, is_slot_char, Word};

verus! {

/// Whether each character of `w` is allowed at its position by `space`.
pub open spec fn admits(space: Seq<Set<char>>, w: Seq<char>) -> bool {
    forall|i: int| 0 <= i < 5 ==> #[trigger] space[i].contains(w[i])
}

/// The letters still allowed at each of the five positions.
#[derive(Clone, Copy, Debug)]
pub struct WordSpace(pub [Charset; 5]);

impl View for WordSpace {
    type V = Seq<Set<char>>;

    open spec fn view(&self) -> Seq<Set<char>> {
        Seq::new(5, |i: int| self.0[i]@)
    }
}

impl WordSpace {
    /// The space allows letters only.
    pub proof fn lemma_letters(self)
        ensures
            forall|i: int| 0 <= i < 5 ==> (#[trigger] self@[i]).subset_of(letters()),
    {
        self.0[0].lemma_letters();
        self.0[1].lemma_letters();
        self.0[2].lemma_letters();
        self.0[3].lemma_letters();
        self.0[4].lemma_letters();
    }

    /// Every letter allowed at every position.
    pub fn new() -> (r: WordSpace)
        ensures
            r@ == Seq::new(5, |i: int| letters()),
    {
        let all = Charset::all();
        let r = WordSpace([all, all, all, all, all]);
        assert(r@ =~= Seq::new(5, |i: int| letters()));
        r
    }

    /// No longer allows `c` at position `i`.
    pub fn exclude(&mut self, i: usize, c: char)
        requires
            i < 5,
        ensures
            final(self)@ == old(self)@.update(i as int, old(self)@[i as int].remove(c)),
    {
        let mut set = self.0[i];
        set.exclude(c);
        self.0[i] = set;
        assert(self@ =~= old(self)@.update(i as int, old(self)@[i as int].remove(c)));
    }

    /// Allows `c` alone at position `i`, or nothing there where `c` is not a letter.
    pub fn only(&mut self, i: usize, c: char)
        requires
            i < 5,
        ensures
            final(self)@ == old(self)@.update(i as int, letter_set(c)),
    {
        let mut set = Charset::none();
        let single = set.insert(c);
        assert(single@ =~= letter_set(c));
        self.0[i] = single;
        assert(self@ =~= old(self)@.update(i as int, letter_set(c)));
    }

    /// Whether every character of `word` is allowed at its position.
    pub fn matches(&self, word: Word) -> (r: bool)
        ensures
            r == admits(self@, word@),
    {
        let mut i: usize = 0;
        while i < 5
            invariant
                i <= 5,
                forall|j: int| 0 <= j < i ==> #[trigger] self@[j].contains(word@[j]),
            decreases 5 - i,
        {
            if !self.0[i].includes(word.at(i)) {
                assert(!self@[i as int].contains(word@[i as int]));
                return false;
            }
            i = i + 1;
        }
        true
    }
}

/// What one letter of a guess tells about the target.
#[derive(Clone, Copy, PartialEq, Eq, Structural, Debug)]
pub enum Feedback {
    /// The target has this letter at this position.
    Correct,
    /// The target has this letter, at another position.
    Present,
    /// The target does not have this letter.
    Absent,
}

/// The feedback for position `i` of `guess` against `target`. Only equality at `i` and whether
/// the target holds the letter at all count: a letter that the guess repeats more often than
/// the target holds it is found present at each of its positions. A blank is never present.
pub open spec fn feedback_of(guess: Seq<char>, target: Seq<char>, i: int) -> Feedback {
    if guess[i] == target[i] {
        Feedback::Correct
    } else if is_letter(guess[i]) && target.contains(guess[i]) {
        Feedback::Present
    } else {
        Feedback::Absent
    }
}

/// The feedback for position `i` of `guess` against `target`.
pub fn feedback(guess: Word, target: Word, i: usize) -> (r: Feedback)
    requires
        i < 5,
    ensures
        r == feedback_of(guess@, target@, i as int),
{
    proof {
        guess.lemma_view();
    }
    let c = guess.at(i);
    if c == target.at(i) {
        Feedback::Correct
    } else if target.contains(c) {
        Feedback::Present
    } else {
        Feedback::Absent
    }
}

/// The letters at the first `k` positions of `guess` whose feedback against `target` is absent.
pub open spec fn absent_letters(guess: Seq<char>, target: Seq<char>, k: int) -> Set<char> {
    Set::new(
        |c: char|
            is_letter(c) && exists|j: int|
                0 <= j < k && guess[j] == c && feedback_of(guess, target, j) == Feedback::Absent,
    )
}

/// The letters at the first `k` positions of `guess` whose feedback against `target` is correct
/// or present.
pub open spec fn found_letters(guess: Seq<char>, target: Seq<char>, k: int) -> Set<char> {
    Set::new(
        |c: char|
            is_letter(c) && exists|j: int|
                0 <= j < k && guess[j] == c && feedback_of(guess, target, j) != Feedback::Absent,
    )
}

/// Five letters, with no blank.
pub open spec fn is_full(w: Seq<char>) -> bool {
    &&& w.len() == 5
    &&& forall|i: int| 0 <= i < 5 ==> is_letter(#[trigger] w[i])
}

/// What is known of a hidden target word after the guesses applied so far.
#[derive(Clone, Copy, Debug)]
pub struct WordFilter {
    /// The hidden target.
    pub answer: Word,
    /// Letters that the target does not hold.
    pub rejected: Charset,
    /// Letters that the target holds somewhere.
    pub required: Charset,
    /// Letters still allowed at each position.
    pub space: WordSpace,
    /// At each position, the letter found correct there, else blank.
    pub correct: Word,
}

impl WordFilter {
    /// The hidden target.
    pub open spec fn target(self) -> Seq<char> {
        self.answer@
    }

    /// The letters still allowed at each position.
    pub open spec fn allowed(self) -> Seq<Set<char>> {
        self.space@
    }

    /// The filter holds only what is true of its target: each letter of the target is still
    /// allowed at its position, no letter of the target is rejected, every required letter is a
    /// letter of the target, and each letter found correct is the target's letter there and is
    /// required.
    pub open spec fn wf(self) -> bool {
        &&& forall|i: int|
            0 <= i < 5 && is_letter(self.target()[i]) ==> #[trigger] self.space@[i].contains(
                self.target()[i],
            )
        &&& self.rejected@.disjoint(letters_of(self.target()))
        &&& self.required@.subset_of(letters_of(self.target()))
        &&& forall|i: int|
            0 <= i < 5 && #[trigger] self.correct@[i] != blank() ==> self.correct@[i]
                == self.target()[i] && self.required@.contains(self.correct@[i])
    }

    /// Whether `w` agrees with everything known: it has no rejected letter, has every required
    /// letter, and each of its characters is allowed at its position.
    pub open spec fn accepts(self, w: Seq<char>) -> bool {
        &&& letters_of(w).disjoint(self.rejected@)
        &&& self.required@.subset_of(letters_of(w))
        &&& admits(self.space@, w)
    }

    /// `self` is what `prev` becomes once `guess` is applied: each position of the guess is
    /// classified by `feedback_of`; a correct letter fixes its position and is required, a
    /// present one is required and leaves its position, an absent one is rejected and leaves
    /// every position.
    pub open spec fn follows(self, prev: WordFilter, guess: Seq<char>) -> bool {
        let t = prev.target();
        &&& self.target() == t
        &&& self.rejected@ == prev.rejected@.union(absent_letters(guess, t, 5))
        &&& self.required@ == prev.required@.union(found_letters(guess, t, 5))
        &&& self.correct@ == Seq::new(
            5,
            |i: int|
                if feedback_of(guess, t, i) == Feedback::Correct {
                    guess[i]
                } else {
                    prev.correct@[i]
                },
        )
        &&& self.space@ == Seq::new(
            5,
            |i: int|
                if feedback_of(guess, t, i) == Feedback::Correct {
                    letter_set(guess[i])
                } else {
                    prev.space@[i].difference(set![guess[i]]).difference(
                        absent_letters(guess, t, 5),
                    )
                },
        )
    }

    /// Nothing is known yet of `answer`: no letter is rejected or required, every letter is
    /// allowed everywhere, and no position is found correct.
    pub open spec fn fresh(self, answer: Seq<char>) -> bool {
        &&& self.target() == answer
        &&& self.rejected@ == Set::<char>::empty()
        &&& self.required@ == Set::<char>::empty()
        &&& self.space@ == Seq::new(5, |i: int| letters())
        &&& self.correct@ == Seq::new(5, |i: int| blank())
    }

    /// A filter for `answer` that knows nothing yet.
    pub fn new(answer: Word) -> (r: WordFilter)
        ensures
            r.fresh(answer@),
            r.wf(),
            forall|w: Seq<char>| is_full(w) ==> r.accepts(w),
    {
        let r = WordFilter {
            answer,
            rejected: Charset::none(),
            required: Charset::none(),
            space: WordSpace::new(),
            correct: Word::empty(),
        };
        assert forall|w: Seq<char>| is_full(w) implies r.accepts(w) by {
            assert(letters_of(w).disjoint(r.rejected@));
            assert(r.required@.subset_of(letters_of(w)));
            assert forall|i: int| 0 <= i < 5 implies #[trigger] r.space@[i].contains(w[i]) by {
                assert(letters().contains(w[i]));
            }
        }
        r
    }

    /// Records what `guess` tells about the target.
    pub fn apply(&mut self, guess: Word)
        requires
            old(self).wf(),
        ensures
            final(self).follows(*old(self), guess@),
            final(self).wf(),
    {
        let ghost prev = *self;
        let ghost g = guess@;
        let ghost t = self.answer@;
        proof {
            guess.lemma_view();
            self.answer.lemma_view();
        }
        let mut i: usize = 0;
        while i < 5
            invariant
                i <= 5,
                g == guess@,
                t == prev.target(),
                self.answer@ == t,
                g.len() == 5,
                t.len() == 5,
                forall|j: int| 0 <= j < 5 ==> is_slot_char(#[trigger] g[j]),
                self.rejected@ == prev.rejected@.union(absent_letters(g, t, i as int)),
                self.required@ == prev.required@.union(found_letters(g, t, i as int)),
                forall|j: int|
                    0 <= j < 5 ==> #[trigger] self.correct@[j] == if j < i && feedback_of(g, t, j)
                        == Feedback::Correct {
                        g[j]
                    } else {
                        prev.correct@[j]
                    },
                forall|j: int|
                    0 <= j < 5 ==> #[trigger] self.space@[j] == if j < i && feedback_of(g, t, j)
                        == Feedback::Correct {
                        letter_set(g[j])
                    } else if j < i {
                        prev.space@[j].difference(set![g[j]]).difference(
                            absent_letters(g, t, i as int),
                        )
                    } else {
                        prev.space@[j].difference(absent_letters(g, t, i as int))
                    },
            decreases 5 - i,
        {
            let c = guess.at(i);
            let fb = feedback(guess, self.answer, i);
            let ghost before = *self;
            let ghost a0 = absent_letters(g, t, i as int);
            let ghost a1 = absent_letters(g, t, i + 1);
            let ghost f1 = found_letters(g, t, i + 1);
            match fb {
                Feedback::Correct => {
                    self.correct.set(i, c);
                    self.required.insert(c);
                    self.space.only(i, c);
                    proof {
                        assert(a1 =~= a0);
                        assert(f1 =~= found_letters(g, t, i as int).union(letter_set(c)));
                        assert(self.correct@ =~= before.correct@.update(i as int, c));
                    }
                },
                Feedback::Present => {
                    self.required.insert(c);
                    self.space.exclude(i, c);
                    proof {
                        assert(self.correct == before.correct);
                        assert(a1 =~= a0);
                        assert(f1 =~= found_letters(g, t, i as int).union(letter_set(c)));
                    }
                },
                Feedback::Absent => {
                    let mut j: usize = 0;
                    while j < 5
                        invariant
                            j <= 5,
                            i < 5,
                            self.correct == before.correct,
                            self.required == before.required,
                            self.rejected == before.rejected,
                            self.answer == before.answer,
                            forall|m: int|
                                0 <= m < 5 ==> #[trigger] self.space@[m] == if m < j {
                                    before.space@[m].remove(c)
                                } else {
                                    before.space@[m]
                                },
                        decreases 5 - j,
                    {
                        self.space.exclude(j, c);
                        j = j + 1;
                    }
                    self.rejected.insert(c);
                    proof {
                        assert(self.correct == before.correct);
                        assert(a1 =~= a0.union(letter_set(c)));
                        assert(f1 =~= found_letters(g, t, i as int));
                    }
                },
            }
            proof {
                assert forall|j: int|
                    0 <= j < 5 implies #[trigger] self.space@[j] == if j < i + 1 && feedback_of(
                        g,
                        t,
                        j,
                    ) == Feedback::Correct {
                        letter_set(g[j])
                    } else if j < i + 1 {
                        prev.space@[j].difference(set![g[j]]).difference(a1)
                    } else {
                        prev.space@[j].difference(a1)
                    } by {
                    if fb == Feedback::Absent && j < i && feedback_of(g, t, j)
                        == Feedback::Correct {
                        assert(t[j] == g[j]);
                        assert(t.contains(t[j]));
                        if g[j] == c {
                            assert(!is_letter(c));
                        }
                        assert(letter_set(g[j]).remove(c) =~= letter_set(g[j]));
                    }
                    before.space.lemma_letters();
                    if j == i as int && fb == Feedback::Absent {
                        assert(before.space@[j].remove(c) =~= prev.space@[j].difference(
                            set![g[j]],
                        ).difference(a1));
                    } else if j == i as int && fb == Feedback::Present {
                        assert(before.space@[j].remove(c) =~= prev.space@[j].difference(
                            set![g[j]],
                        ).difference(a1));
                    } else if fb == Feedback::Absent && !(j < i && feedback_of(g, t, j)
                        == Feedback::Correct) && j != i {
                        assert(a1 == a0.union(letter_set(c)));
                        assert(before.space@[j].subset_of(letters()));
                        if !is_letter(c) {
                            assert(!before.space@[j].contains(c));
                            assert(before.space@[j].remove(c) =~= before.space@[j]);
                            assert(a1 =~= a0);
                        }
                        if j < i {
                            assert(before.space@[j] == prev.space@[j].difference(
                                set![g[j]],
                            ).difference(a0));
                            assert(before.space@[j].remove(c) =~= prev.space@[j].difference(
                                set![g[j]],
                            ).difference(a1));
                        } else {
                            assert(before.space@[j] == prev.space@[j].difference(a0));
                            assert(before.space@[j].remove(c) =~= prev.space@[j].difference(a1));
                        }
                    }
                }
                assert forall|j: int| 0 <= j < 5 implies #[trigger] self.correct@[j] == if j < i
                    + 1 && feedback_of(g, t, j) == Feedback::Correct {
                    g[j]
                } else {
                    prev.correct@[j]
                } by {
                    before.correct.lemma_view();
                    if fb == Feedback::Correct {
                        assert(self.correct@ == before.correct@.update(i as int, c));
                    } else {
                        assert(self.correct@ == before.correct@);
                    }
                }
            }
            i = i + 1;
        }
        proof {
            let a = absent_letters(g, t, 5);
            let f = found_letters(g, t, 5);
            self.correct.lemma_view();
            assert(self.correct@ =~= Seq::new(
                5,
                |k: int|
                    if feedback_of(g, t, k) == Feedback::Correct {
                        g[k]
                    } else {
                        prev.correct@[k]
                    },
            ));
            assert(self.space@ =~= Seq::new(
                5,
                |k: int|
                    if feedback_of(g, t, k) == Feedback::Correct {
                        letter_set(g[k])
                    } else {
                        prev.space@[k].difference(set![g[k]]).difference(a)
                    },
            ));
            assert forall|k: int|
                0 <= k < 5 && is_letter(self.target()[k]) implies #[trigger] self.space@[k].contains(
                self.target()[k],
            ) by {
                if feedback_of(g, t, k) != Feedback::Correct {
                    assert(t.contains(t[k]));
                    assert(!a.contains(t[k]));
                }
            }
            assert forall|k: int|
                0 <= k < 5 && #[trigger] self.correct@[k] != blank() implies self.required@.contains(
                self.correct@[k],
            ) by {
                if feedback_of(g, t, k) == Feedback::Correct {
                    assert(f.contains(g[k]));
                }
            }
        }
    }

    /// A filter for `answer` with each of `guesses` applied in turn: it accepts the answer
    /// where that is five letters, and accepts none of the guesses of five letters that differ
    /// from the answer.
    pub fn from_guesses(answer: Word, guesses: &Vec<Word>) -> (r: WordFilter)
        ensures
            r.wf(),
            r.target() == answer@,
            is_full(answer@) ==> r.accepts(answer@),
            forall|k: int|
                0 <= k < guesses@.len() && is_full(#[trigger] guesses@[k]@) && guesses@[k]@
                    != answer@ ==> !r.accepts(guesses@[k]@),
    {
        let mut f = WordFilter::new(answer);
        let mut i: usize = 0;
        while i < guesses.len()
            invariant
                i <= guesses@.len(),
                f.wf(),
                f.target() == answer@,
                forall|k: int|
                    0 <= k < i && is_full(#[trigger] guesses@[k]@) && guesses@[k]@ != answer@
                        ==> !f.accepts(guesses@[k]@),
            decreases guesses@.len() - i,
        {
            let ghost before = f;
            let g = guesses[i];
            f.apply(g);
            proof {
                lemma_apply_narrows(before, f, g@);
                if is_full(g@) && g@ != answer@ {
                    lemma_wrong_guess_excluded(before, f, g@);
                }
            }
            i = i + 1;
        }
        proof {
            if is_full(answer@) {
                lemma_target_accepted(f);
            }
        }
        f
    }

    /// Whether `word` agrees with everything known.
    pub fn matches(&self, word: Word) -> (r: bool)
        ensures
            r == self.accepts(word@),
    {
        let wm = word.charset();
        if wm.contains_any(self.rejected) {
            return false;
        }
        if !wm.contains_all(self.required) {
            return false;
        }
        self.space.matches(word)
    }
}

/// Applying a guess to a filter only narrows it: no position comes to allow a letter that it
/// did not allow before, and every word that the filter accepts afterwards it accepted before.
pub proof fn lemma_apply_narrows(before: WordFilter, after: WordFilter, guess: Seq<char>)
    requires
        before.wf(),
        after.follows(before, guess),
    ensures
        forall|i: int| 0 <= i < 5 ==> (#[trigger] after.allowed()[i]).subset_of(before.allowed()[i]),
        forall|w: Seq<char>| #[trigger] after.accepts(w) ==> before.accepts(w),
{
    let t = before.target();
    assert forall|i: int| 0 <= i < 5 implies (#[trigger] after.space@[i]).subset_of(
        before.space@[i],
    ) by {
        if feedback_of(guess, t, i) == Feedback::Correct && is_letter(guess[i]) {
            assert(before.space@[i].contains(t[i]));
        }
    }
    assert forall|w: Seq<char>| #[trigger] after.accepts(w) implies before.accepts(w) by {
        assert forall|i: int| 0 <= i < 5 implies #[trigger] before.space@[i].contains(w[i]) by {
            assert(after.space@[i].contains(w[i]));
            assert(after.space@[i].subset_of(before.space@[i]));
        }
    }
}

/// A filter accepts its own target when that is five letters.
pub proof fn lemma_target_accepted(f: WordFilter)
    requires
        f.wf(),
        is_full(f.target()),
    ensures
        f.accepts(f.target()),
{
    let t = f.target();
    assert forall|i: int| 0 <= i < 5 implies #[trigger] f.space@[i].contains(t[i]) by {
        assert(is_letter(t[i]));
    }
}

/// Once a guess of five letters other than the target is applied, the filter no longer accepts
/// that guess.
pub proof fn lemma_wrong_guess_excluded(before: WordFilter, after: WordFilter, guess: Seq<char>)
    requires
        before.wf(),
        after.follows(before, guess),
        is_full(guess),
        guess != before.target(),
    ensures
        !after.accepts(guess),
{
    let t = before.target();
    before.answer.lemma_view();
    if forall|i: int| 0 <= i < 5 ==> guess[i] == t[i] {
        assert(guess =~= t);
    }
    let i = choose|i: int| 0 <= i < 5 && guess[i] != t[i];
    assert(is_letter(guess[i]));
    if t.contains(guess[i]) {
        assert(feedback_of(guess, t, i) == Feedback::Present);
        assert(!after.space@[i].contains(guess[i]));
    } else {
        assert(feedback_of(guess, t, i) == Feedback::Absent);
        assert(absent_letters(guess, t, 5).contains(guess[i]));
        assert(after.rejected@.contains(guess[i]));
        assert(letters_of(guess).contains(guess[i]));
    }
}

/// Two filters know the same of the same target.
pub open spec fn same_knowledge(a: WordFilter, b: WordFilter) -> bool {
    &&& a.target() == b.target()
    &&& a.rejected@ == b.rejected@
    &&& a.required@ == b.required@
    &&& a.space@ == b.space@
    &&& a.correct@ == b.correct@
}

/// Applying the same guess a second time changes nothing.
pub proof fn lemma_apply_idempotent(
    f0: WordFilter,
    f1: WordFilter,
    f2: WordFilter,
    guess: Seq<char>,
)
    requires
        f1.follows(f0, guess),
        f2.follows(f1, guess),
    ensures
        same_knowledge(f1, f2),
{
    let t = f0.target();
    let a = absent_letters(guess, t, 5);
    assert(f2.rejected@ =~= f1.rejected@);
    assert(f2.required@ =~= f1.required@);
    assert(f2.correct@ =~= f1.correct@);
    assert forall|i: int| 0 <= i < 5 implies #[trigger] f2.space@[i] == f1.space@[i] by {
        if feedback_of(guess, t, i) != Feedback::Correct {
            assert(f2.space@[i] =~= f1.space@[i]);
        }
    }
    assert(f2.space@ =~= f1.space@);
}

/// The order in which two guesses are applied does not matter.
pub proof fn lemma_apply_commutes(
    f0: WordFilter,
    fg: WordFilter,
    fgh: WordFilter,
    fh: WordFilter,
    fhg: WordFilter,
    g: Seq<char>,
    h: Seq<char>,
)
    requires
        fg.follows(f0, g),
        fgh.follows(fg, h),
        fh.follows(f0, h),
        fhg.follows(fh, g),
    ensures
        same_knowledge(fgh, fhg),
{
    let t = f0.target();
    let ag = absent_letters(g, t, 5);
    let ah = absent_letters(h, t, 5);
    f0.answer.lemma_view();
    assert(fgh.rejected@ =~= fhg.rejected@);
    assert(fgh.required@ =~= fhg.required@);
    assert forall|i: int| 0 <= i < 5 implies #[trigger] fgh.correct@[i] == fhg.correct@[i] by {}
    assert(fgh.correct@ =~= fhg.correct@);
    assert forall|i: int| 0 <= i < 5 implies #[trigger] fgh.space@[i] == fhg.space@[i] by {
        let cg = feedback_of(g, t, i) == Feedback::Correct;
        let ch = feedback_of(h, t, i) == Feedback::Correct;
        assert(t.contains(t[i]));
        if cg && !ch {
            assert(!ah.contains(g[i]));
            assert(fgh.space@[i] =~= letter_set(g[i]));
        } else if ch && !cg {
            assert(!ag.contains(h[i]));
            assert(fhg.space@[i] =~= letter_set(h[i]));
        } else if !cg && !ch {
            assert(fgh.space@[i] =~= fhg.space@[i]);
        }
    }
    assert(fgh.space@ =~= fhg.space@);
}

/// Once the target itself is applied, no other five-character word is accepted.
pub proof fn lemma_target_applied(before: WordFilter, after: WordFilter)
    requires
        is_full(before.target()),
        after.follows(before, before.target()),
    ensures
        forall|w: Seq<char>| w.len() == 5 && #[trigger] after.accepts(w) ==> w == before.target(),
{
    let t = before.target();
    assert forall|w: Seq<char>| w.len() == 5 && #[trigger] after.accepts(w) implies w
        == t by {
        assert forall|i: int| 0 <= i < 5 implies w[i] == t[i] by {
            assert(feedback_of(t, t, i) == Feedback::Correct);
            assert(after.space@[i].contains(w[i]));
            assert(is_letter(t[i]));
        }
        assert(w =~= t);
    }
}

} // verus!
