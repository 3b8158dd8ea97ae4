use vstd::prelude::*;

use crate::dictionary::Dictionary;
use crate::word::{word_of, Word};

verus! {

/// Where a game stands.
#[derive(Clone, Copy, PartialEq, Eq, Structural, Debug)]
pub enum Phase {
    Playing,
    Won,
    Lost,
}

/// One key of input.
#[derive(Clone, Copy, PartialEq, Eq, Structural, Debug)]
pub enum Input {
    Character(char),
    Enter,
    Backspace,
}

/// What went wrong with the last input, if anything.
#[derive(Clone, Copy, PartialEq, Eq, Structural, Debug)]
pub enum Error {
    NoError,
    InvalidGuess,
}

/// The number of guesses that a game allows.
pub const MAX_GUESSES: usize = 6;

/// The guess being typed: at most five characters.
#[derive(Debug)]
pub struct Guess {
    chars: Vec<char>,
}

impl View for Guess {
    type V = Seq<char>;

    closed spec fn view(&self) -> Seq<char> {
        self.chars@
    }
}

/// The characters typed after `c` is typed: it is added while fewer than five are there.
pub open spec fn typed(chars: Seq<char>, c: char) -> Seq<char> {
    if chars.len() < 5 {
        chars.push(c)
    } else {
        chars
    }
}

/// The characters typed after one is erased: the last goes, if there is one.
pub open spec fn erased(chars: Seq<char>) -> Seq<char> {
    if chars.len() > 0 {
        chars.drop_last()
    } else {
        chars
    }
}

impl Guess {
    #[verifier::type_invariant]
    spec fn inv(self) -> bool {
        self.chars@.len() <= 5
    }

    /// Nothing typed yet.
    pub fn new() -> (r: Guess)
        ensures
            r@ == Seq::<char>::empty(),
    {
        Guess { chars: Vec::new() }
    }

    /// Erases everything typed.
    pub fn clear(&mut self)
        ensures
            final(self)@ == Seq::<char>::empty(),
    {
        self.chars = Vec::new();
    }

    /// Whether five characters are typed.
    pub fn complete(&self) -> (r: bool)
        ensures
            r == (self@.len() == 5),
            self@.len() <= 5,
    {
        proof {
            use_type_invariant(self);
        }
        self.chars.len() == 5
    }

    /// Whether the word typed is in either dictionary.
    pub fn valid(&self, words: &Dictionary, guesses: &Dictionary) -> (r: bool)
        ensures
            r == (words@.contains(word_of(self@)) || guesses@.contains(word_of(self@))),
    {
        let word = self.to_word();
        words.contains(word) || guesses.contains(word)
    }

    /// Types `c`, unless five characters are there already.
    pub fn put(&mut self, c: char)
        ensures
            final(self)@ == typed(old(self)@, c),
    {
        proof {
            use_type_invariant(&*self);
        }
        if self.chars.len() < 5 {
            let mut chars: Vec<char> = Vec::new();
            std::mem::swap(&mut chars, &mut self.chars);
            chars.push(c);
            self.chars = chars;
        }
    }

    /// Erases the last character typed, if any.
    pub fn erase(&mut self)
        ensures
            final(self)@ == erased(old(self)@),
    {
        proof {
            use_type_invariant(&*self);
        }
        let mut chars: Vec<char> = Vec::new();
        std::mem::swap(&mut chars, &mut self.chars);
        chars.pop();
        self.chars = chars;
    }

    /// The characters typed, never more than five.
    pub fn iter(&self) -> (r: &Vec<char>)
        ensures
            r@ == self@,
            r@.len() <= 5,
    {
        proof {
            use_type_invariant(self);
        }
        &self.chars
    }

    /// The word of the characters typed, blank after the last.
    pub fn to_word(&self) -> (r: Word)
        ensures
            r@ == word_of(self@),
    {
        proof {
            use_type_invariant(self);
        }
        let mut word = Word::empty();
        let mut i: usize = 0;
        while i < self.chars.len()
            invariant
                self.chars@.len() <= 5,
                i <= self.chars@.len(),
                forall|k: int|
                    0 <= k < 5 ==> #[trigger] word@[k] == if k < i {
                        word_of(self@)[k]
                    } else {
                        ' '
                    },
            decreases self.chars@.len() - i,
        {
            proof {
                word.lemma_view();
            }
            word.set(i, self.chars[i]);
            i = i + 1;
        }
        proof {
            word.lemma_view();
        }
        assert(word@ =~= word_of(self@));
        word
    }
}

impl Clone for Guess {
    fn clone(&self) -> Guess {
        proof {
            use_type_invariant(self);
        }
        Guess { chars: self.chars.clone() }
    }
}

/// One game: the hidden answer, the guesses made, and the guess being typed.
#[derive(Clone, Debug)]
pub struct GameState {
    pub phase: Phase,
    pub answer: Word,
    pub guess: Guess,
    pub guesses: Vec<Word>,
    pub error: Error,
}

impl GameState {
    /// A game that has just begun on `answer`.
    pub open spec fn is_new(self, answer: Seq<char>) -> bool {
        &&& self.answer@ == answer
        &&& self.phase == Phase::Playing
        &&& self.error == Error::NoError
        &&& self.guesses@.len() == 0
        &&& self.guess@.len() == 0
    }

    /// `self` is `prev` after Enter, with `words` and `extra` the dictionaries of valid guesses:
    /// a guess of other than five characters changes nothing; a complete one that is in neither dictionary is
    /// refused; any other is added to the guesses, and the game is won when it is the answer,
    /// and lost when it was the last guess allowed.
    pub open spec fn after_enter(
        self,
        prev: GameState,
        words: Set<Seq<char>>,
        extra: Set<Seq<char>>,
    ) -> bool {
        let w = word_of(prev.guess@);
        &&& self.answer == prev.answer
        &&& if prev.guess@.len() != 5 {
            &&& self.guess@ == prev.guess@
            &&& self.guesses@ == prev.guesses@
            &&& self.phase == prev.phase
            &&& self.error == Error::NoError
        } else if !(words.contains(w) || extra.contains(w)) {
            &&& self.guess@ == prev.guess@
            &&& self.guesses@ == prev.guesses@
            &&& self.phase == prev.phase
            &&& self.error == Error::InvalidGuess
        } else {
            &&& self.guess@ == Seq::<char>::empty()
            &&& self.guesses@.len() == prev.guesses@.len() + 1
            &&& self.guesses@.drop_last() == prev.guesses@
            &&& self.guesses@.last()@ == w
            &&& self.phase == if w == prev.answer@ {
                Phase::Won
            } else if self.guesses@.len() == MAX_GUESSES {
                Phase::Lost
            } else {
                Phase::Playing
            }
            &&& self.error == Error::NoError
        }
    }

    fn with_answer(answer: Word) -> (r: GameState)
        ensures
            r.is_new(answer@),
    {
        GameState {
            answer,
            phase: Phase::Playing,
            error: Error::NoError,
            guesses: Vec::new(),
            guess: Guess::new(),
        }
    }

    /// A game on `answer`, which is five bytes long.
    pub fn new(answer: &str) -> (r: GameState)
        requires
            answer.len() == 5,
        ensures
            r.is_new(word_of(answer@)),
    {
        Self::with_answer(Word::new(answer))
    }

    /// A game on a word of `words`, drawn at random.
    pub fn new_random(words: &Dictionary) -> (r: GameState)
        requires
            exists|w: Seq<char>| words@.contains(w),
        ensures
            words@.contains(r.answer@),
            r.is_new(r.answer@),
    {
        Self::with_answer(words.random())
    }

    /// Takes one key of input, with `words` and `guesses` the dictionaries of valid guesses.
    /// A game that is over ignores input; otherwise the error is cleared, a character is typed,
    /// Backspace erases, and Enter submits the guess.
    pub fn input(&mut self, input: Input, words: &Dictionary, guesses: &Dictionary)
        ensures
            old(self).phase != Phase::Playing ==> *final(self) == *old(self),
            old(self).phase == Phase::Playing ==> match input {
                Input::Character(c) => {
                    &&& final(self).answer == old(self).answer
                    &&& final(self).guess@ == typed(old(self).guess@, c)
                    &&& final(self).guesses@ == old(self).guesses@
                    &&& final(self).phase == Phase::Playing
                    &&& final(self).error == Error::NoError
                },
                Input::Backspace => {
                    &&& final(self).answer == old(self).answer
                    &&& final(self).guess@ == erased(old(self).guess@)
                    &&& final(self).guesses@ == old(self).guesses@
                    &&& final(self).phase == Phase::Playing
                    &&& final(self).error == Error::NoError
                },
                Input::Enter => final(self).after_enter(*old(self), words@, guesses@),
            },
    {
        if self.phase != Phase::Playing {
            return;
        }
        self.error = Error::NoError;
        match input {
            Input::Character(c) => self.guess.put(c),
            Input::Backspace => self.guess.erase(),
            Input::Enter => self.submit(words, guesses),
        }
    }

    /// Whether every guess allowed has been made.
    pub fn full(&self) -> (r: bool)
        ensures
            r == (self.guesses@.len() == MAX_GUESSES),
    {
        self.guesses.len() == MAX_GUESSES
    }

    fn submit(&mut self, words: &Dictionary, guesses: &Dictionary)
        ensures
            old(self).phase != Phase::Playing ==> *final(self) == *old(self),
            old(self).phase == Phase::Playing && old(self).error == Error::NoError
                ==> final(self).after_enter(*old(self), words@, guesses@),
    {
        if self.phase != Phase::Playing {
            return;
        }
        if !self.guess.complete() {
            return;
        }
        if !self.guess.valid(words, guesses) {
            self.error = Error::InvalidGuess;
            return;
        }
        let guess = self.guess.to_word();
        self.guess.clear();
        self.guesses.push(guess);
        assert(self.guesses@.drop_last() == old(self).guesses@);
        if guess == self.answer {
            self.phase = Phase::Won;
        } else if self.full() {
            self.phase = Phase::Lost;
        }
    }
}

} // verus!
