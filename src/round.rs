//! One round as a state machine: guesses are taken until one scores all
//! Correct or the attempts run out.
use crate::game::{
    all_correct, is_valid_word, is_word, letters, score_of, AnsChecker, Guess,
    GuessResult, ScoreError, MAX_ATTEMPTS,
};
use vstd::prelude::*;

verus! {

/// Where a round stands.
#[derive(Copy, Clone, PartialEq, Eq, Debug, Structural)]
pub enum RoundState {
    /// Waiting for the next guess.
    AwaitingGuess,
    /// A guess scored all Correct.
    Won,
    /// `MAX_ATTEMPTS` guesses were scored and none was all Correct.
    Lost,
}

/// Why a guess was not taken. No such guess uses up an attempt.
#[derive(Copy, Clone, PartialEq, Eq, Debug, Structural)]
pub enum GuessError {
    /// The guess is not exactly `WORD_LENGTH` letters.
    MalformedInput,
    /// Difficult mode is on and the guess drops what the last guess confirmed.
    IllegalGuess,
    /// The round is already won or lost.
    RoundOver,
}

/// The state that a history of scored guesses puts a round in.
pub open spec fn state_of(h: Seq<GuessResult>) -> RoundState {
    if h.len() > 0 && all_correct(h.last().status@) {
        RoundState::Won
    } else if h.len() >= MAX_ATTEMPTS {
        RoundState::Lost
    } else {
        RoundState::AwaitingGuess
    }
}

/// One round: a secret, the difficulty flag, and the guesses scored so far.
pub struct Round {
    checker: AnsChecker,
    guesses: Guess,
    difficult: bool,
}

impl Round {
    /// The secret word.
    pub closed spec fn secret(&self) -> Seq<char> {
        self.checker.answer()
    }

    /// The guesses scored so far, oldest first.
    pub closed spec fn history(&self) -> Seq<GuessResult> {
        self.guesses.history@
    }

    /// Whether difficult mode is on.
    pub closed spec fn is_difficult(&self) -> bool {
        self.difficult
    }

    /// The history is well formed, holds at most `MAX_ATTEMPTS` guesses, each
    /// scored against the secret, and none but the last is all Correct.
    pub closed spec fn wf(&self) -> bool {
        &&& self.checker.wf()
        &&& self.guesses.wf()
        &&& self.guesses.history@.len() <= MAX_ATTEMPTS
        &&& forall|i: int|
            0 <= i < self.guesses.history@.len() ==> (#[trigger] self.guesses.history@[i]).status@
                == score_of(letters(self.checker.answer()), letters(self.guesses.history@[i].content@))
        &&& forall|i: int|
            0 <= i < self.guesses.history@.len() - 1 ==> !all_correct(
                (#[trigger] self.guesses.history@[i]).status@,
            )
    }

    /// Why `guess` would be refused, if it would: the round is over, the guess is
    /// not a word, or difficult mode is on and the guess drops what the last guess
    /// confirmed, checked in that order.
    pub closed spec fn refusal(&self, guess: Seq<char>) -> Option<GuessError> {
        if self.spec_state() != RoundState::AwaitingGuess {
            Some(GuessError::RoundOver)
        } else if !is_word(guess) {
            Some(GuessError::MalformedInput)
        } else if !self.guesses.allows(self.difficult, guess) {
            Some(GuessError::IllegalGuess)
        } else {
            None
        }
    }

    /// The round's state.
    pub closed spec fn spec_state(&self) -> RoundState {
        state_of(self.guesses.history@)
    }

    /// A fresh round on `secret`; refused unless the secret is a word.
    pub fn new(secret: &str, difficult: bool) -> (r: Result<Self, ScoreError>)
        ensures
            r is Err <==> !is_word(secret@),
            r matches Ok(round) ==> {
                &&& round.wf()
                &&& round.secret() == secret@
                &&& round.history().len() == 0
                &&& round.is_difficult() == difficult
            },
    {
        if !is_valid_word(secret) {
            return Err(ScoreError::MalformedInput);
        }
        Ok(Round { checker: AnsChecker::new(secret), guesses: Guess::new(), difficult })
    }

    /// The guesses scored so far.
    pub fn guesses(&self) -> (r: &Guess)
        ensures
            r.history@ == self.history(),
            self.wf() ==> r.wf(),
    {
        &self.guesses
    }

    /// Number of guesses scored so far.
    pub fn attempts(&self) -> (r: usize)
        ensures
            r == self.history().len(),
    {
        self.guesses.history.len()
    }

    /// Where the round stands.
    pub fn state(&self) -> (r: RoundState)
        requires
            self.wf(),
        ensures
            r == self.spec_state(),
    {
        if self.guesses.is_won() {
            return RoundState::Won;
        }
        let len = self.guesses.history.len();
        if len >= MAX_ATTEMPTS {
            RoundState::Lost
        } else {
            RoundState::AwaitingGuess
        }
    }

    /// Takes one guess: refused if the round is over, if the guess is not a word,
    /// or if difficult mode is on and it drops what the last guess confirmed;
    /// otherwise scored against the secret and added, which uses up one attempt.
    /// Returns the state after it.
    pub fn submit(&mut self, guess: &str) -> (r: Result<RoundState, GuessError>)
        requires
            old(self).wf(),
        ensures
            final(self).wf(),
            final(self).secret() == old(self).secret(),
            final(self).is_difficult() == old(self).is_difficult(),
            r is Err <==> (old(self).refusal(guess@) is Some),
            r matches Err(e) ==> (old(self).refusal(guess@) == Some(e)),
            r is Err ==> final(self).history() == old(self).history(),
            r is Ok ==> ({
                &&& final(self).history().len() == old(self).history().len() + 1
                &&& final(self).history().drop_last() == old(self).history()
                &&& final(self).history().last().content@ == guess@
                &&& final(self).history().last().status@ == score_of(
                    letters(old(self).secret()),
                    letters(guess@),
                )
            }),
            r matches Ok(st) ==> st == final(self).spec_state(),
    {
        if self.state() != RoundState::AwaitingGuess {
            return Err(GuessError::RoundOver);
        }
        if !is_valid_word(guess) {
            return Err(GuessError::MalformedInput);
        }
        if !self.guesses.difficult_check(self.difficult, guess) {
            return Err(GuessError::IllegalGuess);
        }
        let ghost h0 = self.guesses.history@;
        self.guesses.append(guess);
        self.guesses.score_last(&self.checker);
        let ghost h1 = self.guesses.history@;
        assert(h1.drop_last() =~= h0);
        assert forall|i: int| 0 <= i < h1.len() - 1 implies !all_correct(
            (#[trigger] h1[i]).status@,
        ) by {
            assert(h1[i] == h0[i]);
        }
        assert forall|i: int| 0 <= i < h1.len() implies (#[trigger] h1[i]).status@ == score_of(
            letters(self.checker.answer()),
            letters(h1[i].content@),
        ) by {
            if i < h1.len() - 1 {
                assert(h1[i] == h0[i]);
            }
        }
        Ok(self.state())
    }
}

/// A round is won exactly when one of its guesses, at most `MAX_ATTEMPTS` of
/// them, scored all Correct; it is lost exactly when `MAX_ATTEMPTS` guesses were
/// scored and none was all Correct. A won round ends on its winning guess.
pub proof fn lemma_round_outcome(r: Round)
    requires
        r.wf(),
    ensures
        r.history().len() <= MAX_ATTEMPTS,
        r.spec_state() == RoundState::Won <==> (exists|i: int|
            0 <= i < r.history().len() && all_correct(#[trigger] r.history()[i].status@)),
        r.spec_state() == RoundState::Won ==> all_correct(r.history().last().status@),
        r.spec_state() == RoundState::Lost <==> (r.history().len() == MAX_ATTEMPTS && forall|i: int|
            0 <= i < r.history().len() ==> !all_correct(#[trigger] r.history()[i].status@)),
{
    let h = r.history();
    if h.len() > 0 && all_correct(h.last().status@) {
        assert(all_correct(h[h.len() - 1].status@));
    }
}

} // verus!
