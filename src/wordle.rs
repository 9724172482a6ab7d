//! One run of the game: the decisions taken between reading input and
//! writing output.
use crate::args::{merged, with_defaults, Args, Config, DEFAULT_SEED};
use crate::game::Guess;
use crate::recorder::{
    saved_outcomes, saved_words, tally_words, upper_of, GameData, GameRecorder, RecordError,
};
use crate::words::{answer_for_day, is_listed, listed, prepare_word_lists, shuffled, WordListError};
use vstd::prelude::*;

verus! {

/// One run of the game: its options, its statistics and the rounds it keeps.
pub struct Wordle {
    pub is_tty: bool,
    pub args: Args,
    pub game_recorder: GameRecorder,
    pub game_data: GameData,
}

impl Wordle {
    pub open spec fn wf(&self) -> bool {
        self.game_recorder.wf()
    }

    /// A run with the given options and nothing recorded.
    pub fn new(is_tty: bool, args: Args) -> (r: Self)
        ensures
            r.wf(),
            r.is_tty == is_tty,
            r.args == args,
            r.game_recorder.games().len() == 0,
            r.game_recorder.tallies().len() == 0,
            r.game_data.total_rounds == 0,
            r.game_data.games@.len() == 0,
    {
        Wordle { is_tty, args, game_recorder: GameRecorder::new(), game_data: GameData::new() }
    }

    /// Takes in what was read at start: when past rounds are kept, the kept
    /// rounds (`saved`, if there were any) become this run's and are added to
    /// its statistics; then the options take what `config` gives and their
    /// defaults. When the kept rounds cannot be added, the statistics and
    /// options stay as they were.
    pub fn load_game(&mut self, saved: Option<GameData>, config: Option<Config>) -> (r: Result<
        (),
        RecordError,
    >)
        requires
            old(self).wf(),
        ensures
            final(self).wf(),
            final(self).is_tty == old(self).is_tty,
            final(self).game_data == if old(self).args.state is Some && saved is Some {
                saved.unwrap()
            } else {
                old(self).game_data
            },
            old(self).args.state is None ==> (r is Ok),
            old(self).args.state is Some ==> (r is Err <==> (old(self).game_recorder.saved_refusal(
                &final(self).game_data,
            ) is Some)),
            r is Err ==> (final(self).game_recorder.games() == old(self).game_recorder.games()
                && final(self).game_recorder.tallies() == old(self).game_recorder.tallies()
                && final(self).args == old(self).args),
            r is Ok && old(self).args.state is Some ==> (final(self).game_recorder.games()
                == old(self).game_recorder.games() + saved_outcomes(final(self).game_data.games@)
                && final(self).game_recorder.tallies() == tally_words(
                old(self).game_recorder.tallies(),
                saved_words(final(self).game_data.games@),
            )),
            r is Ok && old(self).args.state is None ==> (final(self).game_recorder.games()
                == old(self).game_recorder.games()
                && final(self).game_recorder.tallies() == old(self).game_recorder.tallies()),
            r is Ok ==> final(self).args == with_defaults(
                if config is Some {
                    merged(old(self).args, config.unwrap())
                } else {
                    old(self).args
                },
            ),
    {
        if self.args.state.is_some() {
            if let Some(data) = saved {
                self.game_data = data;
            }
            let res = self.game_recorder.add_saved_games(&self.game_data);
            if let Err(e) = res {
                return Err(e);
            }
        }
        if let Some(c) = config {
            self.args.merge_config(c);
        }
        self.args.fill_defaults();
        Ok(())
    }

    /// Checks the word lists and, for random answers, shuffles the possible
    /// answers with the seed (the default one if none is set).
    pub fn init_game(&self, final_words: &mut Vec<String>, acceptable: &Vec<String>) -> (r: Result<
        (),
        WordListError,
    >)
        ensures
            r is Err <==> (exists|i: int|
                0 <= i < old(final_words)@.len() && !listed(
                    acceptable.deep_view(),
                    #[trigger] old(final_words).deep_view()[i],
                )),
            r is Err ==> final(final_words)@ == old(final_words)@,
            r is Ok && self.args.random ==> final(final_words).deep_view() == shuffled(
                self.args.seed.unwrap_or(DEFAULT_SEED),
                old(final_words).deep_view(),
            ),
            r is Ok && !self.args.random ==> final(final_words)@ == old(final_words)@,
    {
        let seed = match self.args.seed {
            Some(s) => s,
            None => DEFAULT_SEED,
        };
        prepare_word_lists(final_words, acceptable, self.args.random, seed)
    }

    /// The answer of the next round, when the options fix it: with random
    /// answers, that of the day in the answer list; otherwise the given word,
    /// if it is a possible answer. None when the options fix no usable answer
    /// (then, with neither set, the player chooses it).
    pub fn gen_answer(&self, final_words: &Vec<String>) -> (r: Option<String>)
        ensures
            self.args.random ==> (r is Some <==> (final_words@.len() > 0 && self.args.day is Some
                && self.args.day.unwrap() > 0)),
            self.args.random && r is Some ==> r.unwrap()@ == final_words@[(self.args.day.unwrap()
                - 1) % final_words@.len() as int]@,
            !self.args.random && self.args.word is None ==> r is None,
            !self.args.random && self.args.word is Some ==> (r is Some <==> listed(
                final_words.deep_view(),
                self.args.word.unwrap()@,
            )),
            !self.args.random && r is Some ==> r.unwrap()@ == self.args.word.unwrap()@,
    {
        if self.args.random {
            match self.args.day {
                Some(d) => answer_for_day(final_words, d),
                None => None,
            }
        } else {
            match &self.args.word {
                Some(w) => {
                    if is_listed(final_words, w.as_str()) {
                        Some(w.clone())
                    } else {
                        None
                    }
                },
                None => None,
            }
        }
    }

    /// Records a finished round: in the statistics, and among the kept rounds
    /// when past rounds are kept.
    pub fn record_round(&mut self, win: bool, attempts: usize, guess_results: &Guess, ans: &str)
        requires
            old(self).wf(),
            old(self).game_recorder.games().len() < u32::MAX,
            old(self).args.state is Some ==> old(self).game_data.total_rounds < u32::MAX,
        ensures
            final(self).wf(),
            final(self).args == old(self).args,
            final(self).is_tty == old(self).is_tty,
            final(self).game_recorder.games() == old(self).game_recorder.games().push(
                (win, attempts as nat),
            ),
            final(self).game_recorder.tallies() == old(self).game_recorder.tallies(),
            final(self).game_recorder.wins() == old(self).game_recorder.wins() + if win {
                1nat
            } else {
                0nat
            },
            final(self).game_recorder.losses() == old(self).game_recorder.losses() + if win {
                0nat
            } else {
                1nat
            },
            old(self).args.state is None ==> final(self).game_data == old(self).game_data,
            old(self).args.state is Some ==> final(self).game_data.total_rounds
                == old(self).game_data.total_rounds + 1,
            old(self).args.state is Some ==> final(self).game_data.games@.len()
                == old(self).game_data.games@.len() + 1,
            old(self).args.state is Some ==> final(self).game_data.games@.drop_last()
                == old(self).game_data.games@,
            old(self).args.state is Some ==> final(self).game_data.games@.last().answer@ == upper_of(
                ans@,
            ),
            old(self).args.state is Some ==> final(self).game_data.games@.last().guesses@.len()
                == guess_results.history@.len(),
            forall|i: int|
                old(self).args.state is Some && 0 <= i < guess_results.history@.len() ==> (
                #[trigger] final(self).game_data.games@.last().guesses@[i])@ == upper_of(
                    guess_results.history@[i].content@,
                ),
    {
        self.game_recorder.add_game(win, attempts);
        if self.args.state.is_some() {
            self.game_data.add_game(guess_results, ans);
        }
    }

    /// Moves on to the next day, when a day is set.
    pub fn next_day(&mut self)
        requires
            old(self).args.day matches Some(d) ==> d < usize::MAX,
        ensures
            final(self).args.day == match old(self).args.day {
                Some(d) => Some((d + 1) as usize),
                None => None,
            },
            final(self).args.word == old(self).args.word,
            final(self).args.random == old(self).args.random,
            final(self).args.difficult == old(self).args.difficult,
            final(self).args.stats == old(self).args.stats,
            final(self).args.seed == old(self).args.seed,
            final(self).args.state == old(self).args.state,
            final(self).args.final_set == old(self).args.final_set,
            final(self).args.acceptable_set == old(self).args.acceptable_set,
            final(self).args.config == old(self).args.config,
            final(self).game_recorder == old(self).game_recorder,
            final(self).game_data == old(self).game_data,
            final(self).is_tty == old(self).is_tty,
    {
        if let Some(d) = self.args.day {
            self.args.day = Some(d + 1);
        }
    }
}

} // verus!
