//! The options of a run, and how a configuration file fills them in.
use vstd::prelude::*;

verus! {

/// Seed of the shuffled answer list when none is given.
pub const DEFAULT_SEED: u64 = 114514;

/// Day of the shuffled answer list when none is given.
pub const DEFAULT_DAY: usize = 1;

/// Options of one run of the game.
pub struct Args {
    /// The answer, when fixed.
    pub word: Option<String>,
    /// Draw answers from the shuffled answer list.
    pub random: bool,
    /// Difficult mode.
    pub difficult: bool,
    /// Show statistics after each round.
    pub stats: bool,
    /// Position in the shuffled answer list, from one.
    pub day: Option<usize>,
    /// Seed of the shuffle.
    pub seed: Option<u64>,
    /// File of possible answers.
    pub final_set: Option<String>,
    /// File of acceptable guesses.
    pub acceptable_set: Option<String>,
    /// File that keeps past rounds.
    pub state: Option<String>,
    /// Configuration file.
    pub config: Option<String>,
}

/// Options read from a configuration file.
pub struct Config {
    pub word: Option<String>,
    pub random: bool,
    pub difficult: bool,
    pub stats: bool,
    pub day: Option<usize>,
    pub seed: Option<u64>,
    pub final_set: Option<String>,
    pub acceptable_set: Option<String>,
    pub state: Option<String>,
}

/// `a` if it is set, else `b`.
pub open spec fn or_else<T>(a: Option<T>, b: Option<T>) -> Option<T> {
    if a is Some {
        a
    } else {
        b
    }
}

/// The options after `merge_config`: an option that is unset or off takes the
/// configuration's value. When no answer word results, the day becomes the
/// configuration's if none was given and the default otherwise, and the seed
/// the given one, else the configuration's, else the default.
pub open spec fn merged(a: Args, c: Config) -> Args {
    let word = or_else(a.word, c.word);
    Args {
        word,
        random: a.random || c.random,
        difficult: a.difficult || c.difficult,
        stats: a.stats || c.stats,
        day: if word is None {
            if a.day is None {
                c.day
            } else {
                Some(DEFAULT_DAY)
            }
        } else {
            a.day
        },
        seed: if word is None {
            or_else(or_else(a.seed, c.seed), Some(DEFAULT_SEED))
        } else {
            a.seed
        },
        final_set: or_else(a.final_set, c.final_set),
        acceptable_set: or_else(a.acceptable_set, c.acceptable_set),
        state: a.state,
        config: a.config,
    }
}

/// The options after `fill_defaults`: with random answers, an unset seed or
/// day takes its default.
pub open spec fn with_defaults(a: Args) -> Args {
    if a.random {
        Args { seed: or_else(a.seed, Some(DEFAULT_SEED)), day: or_else(a.day, Some(DEFAULT_DAY)), ..a }
    } else {
        a
    }
}

impl Args {
    /// Fills in from `config` what was not given.
    pub fn merge_config(&mut self, config: Config)
        ensures
            *final(self) == merged(*old(self), config),
    {
        if self.word.is_none() {
            self.word = config.word;
        }
        if !self.random {
            self.random = config.random;
        }
        if !self.difficult {
            self.difficult = config.difficult;
        }
        if !self.stats {
            self.stats = config.stats;
        }
        if self.word.is_none() {
            if self.day.is_none() {
                self.day = config.day;
            } else {
                self.day = Some(DEFAULT_DAY);
            }
            if self.seed.is_none() {
                self.seed = config.seed;
            }
            if self.seed.is_none() {
                self.seed = Some(DEFAULT_SEED);
            }
        }
        if self.final_set.is_none() {
            self.final_set = config.final_set;
        }
        if self.acceptable_set.is_none() {
            self.acceptable_set = config.acceptable_set;
        }
    }

    /// With random answers, an unset seed or day takes its default.
    pub fn fill_defaults(&mut self)
        ensures
            *final(self) == with_defaults(*old(self)),
    {
        if self.random {
            if self.seed.is_none() {
                self.seed = Some(DEFAULT_SEED);
            }
            if self.day.is_none() {
                self.day = Some(DEFAULT_DAY);
            }
        }
    }
}

} // verus!
