//! Guess evaluation and game-state engine for a word-guessing game.
//!
//! - `game`: letter statuses, scoring a guess against a secret, the keyboard
//!   that gathers what is known of each letter, a round's history of guesses,
//!   and the difficult-mode rule.
//! - `round`: one round as a state machine, from the first guess to won or lost.
//! - `recorder`: statistics over many rounds and the rounds kept between runs.
//! - `args`: the options of a run and how a configuration file fills them in.
//! - `words`: answer lists: membership, shuffling, the answer of a day.
//! - `wordle`: one run of the game, tying the above together.
pub mod args;
pub mod game;
pub mod recorder;
pub mod round;
pub mod wordle;
pub mod words;

pub use wordle::Wordle;
