use wordle_lib::game::{CharStatus, MAX_ATTEMPTS};
use wordle_lib::round::{GuessError, Round, RoundState};

#[test]
fn round_is_won_on_all_correct_guess() {
    let mut r = Round::new("crane", false).unwrap();
    assert_eq!(r.state(), RoundState::AwaitingGuess);
    assert_eq!(r.submit("slate"), Ok(RoundState::AwaitingGuess));
    assert_eq!(r.submit("CRANE"), Ok(RoundState::Won));
    assert_eq!(r.attempts(), 2);
    assert_eq!(r.submit("crane"), Err(GuessError::RoundOver));
    assert_eq!(r.attempts(), 2);
}

#[test]
fn round_is_lost_after_max_attempts() {
    let mut r = Round::new("crane", false).unwrap();
    for i in 0..MAX_ATTEMPTS {
        let st = r.submit("slate").unwrap();
        if i + 1 < MAX_ATTEMPTS {
            assert_eq!(st, RoundState::AwaitingGuess);
        } else {
            assert_eq!(st, RoundState::Lost);
        }
    }
    assert_eq!(r.attempts(), 6);
    assert_eq!(r.submit("crane"), Err(GuessError::RoundOver));
}

#[test]
fn win_on_last_attempt() {
    let mut r = Round::new("crane", false).unwrap();
    for _ in 0..5 {
        assert_eq!(r.submit("slate"), Ok(RoundState::AwaitingGuess));
    }
    assert_eq!(r.submit("crane"), Ok(RoundState::Won));
}

#[test]
fn refused_guesses_use_no_attempt() {
    let mut r = Round::new("crane", true).unwrap();
    assert_eq!(r.submit("cran"), Err(GuessError::MalformedInput));
    assert_eq!(r.submit("brine"), Ok(RoundState::AwaitingGuess));
    assert_eq!(r.submit("stole"), Err(GuessError::IllegalGuess));
    assert_eq!(r.attempts(), 1);
    assert_eq!(r.submit("crane"), Ok(RoundState::Won));
    let last = r.guesses().last().unwrap();
    assert_eq!(last.status, vec![CharStatus::Correct; 5]);
}

#[test]
fn round_rejects_malformed_secret() {
    assert!(Round::new("cra", false).is_err());
    assert!(Round::new("cr-ne", false).is_err());
}
