use wordle_lib::game::{score, AnsChecker, CharStatus, Guess, GuessResult, ScoreError};

use CharStatus::{Correct, Misplaced, Wrong};

#[test]
fn score_of_word_against_itself_is_all_correct() {
    for w in ["crane", "mamma", "speed", "Zebra", "aaaaa"] {
        assert_eq!(score(w, w).unwrap(), vec![Correct; 5]);
    }
}

#[test]
fn repeated_letter_is_limited_by_secret_count() {
    // 'e' twice in the secret, twice in the guess, never in place
    assert_eq!(
        score("speed", "erase").unwrap(),
        vec![Misplaced, Wrong, Wrong, Misplaced, Misplaced]
    );
    // a letter absent from the secret gives no positive mark however often it is guessed
    assert_eq!(score("abcde", "zzzzz").unwrap(), vec![Wrong; 5]);
    // one 'a' in the secret, three in the guess: one mark only
    assert_eq!(
        score("abcde", "xaaxa").unwrap(),
        vec![Wrong, Misplaced, Wrong, Wrong, Wrong]
    );
}

#[test]
fn crane_react_scenario() {
    // position 2 holds 'a' in both words
    assert_eq!(
        score("crane", "react").unwrap(),
        vec![Misplaced, Misplaced, Correct, Misplaced, Wrong]
    );
}

#[test]
fn mamma_aaaaa_scenario() {
    assert_eq!(
        score("mamma", "aaaaa").unwrap(),
        vec![Wrong, Correct, Wrong, Wrong, Correct]
    );
}

#[test]
fn exact_matches_take_precedence_over_earlier_misplaced() {
    // the 'l' at position 3 is exact; the earlier 'l' finds no occurrence left
    assert_eq!(
        score("hello", "lllll").unwrap(),
        vec![Wrong, Wrong, Correct, Correct, Wrong]
    );
}

#[test]
fn scoring_ignores_case() {
    assert_eq!(score("CRANE", "crane").unwrap(), vec![Correct; 5]);
    assert_eq!(score("crane", "ReAcT").unwrap(), score("crane", "react").unwrap());
}

#[test]
fn malformed_input_is_rejected() {
    assert_eq!(score("crane", "cran"), Err(ScoreError::MalformedInput));
    assert_eq!(score("cranes", "crane"), Err(ScoreError::MalformedInput));
    assert_eq!(score("crane", "cr4ne"), Err(ScoreError::MalformedInput));
    assert_eq!(score("", ""), Err(ScoreError::MalformedInput));
}

#[test]
fn checker_fills_status_and_keyboard() {
    let checker = AnsChecker::new("crane");
    let mut result = GuessResult::new("crate");
    let won = checker.check(&mut result);
    assert!(!won);
    assert_eq!(result.status, vec![Correct, Correct, Correct, Wrong, Correct]);
    let idx = |c: char| (c as u8 - b'a') as usize;
    assert_eq!(result.keyboard[idx('c')], Correct);
    assert_eq!(result.keyboard[idx('t')], Wrong);
    assert_eq!(result.keyboard[idx('z')], CharStatus::Unknown);
    assert_eq!(result.keyboard.len(), 26);
}

#[test]
fn keyboard_never_downgrades_across_guesses() {
    let rank = |s: CharStatus| match s {
        Correct => 3,
        Misplaced => 2,
        Wrong => 1,
        CharStatus::Unknown => 0,
    };
    let checker = AnsChecker::new("crane");
    let mut g = Guess::new();
    for w in ["cabin", "react", "acorn", "trace", "crane"] {
        g.append(w);
        g.score_last(&checker);
    }
    assert_eq!(g.history.len(), 5);
    for i in 1..g.history.len() {
        for k in 0..26 {
            assert!(rank(g.history[i].keyboard[k]) >= rank(g.history[i - 1].keyboard[k]));
        }
    }
    // 'a' was misplaced in "cabin" and then correct: the key shows Correct
    assert_eq!(g.history[1].keyboard[0], Correct);
    assert!(g.is_won());
}

#[test]
fn appended_guess_carries_keyboard_forward() {
    let checker = AnsChecker::new("crane");
    let mut g = Guess::new();
    g.append("slate");
    assert!(g.score_last(&checker) == false);
    g.append("crane");
    let last = g.last().unwrap();
    assert_eq!(last.status, vec![CharStatus::Unknown; 5]);
    assert_eq!(last.keyboard, g.history[0].keyboard);
    assert!(g.score_last(&checker));
}

#[test]
fn difficult_mode_keeps_confirmed_letters() {
    let checker = AnsChecker::new("crane");
    let mut g = Guess::new();
    assert!(g.difficult_check(true, "zzzzz"));
    g.append("brine");
    g.score_last(&checker);
    // position 1 ('r') was Correct
    assert_eq!(g.history[0].status[1], Correct);
    assert!(!g.difficult_check(true, "tiane"));
    assert!(g.difficult_check(false, "tiane"));
    assert!(!g.difficult_check(true, "arise"));
    assert!(g.difficult_check(false, "arise"));
    assert!(g.difficult_check(true, "crane"));
    assert!(g.difficult_check(true, "dryne"));
}

#[test]
fn difficult_mode_counts_misplaced_letters() {
    let checker = AnsChecker::new("speed");
    let mut g = Guess::new();
    g.append("erase");
    g.score_last(&checker);
    // two 'e' and one 's' confirmed
    assert!(!g.difficult_check(true, "esxxx"));
    assert!(g.difficult_check(true, "esexx"));
    assert!(g.difficult_check(true, "eesss"));
}

#[test]
fn difficult_mode_looks_at_last_guess_only() {
    let checker = AnsChecker::new("crane");
    let mut g = Guess::new();
    g.append("cabin");
    g.score_last(&checker);
    g.append("stole");
    g.score_last(&checker);
    // 'c' was Correct two guesses ago, but "stole" did not repeat it
    assert!(g.difficult_check(true, "eeeee"));
}

#[test]
fn status_symbols() {
    assert_eq!(Correct.symbol(), 'G');
    assert_eq!(Misplaced.symbol(), 'Y');
    assert_eq!(Wrong.symbol(), 'R');
    assert_eq!(CharStatus::Unknown.symbol(), 'X');
}
