use wordle_lib::game::{AnsChecker, Guess};
use wordle_lib::recorder::{GameData, GameRecorder, RecordError, SingleGameData};

fn words(r: &GameRecorder, n: usize) -> Vec<(String, u32)> {
    r.summary(n).top_words
}

#[test]
fn ranking_by_count_then_word() {
    let mut r = GameRecorder::new();
    for _ in 0..3 {
        r.add_tried_word("slate".to_string());
    }
    r.add_tried_word("adieu".to_string());
    for _ in 0..3 {
        r.add_tried_word("crane".to_string());
    }
    assert_eq!(
        words(&r, 5),
        vec![
            ("crane".to_string(), 3),
            ("slate".to_string(), 3),
            ("adieu".to_string(), 1)
        ]
    );
    assert_eq!(
        words(&r, 2),
        vec![("crane".to_string(), 3), ("slate".to_string(), 3)]
    );
    assert_eq!(words(&r, 0), vec![]);
}

#[test]
fn ranking_keeps_at_most_n() {
    let mut r = GameRecorder::new();
    for w in ["b", "a", "c", "e", "d", "f", "a", "f"] {
        r.add_tried_word(w.to_string());
    }
    assert_eq!(
        words(&r, 5),
        vec![
            ("a".to_string(), 2),
            ("f".to_string(), 2),
            ("b".to_string(), 1),
            ("c".to_string(), 1),
            ("d".to_string(), 1)
        ]
    );
}

#[test]
fn ranking_prefix_comes_first() {
    let mut r = GameRecorder::new();
    r.add_tried_word("ab".to_string());
    r.add_tried_word("a".to_string());
    assert_eq!(
        words(&r, 5),
        vec![("a".to_string(), 1), ("ab".to_string(), 1)]
    );
}

#[test]
fn tried_words_are_lowercased() {
    let mut r = GameRecorder::new();
    r.add_tried_word("CRANE".to_string());
    r.add_tried_word("crane".to_string());
    assert_eq!(words(&r, 5), vec![("crane".to_string(), 2)]);
}

#[test]
fn wins_losses_and_attempts() {
    let mut r = GameRecorder::new();
    let s = r.summary(5);
    assert_eq!((s.wins, s.losses, s.win_attempts), (0, 0, 0));
    r.add_game(true, 3);
    r.add_game(false, 6);
    r.add_game(true, 4);
    assert!(r.can_record());
    let s = r.summary(5);
    assert_eq!(s.wins, 2);
    assert_eq!(s.losses, 1);
    assert_eq!(s.win_attempts, 7);
    assert_eq!(r.win_attempts(), 7);
}

#[test]
fn game_data_keeps_uppercase_words() {
    let checker = AnsChecker::new("crane");
    let mut g = Guess::new();
    g.append("slate");
    g.score_last(&checker);
    g.append("crane");
    g.score_last(&checker);
    let mut d = GameData::new();
    d.add_game(&g, "crane");
    assert_eq!(d.total_rounds, 1);
    assert_eq!(d.games[0].answer, "CRANE");
    assert_eq!(d.games[0].guesses, vec!["SLATE".to_string(), "CRANE".to_string()]);
}

#[test]
fn saved_games_are_replayed() {
    let mut d = GameData::new();
    d.games.push(SingleGameData {
        answer: "CRANE".to_string(),
        guesses: vec!["SLATE".to_string(), "CRANE".to_string()],
    });
    d.games.push(SingleGameData {
        answer: "ADIEU".to_string(),
        guesses: vec!["SLATE".to_string()],
    });
    let mut r = GameRecorder::new();
    assert_eq!(r.add_saved_games(&d), Ok(()));
    let s = r.summary(5);
    assert_eq!((s.wins, s.losses, s.win_attempts), (1, 1, 2));
    assert_eq!(
        s.top_words,
        vec![("slate".to_string(), 2), ("crane".to_string(), 1)]
    );
}

#[test]
fn saved_game_without_guesses_is_refused() {
    let mut d = GameData::new();
    d.games.push(SingleGameData {
        answer: "CRANE".to_string(),
        guesses: vec!["CRANE".to_string()],
    });
    d.games.push(SingleGameData {
        answer: "ADIEU".to_string(),
        guesses: vec![],
    });
    let mut r = GameRecorder::new();
    assert_eq!(r.add_saved_games(&d), Err(RecordError::EmptyGame));
    let s = r.summary(5);
    assert_eq!((s.wins, s.losses), (0, 0));
    assert!(s.top_words.is_empty());
}
