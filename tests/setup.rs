use wordle_lib::args::{Args, Config, DEFAULT_DAY, DEFAULT_SEED};
use wordle_lib::game::Guess;
use wordle_lib::recorder::{GameData, SingleGameData};
use wordle_lib::words::{answer_for_day, init_shuffle, is_listed, prepare_word_lists, WordListError};
use wordle_lib::Wordle;

fn args() -> Args {
    Args {
        word: None,
        random: false,
        difficult: false,
        stats: false,
        day: None,
        seed: None,
        final_set: None,
        acceptable_set: None,
        state: None,
        config: None,
    }
}

fn config() -> Config {
    Config {
        word: None,
        random: false,
        difficult: false,
        stats: false,
        day: None,
        seed: None,
        final_set: None,
        acceptable_set: None,
        state: None,
    }
}

fn list(ws: &[&str]) -> Vec<String> {
    ws.iter().map(|w| w.to_string()).collect()
}

#[test]
fn config_fills_unset_options() {
    let mut a = args();
    a.day = Some(4);
    let mut c = config();
    c.random = true;
    c.stats = true;
    c.seed = Some(7);
    c.day = Some(9);
    c.final_set = Some("f.txt".to_string());
    a.merge_config(c);
    assert!(a.random && a.stats && !a.difficult);
    assert_eq!(a.day, Some(DEFAULT_DAY));
    assert_eq!(a.seed, Some(7));
    assert_eq!(a.final_set, Some("f.txt".to_string()));
}

#[test]
fn config_day_used_when_none_given() {
    let mut a = args();
    let mut c = config();
    c.day = Some(9);
    a.merge_config(c);
    assert_eq!(a.day, Some(9));
    assert_eq!(a.seed, Some(DEFAULT_SEED));
}

#[test]
fn config_word_keeps_day_and_seed() {
    let mut a = args();
    let mut c = config();
    c.word = Some("crane".to_string());
    c.day = Some(9);
    a.merge_config(c);
    assert_eq!(a.word, Some("crane".to_string()));
    assert_eq!(a.day, None);
    assert_eq!(a.seed, None);
}

#[test]
fn random_defaults() {
    let mut a = args();
    a.random = true;
    a.fill_defaults();
    assert_eq!(a.seed, Some(DEFAULT_SEED));
    assert_eq!(a.day, Some(DEFAULT_DAY));
    let mut b = args();
    b.fill_defaults();
    assert_eq!(b.seed, None);
}

#[test]
fn answer_goes_round_the_list() {
    let ws = list(&["aaaaa", "bbbbb", "ccccc"]);
    assert_eq!(answer_for_day(&ws, 1), Some("aaaaa".to_string()));
    assert_eq!(answer_for_day(&ws, 3), Some("ccccc".to_string()));
    assert_eq!(answer_for_day(&ws, 4), Some("aaaaa".to_string()));
    assert_eq!(answer_for_day(&ws, 0), None);
    assert_eq!(answer_for_day(&[].to_vec(), 1), None);
}

#[test]
fn shuffle_is_a_seeded_permutation() {
    let orig = list(&["a", "b", "c", "d", "e", "f", "g", "h", "i", "j", "k", "l"]);
    let mut x = orig.clone();
    let mut y = orig.clone();
    init_shuffle(DEFAULT_SEED, &mut x);
    init_shuffle(DEFAULT_SEED, &mut y);
    assert_eq!(x, y);
    assert_ne!(x, orig);
    let mut sorted = x.clone();
    sorted.sort();
    assert_eq!(sorted, orig);
}

#[test]
fn word_lists_must_nest() {
    let acceptable = list(&["crane", "slate", "adieu"]);
    let mut finals = list(&["crane", "zebra"]);
    assert_eq!(
        prepare_word_lists(&mut finals, &acceptable, true, 1),
        Err(WordListError::NotSubset)
    );
    assert_eq!(finals, list(&["crane", "zebra"]));
    let mut finals = list(&["slate", "crane"]);
    assert_eq!(prepare_word_lists(&mut finals, &acceptable, false, 1), Ok(()));
    assert_eq!(finals, list(&["slate", "crane"]));
    assert!(is_listed(&acceptable, "adieu"));
    assert!(!is_listed(&acceptable, "adie"));
}

#[test]
fn wordle_answer_from_options() {
    let ws = list(&["crane", "slate"]);
    let mut a = args();
    a.word = Some("slate".to_string());
    let w = Wordle::new(false, a);
    assert_eq!(w.gen_answer(&ws), Some("slate".to_string()));
    let mut a = args();
    a.word = Some("zebra".to_string());
    assert_eq!(Wordle::new(false, a).gen_answer(&ws), None);
    assert_eq!(Wordle::new(false, args()).gen_answer(&ws), None);
    let mut a = args();
    a.random = true;
    a.day = Some(2);
    let mut w = Wordle::new(false, a);
    assert_eq!(w.gen_answer(&ws), Some("slate".to_string()));
    w.next_day();
    assert_eq!(w.args.day, Some(3));
    assert_eq!(w.gen_answer(&ws), Some("crane".to_string()));
}

#[test]
fn wordle_load_and_record() {
    let mut a = args();
    a.state = Some("state.json".to_string());
    let mut w = Wordle::new(false, a);
    let mut d = GameData::new();
    d.total_rounds = 1;
    d.games.push(SingleGameData {
        answer: "CRANE".to_string(),
        guesses: vec!["CRANE".to_string()],
    });
    let mut c = config();
    c.random = true;
    assert_eq!(w.load_game(Some(d), Some(c)), Ok(()));
    assert!(w.args.random);
    assert_eq!(w.args.seed, Some(DEFAULT_SEED));
    let s = w.game_recorder.summary(5);
    assert_eq!((s.wins, s.losses, s.win_attempts), (1, 0, 1));
    let g = Guess::new();
    w.record_round(false, 6, &g, "slate");
    assert_eq!(w.game_data.total_rounds, 2);
    assert_eq!(w.game_data.games[1].answer, "SLATE");
    assert_eq!(w.game_recorder.summary(5).losses, 1);
}

#[test]
fn wordle_init_game_shuffles_when_random() {
    let acceptable = list(&["a", "b", "c", "d", "e", "f", "g", "h"]);
    let mut finals = acceptable.clone();
    let mut a = args();
    a.random = true;
    a.seed = Some(3);
    let w = Wordle::new(false, a);
    assert_eq!(w.init_game(&mut finals, &acceptable), Ok(()));
    let mut expected = acceptable.clone();
    init_shuffle(3, &mut expected);
    assert_eq!(finals, expected);
}
