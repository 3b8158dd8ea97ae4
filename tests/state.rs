use wordlx::dictionary::Dictionary;
use wordlx::state::{Error, GameState, Guess, Input, Phase};
use wordlx::word::Word;

fn dict(list: &[&str]) -> Dictionary {
    let words: Vec<Word> = list.iter().map(|w| Word::new(w)).collect();
    Dictionary::from_words(&words)
}

fn type_word(state: &mut GameState, w: &str, words: &Dictionary, guesses: &Dictionary) {
    for c in w.chars() {
        state.input(Input::Character(c), words, guesses);
    }
    state.input(Input::Enter, words, guesses);
}

#[test]
fn guess_put_stops_at_five_and_erase_stops_at_zero() {
    let mut g = Guess::new();
    for c in "abcdefg".chars() {
        g.put(c);
    }
    assert_eq!(g.iter(), &vec!['a', 'b', 'c', 'd', 'e']);
    assert!(g.complete());
    for _ in 0..7 {
        g.erase();
    }
    assert!(g.iter().is_empty());
    assert!(!g.complete());
    g.put('x');
    g.clear();
    assert!(g.iter().is_empty());
}

#[test]
fn guess_to_word_and_valid() {
    let words = dict(&["crane"]);
    let guesses = dict(&["slate"]);
    let mut g = Guess::new();
    for c in "slate".chars() {
        g.put(c);
    }
    assert_eq!(g.to_word(), Word::new("slate"));
    assert!(g.valid(&words, &guesses));
    g.erase();
    assert_eq!(g.to_word(), Word::new("slat"));
    assert!(!g.valid(&words, &guesses));
}

#[test]
fn game_is_won_by_the_answer() {
    let words = dict(&["crane", "slate"]);
    let guesses = dict(&["adieu"]);
    let mut state = GameState::new("crane");
    assert_eq!(state.phase, Phase::Playing);
    type_word(&mut state, "adieu", &words, &guesses);
    assert_eq!(state.guesses, vec![Word::new("adieu")]);
    assert_eq!(state.phase, Phase::Playing);
    type_word(&mut state, "crane", &words, &guesses);
    assert_eq!(state.phase, Phase::Won);
    assert_eq!(state.guesses.len(), 2);
    state.input(Input::Character('x'), &words, &guesses);
    assert!(state.guess.iter().is_empty());
}

#[test]
fn game_refuses_unknown_words_and_waits_for_five_letters() {
    let words = dict(&["crane"]);
    let guesses = dict(&[]);
    let mut state = GameState::new("crane");
    type_word(&mut state, "zzzzz", &words, &guesses);
    assert_eq!(state.error, Error::InvalidGuess);
    assert!(state.guesses.is_empty());
    state.input(Input::Backspace, &words, &guesses);
    assert_eq!(state.error, Error::NoError);
    assert_eq!(state.guess.iter().len(), 4);
    state.input(Input::Enter, &words, &guesses);
    assert_eq!(state.error, Error::NoError);
    assert!(state.guesses.is_empty());
}

#[test]
fn game_is_lost_after_six_wrong_guesses() {
    let words = dict(&["crane", "slate"]);
    let guesses = dict(&[]);
    let mut state = GameState::new("crane");
    for i in 0..6 {
        assert!(!state.full());
        type_word(&mut state, "slate", &words, &guesses);
        assert_eq!(state.guesses.len(), i + 1);
    }
    assert!(state.full());
    assert_eq!(state.phase, Phase::Lost);
    type_word(&mut state, "crane", &words, &guesses);
    assert_eq!(state.phase, Phase::Lost);
    assert_eq!(state.guesses.len(), 6);
}

#[test]
fn game_new_random_picks_from_the_dictionary() {
    let words = dict(&["crane", "slate", "theta"]);
    let state = GameState::new_random(&words);
    assert!(words.contains(state.answer));
    assert_eq!(state.phase, Phase::Playing);
    assert_eq!(state.error, Error::NoError);
    assert!(state.guesses.is_empty());
}
