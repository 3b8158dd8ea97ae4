use wordlx::dictionary::Dictionary;
use wordlx::word::Word;

fn dict(list: &[&str]) -> Dictionary {
    let words: Vec<Word> = list.iter().map(|w| Word::new(w)).collect();
    Dictionary::from_words(&words)
}

#[test]
fn dictionary_contains_its_words_only() {
    let d = dict(&["crane", "slate", "theta"]);
    assert!(d.contains(Word::new("crane")));
    assert!(d.contains(Word::new("theta")));
    assert!(!d.contains(Word::new("beast")));
    assert!(!d.contains(Word::empty()));
}

#[test]
fn dictionary_iter_lists_each_word_once() {
    let d = dict(&["crane", "slate", "crane", "theta"]);
    let mut listed: Vec<String> = d.iter().iter().map(|w| w.to_string()).collect();
    listed.sort();
    assert_eq!(listed, vec!["crane", "slate", "theta"]);
}

#[test]
fn dictionary_random_is_a_member() {
    let d = dict(&["crane", "slate", "theta"]);
    for _ in 0..20 {
        assert!(d.contains(d.random()));
    }
    let one = dict(&["queue"]);
    assert_eq!(one.random(), Word::new("queue"));
}

#[test]
fn dictionary_empty() {
    let d = dict(&[]);
    assert!(d.iter().is_empty());
    assert!(!d.contains(Word::new("crane")));
}
