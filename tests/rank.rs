use wordlx::filter::WordFilter;
use wordlx::rank::{candidates, pattern_of, rank, score};
use wordlx::word::Word;

fn words(list: &[&str]) -> Vec<Word> {
    list.iter().map(|w| Word::new(w)).collect()
}

#[test]
fn pattern_of_counts_categories_in_base_three() {
    // absent, present, present, absent, present
    assert_eq!(pattern_of(Word::new("beast"), Word::new("theta")), 2 + 3 + 9 + 2 * 27 + 81);
    assert_eq!(pattern_of(Word::new("theta"), Word::new("theta")), 0);
    assert_eq!(pattern_of(Word::new("zzzzz"), Word::new("theta")), 242);
}

#[test]
fn score_is_the_largest_feedback_group() {
    let pool = words(&["abcde", "abcdf", "zzzzz"]);
    assert_eq!(score(Word::new("abcde"), &pool), 1);
    assert_eq!(score(Word::new("zzzzz"), &pool), 2);
    assert_eq!(score(Word::new("abcde"), &Vec::new()), 0);
}

#[test]
fn candidates_keep_pool_order() {
    let mut filter = WordFilter::new(Word::new("theta"));
    filter.apply(Word::new("beast"));
    let pool = words(&["steal", "theta", "beast", "eaten", "tweak"]);
    let found = candidates(&filter, &pool);
    let expected: Vec<Word> = pool.iter().copied().filter(|w| filter.matches(*w)).collect();
    assert_eq!(found, expected);
    assert!(found.contains(&Word::new("theta")));
    assert!(!found.contains(&Word::new("beast")));
}

#[test]
fn rank_orders_by_score_then_word() {
    let filter = WordFilter::new(Word::new("abcde"));
    let pool = words(&["zzzzz", "abcdf", "abcde"]);
    let ranked = rank(&filter, &pool);
    assert_eq!(
        ranked,
        vec![(Word::new("abcde"), 1), (Word::new("abcdf"), 1), (Word::new("zzzzz"), 2)]
    );
}

#[test]
fn rank_leaves_out_words_the_filter_rejects() {
    let mut filter = WordFilter::new(Word::new("theta"));
    filter.apply(Word::new("beast"));
    let pool = words(&["steal", "theta", "beast", "eaten", "ate", "tweak"]);
    let ranked = rank(&filter, &pool);
    for (w, _) in &ranked {
        assert!(filter.matches(*w));
    }
    assert_eq!(ranked.len(), candidates(&filter, &pool).len());
    for pair in ranked.windows(2) {
        let (a, b) = (pair[0], pair[1]);
        assert!(a.1 < b.1 || (a.1 == b.1 && a.0.lex_key() <= b.0.lex_key()));
    }
}

#[test]
fn rank_is_deterministic() {
    let filter = WordFilter::new(Word::new("crane"));
    let pool = words(&["crane", "slate", "trace", "crate", "react", "caret", "adieu", "stare"]);
    let first = rank(&filter, &pool);
    let second = rank(&filter, &pool);
    assert_eq!(first, second);
    let mut shuffled = pool.clone();
    shuffled.reverse();
    assert_eq!(rank(&filter, &shuffled), first);
    assert_eq!(format!("{:?}", first), format!("{:?}", second));
}

#[test]
fn rank_of_empty_pool_is_empty() {
    let filter = WordFilter::new(Word::new("crane"));
    assert!(rank(&filter, &Vec::new()).is_empty());
}

#[test]
fn rank_of_a_permuted_pool_is_the_same() {
    let mut filter = WordFilter::new(Word::new("theta"));
    filter.apply(Word::new("beast"));
    let pool = words(&["eaten", "theta", "tweak", "ethic", "hotel", "steal", "theta"]);
    let mut rotated = pool.clone();
    rotated.rotate_left(3);
    assert_eq!(rank(&filter, &pool), rank(&filter, &rotated));
}
