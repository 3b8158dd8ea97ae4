use wordlx::charset::Charset;
use wordlx::filter::{feedback, Feedback, WordFilter, WordSpace};
use wordlx::word::Word;

#[test]
fn guess_test_wordspace() {
    let mut space = WordSpace::new();
    assert_eq!(space.matches(Word::new("abcde")), true);
    assert_eq!(space.matches(Word::new("bcdea")), true);
    space.exclude(0, 'a');
    assert_eq!(space.matches(Word::new("abcde")), false);
}

#[test]
fn guess_test_wordspace_only() {
    let mut space = WordSpace::new();
    space.only(0, 'a');
    assert_eq!(space.0[0].includes('a'), true);
    assert_eq!(space.0[0].includes('b'), false);
    assert_eq!(space.matches(Word::new("abcde")), true);
    assert_eq!(space.matches(Word::new("bbcde")), false);
}

#[test]
fn guess_test_filter() {
    let mut filter = WordFilter::new(Word::new("theta"));
    filter.apply(Word::new("beast"));
    filter.apply(Word::new("tears"));
    filter.apply(Word::new("tamed"));
    assert_eq!(filter.matches(Word::new("theta")), true);
    assert_eq!(filter.matches(Word::new("steal")), false);
    assert_eq!(filter.matches(Word::new("steak")), false);
}

#[test]
fn stats_test_wordspace() {
    let mut space = WordSpace::new();
    assert_eq!(space.matches(Word::new("abcde")), true);
    assert_eq!(space.matches(Word::new("bcdea")), true);
    space.exclude(0, 'a');
    assert_eq!(space.matches(Word::new("abcde")), false);
}

#[test]
fn stats_test_wordspace_only() {
    let mut space = WordSpace::new();
    space.only(0, 'a');
    assert_eq!(space.0[0].includes('a'), true);
    for c in 'b'..='z' {
        assert_eq!(space.0[0].includes(c), false);
    }
    assert_eq!(space.matches(Word::new("abcde")), true);
    assert_eq!(space.matches(Word::new("bbcde")), false);
}

#[test]
fn stats_test_filter() {
    let answer = Word::new("theta");
    let guess1 = Word::new("beast");
    let guess2 = Word::new("tears");
    let guess3 = Word::new("tamed");
    let mut filter = WordFilter::new(answer);

    println!("{:?}", guess1);
    assert_eq!(filter.matches(guess1), true);
    filter.apply(guess1);
    println!("{:?}", filter);
    assert_eq!(filter.matches(guess1), false);
    assert_eq!(filter.matches(answer), true);

    println!("{:?}", guess2);
    filter.apply(guess2);
    println!("{:?}", filter);
    assert_eq!(filter.matches(answer), true);

    println!("{:?}", guess3);
    filter.apply(guess3);
    println!("{:?}", filter);
    assert_eq!(filter.matches(answer), true);

    assert_eq!(filter.matches(answer), true);
    assert_eq!(filter.matches(Word::new("steal")), false);
    assert_eq!(filter.matches(Word::new("steak")), false);
}

#[test]
fn wordspace_blank_is_never_allowed() {
    let space = WordSpace::new();
    assert!(!space.matches(Word::new("abcd")));
    assert!(!space.matches(Word::empty()));
}

#[test]
fn wordspace_exclude_touches_one_position() {
    let mut space = WordSpace::new();
    space.exclude(2, 'c');
    assert!(!space.0[2].includes('c'));
    assert!(space.0[1].includes('c'));
    assert!(space.0[3].includes('c'));
    assert!(space.matches(Word::new("ccbcc")));
    assert!(!space.matches(Word::new("ccccc")));
}

#[test]
fn wordspace_only_with_non_letter_allows_nothing() {
    let mut space = WordSpace::new();
    space.only(1, '#');
    assert_eq!(space.0[1], Charset::none());
}

#[test]
fn feedback_priority_theta_beast() {
    let target = Word::new("theta");
    let guess = Word::new("beast");
    // No letter of "beast" stands where "theta" has it: 't' is at index 4 of the guess and
    // index 0 and 3 of the target, so it is present, as are 'e' and 'a'.
    assert_eq!(feedback(guess, target, 0), Feedback::Absent);
    assert_eq!(feedback(guess, target, 1), Feedback::Present);
    assert_eq!(feedback(guess, target, 2), Feedback::Present);
    assert_eq!(feedback(guess, target, 3), Feedback::Absent);
    assert_eq!(feedback(guess, target, 4), Feedback::Present);

    let mut filter = WordFilter::new(target);
    filter.apply(guess);
    assert_eq!(filter.required, Charset::from_str("eat"));
    assert_eq!(filter.rejected, Charset::from_str("bs"));
    assert_eq!(filter.correct, Word::empty());
    for i in 0..5 {
        assert!(!filter.space.0[i].includes('b'));
        assert!(!filter.space.0[i].includes('s'));
    }
    assert!(!filter.space.0[1].includes('e'));
    assert!(filter.space.0[0].includes('e'));
    assert!(!filter.space.0[2].includes('a'));
    assert!(!filter.space.0[4].includes('t'));
    assert!(filter.space.0[0].includes('t'));
}

#[test]
fn feedback_correct_restricts_its_position() {
    let target = Word::new("theta");
    let guess = Word::new("tears");
    assert_eq!(feedback(guess, target, 0), Feedback::Correct);
    assert_eq!(feedback(guess, target, 1), Feedback::Present);
    assert_eq!(feedback(guess, target, 2), Feedback::Present);
    assert_eq!(feedback(guess, target, 3), Feedback::Absent);
    assert_eq!(feedback(guess, target, 4), Feedback::Absent);

    let mut filter = WordFilter::new(target);
    filter.apply(guess);
    assert_eq!(filter.space.0[0], Charset::char('t'));
    assert_eq!(filter.correct, Word::new("t"));
    assert_eq!(filter.required, Charset::from_str("tea"));
    assert_eq!(filter.rejected, Charset::from_str("rs"));
}

#[test]
fn feedback_repeated_letter_is_over_credited() {
    let target = Word::new("sheep");
    let guess = Word::new("geese");
    assert_eq!(feedback(guess, target, 0), Feedback::Absent);
    assert_eq!(feedback(guess, target, 1), Feedback::Present);
    assert_eq!(feedback(guess, target, 2), Feedback::Correct);
    assert_eq!(feedback(guess, target, 3), Feedback::Present);
    // "sheep" holds two 'e's and "geese" three: the third is still found present.
    assert_eq!(feedback(guess, target, 4), Feedback::Present);

    let mut filter = WordFilter::new(target);
    filter.apply(guess);
    assert_eq!(filter.rejected, Charset::from_str("g"));
    assert_eq!(filter.required, Charset::from_str("es"));
    assert_eq!(filter.correct, Word::new("  e"));
    assert!(!filter.space.0[4].includes('e'));
    assert!(filter.matches(target));
}

#[test]
fn fresh_filter_matches_every_full_word() {
    let filter = WordFilter::new(Word::new("crane"));
    for w in ["crane", "zzzzz", "abcde", "theta", "queue"] {
        assert!(filter.matches(Word::new(w)));
    }
    assert!(!filter.matches(Word::new("cran")));
    assert!(!filter.matches(Word::empty()));
}

#[test]
fn matches_twice_gives_the_same_answer() {
    let mut filter = WordFilter::new(Word::new("theta"));
    filter.apply(Word::new("beast"));
    let before = format!("{:?}", filter);
    for w in ["theta", "steal", "tweak", "eaten"] {
        let first = filter.matches(Word::new(w));
        let second = filter.matches(Word::new(w));
        assert_eq!(first, second);
    }
    assert_eq!(format!("{:?}", filter), before);
}

#[test]
fn apply_only_narrows_the_candidates() {
    let words = ["theta", "steal", "steak", "tweak", "eaten", "ethic", "hotel", "beast", "tamed"];
    let mut filter = WordFilter::new(Word::new("theta"));
    for guess in ["beast", "tears", "tamed"] {
        let before = filter;
        filter.apply(Word::new(guess));
        for w in words {
            if filter.matches(Word::new(w)) {
                assert!(before.matches(Word::new(w)));
            }
        }
    }
    assert!(filter.matches(Word::new("theta")));
}

#[test]
fn from_guesses_replays_the_guesses() {
    let guesses: Vec<Word> = ["beast", "tears", "tamed"].iter().map(|w| Word::new(w)).collect();
    let filter = WordFilter::from_guesses(Word::new("theta"), &guesses);
    let mut expected = WordFilter::new(Word::new("theta"));
    for g in &guesses {
        expected.apply(*g);
    }
    assert_eq!(format!("{:?}", filter), format!("{:?}", expected));
    assert!(filter.matches(Word::new("theta")));
    for g in &guesses {
        assert!(!filter.matches(*g));
    }
    let none = WordFilter::from_guesses(Word::new("theta"), &Vec::new());
    assert!(none.matches(Word::new("zzzzz")));
}

#[test]
fn blank_guess_slot_is_absent_feedback() {
    let target = Word::new("ab cd");
    let guess = Word::new("x    ");
    assert_eq!(feedback(guess, target, 2), Feedback::Correct);
    assert_eq!(feedback(guess, target, 1), Feedback::Absent);
}

#[test]
fn matches_rejects_each_kind_of_conflict() {
    let mut filter = WordFilter::new(Word::new("theta"));
    filter.apply(Word::new("tears"));
    // 'r' is rejected.
    assert!(!filter.matches(Word::new("thera")));
    // 'a' is required.
    assert!(!filter.matches(Word::new("thete")));
    // 't' is fixed at position 0.
    assert!(!filter.matches(Word::new("ateth")));
    assert!(filter.matches(Word::new("theta")));
}

#[test]
fn applying_a_guess_twice_changes_nothing() {
    let mut filter = WordFilter::new(Word::new("theta"));
    filter.apply(Word::new("beast"));
    let once = format!("{:?}", filter);
    filter.apply(Word::new("beast"));
    assert_eq!(format!("{:?}", filter), once);
}

#[test]
fn order_of_guesses_does_not_matter() {
    let mut a = WordFilter::new(Word::new("theta"));
    a.apply(Word::new("beast"));
    a.apply(Word::new("tears"));
    let mut b = WordFilter::new(Word::new("theta"));
    b.apply(Word::new("tears"));
    b.apply(Word::new("beast"));
    assert_eq!(format!("{:?}", a), format!("{:?}", b));
}

#[test]
fn applying_the_target_leaves_only_the_target() {
    let mut filter = WordFilter::new(Word::new("theta"));
    filter.apply(Word::new("theta"));
    assert!(filter.matches(Word::new("theta")));
    for w in ["thete", "theto", "zheta", "beast"] {
        assert!(!filter.matches(Word::new(w)));
    }
    assert_eq!(filter.correct, Word::new("theta"));
}

#[test]
fn target_letters_are_never_rejected() {
    let mut filter = WordFilter::new(Word::new("sheep"));
    for g in ["geese", "eeeee", "sheet", "peeps"] {
        filter.apply(Word::new(g));
        for c in "shep".chars() {
            assert!(!filter.rejected.includes(c));
        }
        assert!(Word::new("sheep").charset().contains_all(filter.required));
        assert!(filter.matches(Word::new("sheep")));
    }
}
