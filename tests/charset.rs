use wordlx::charset::Charset;

#[test]
fn test_charset() {
    let set = Charset::char('a');
    assert_ne!(set, Charset::none());
}

#[test]
fn test_charset_include_exclude() {
    let mut set = Charset::none();
    assert_eq!(set.includes('a'), false);
    set.insert('a');
    assert_eq!(set.includes('a'), true);
    set.exclude('a');
    assert_eq!(set.includes('a'), false);
}

#[test]
fn test_charset_inverse() {
    let set = Charset::from_str("abc").inverse();
    assert_eq!(set.includes('a'), false);
    assert_eq!(set.includes('d'), true);

    assert_eq!(Charset::all().inverse(), Charset::none());
    assert_eq!(Charset::none().inverse(), Charset::all());
}

#[test]
fn test_charset_contains_all() {
    let set = Charset::from_str("abc");
    assert_eq!(set.contains_all(Charset::from_str("ab")), true);
    assert_eq!(set.contains_all(Charset::from_str("bc")), true);
    assert_eq!(set.contains_all(Charset::from_str("abc")), true);
    assert_eq!(set.contains_all(Charset::from_str("abcd")), false);
}

#[test]
fn test_charset_contains_any() {
    let set = Charset::from_str("abc");
    assert_eq!(set.contains_any(Charset::from_str("ab")), true);
    assert_eq!(set.contains_any(Charset::from_str("abcd")), true);
    assert_eq!(set.contains_any(Charset::from_str("def")), false);
}

#[test]
fn charset_ignores_characters_that_are_not_letters() {
    assert_eq!(Charset::char('A'), Charset::none());
    assert_eq!(Charset::char(' '), Charset::none());
    assert_eq!(Charset::char('{'), Charset::none());
    assert_eq!(Charset::from_str("a1 B!b"), Charset::from_str("ab"));
    let mut set = Charset::from_str("xyz");
    let after = set.insert('7');
    assert_eq!(after, Charset::from_str("xyz"));
    let after = set.exclude('?');
    assert_eq!(after, Charset::from_str("xyz"));
}

#[test]
fn charset_include_returns_the_new_set() {
    let mut set = Charset::none();
    let after = set.insert('q');
    assert_eq!(after, set);
    assert_eq!(after, Charset::char('q'));
    let after = set.exclude('q');
    assert_eq!(after, Charset::none());
}

#[test]
fn charset_all_holds_every_letter() {
    let all = Charset::all();
    for c in 'a'..='z' {
        assert!(all.includes(c));
    }
    assert!(!all.includes('A'));
    assert_eq!(all, Charset::from_str("abcdefghijklmnopqrstuvwxyz"));
}

#[test]
fn charset_contains_any_of_empty_is_false() {
    assert!(!Charset::all().contains_any(Charset::none()));
    assert!(Charset::none().contains_all(Charset::none()));
    assert!(!Charset::none().contains_all(Charset::char('a')));
}

#[test]
fn charset_to_string_lists_letters_in_order() {
    assert_eq!(Charset::from_str("zebra").to_string(), "aberz");
    assert_eq!(Charset::none().to_string(), "");
    assert_eq!(Charset::all().to_string(), "abcdefghijklmnopqrstuvwxyz");
}
