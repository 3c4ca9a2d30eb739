use tabsbot::text::{
    chars_of, contains_chars, is_whitespace_char, join_words, same_text, split_words,
};

#[test]
fn chars_of_lists_the_characters() {
    assert_eq!(chars_of(""), Vec::<char>::new());
    assert_eq!(chars_of("a.b"), vec!['a', '.', 'b']);
    assert_eq!(chars_of("zoë 日本"), vec!['z', 'o', 'ë', ' ', '日', '本']);
}

#[test]
fn same_text_compares_every_character() {
    assert!(same_text("", ""));
    assert!(same_text("!paid", "!paid"));
    assert!(!same_text("!paid", "!paidto"));
    assert!(!same_text("!paidto", "!paid"));
    assert!(!same_text("!paid", "!Paid"));
    assert!(!same_text("a", ""));
}

#[test]
fn contains_chars_finds_runs_of_characters() {
    let hay = chars_of("@alice:example.org");
    assert!(contains_chars(&hay, &chars_of("")));
    assert!(contains_chars(&hay, &chars_of("@")));
    assert!(contains_chars(&hay, &chars_of("alice")));
    assert!(contains_chars(&hay, &chars_of("org")));
    assert!(contains_chars(&hay, &chars_of("@alice:example.org")));
    assert!(!contains_chars(&hay, &chars_of("@alice:example.org@")));
    assert!(!contains_chars(&hay, &chars_of("alicee")));
    assert!(!contains_chars(&hay, &chars_of("ae")));
    assert!(contains_chars(&chars_of(""), &chars_of("")));
    assert!(!contains_chars(&chars_of(""), &chars_of("a")));
    assert!(contains_chars(&chars_of("aab"), &chars_of("ab")));
}

#[test]
fn white_space_is_what_the_standard_library_calls_so() {
    let mut code: u32 = 0;
    while code <= 0x10FFFF {
        if let Some(c) = char::from_u32(code) {
            assert_eq!(is_whitespace_char(c), c.is_whitespace(), "U+{:04X}", code);
        }
        code += 1;
    }
}

#[test]
fn split_words_splits_at_white_space() {
    assert_eq!(split_words(""), Vec::<&str>::new());
    assert_eq!(split_words("   \t\n"), Vec::<&str>::new());
    assert_eq!(split_words("word"), vec!["word"]);
    assert_eq!(split_words(" word "), vec!["word"]);
    assert_eq!(split_words("a b"), vec!["a", "b"]);
    assert_eq!(split_words("  !paid \t12.50\nlunch  "), vec!["!paid", "12.50", "lunch"]);
    assert_eq!(split_words("zoë\u{3000}日本 x"), vec!["zoë", "日本", "x"]);
}

#[test]
fn split_words_splits_as_the_standard_library_does() {
    let samples: [&str; 8] = [
        "",
        " ",
        "a",
        " a",
        "a ",
        "a  b\tc\r\nd",
        "\u{a0}x\u{2000}y\u{205f}z\u{feff}w",
        "!paidto  @bob:example.org 5.00   coffee ☕ and cake",
    ];
    for text in samples {
        let expected: Vec<&str> = text.split_whitespace().collect();
        assert_eq!(split_words(text), expected, "{:?}", text);
    }
}

#[test]
fn split_words_gives_back_the_words_that_were_joined() {
    let lists: [&[&str]; 5] =
        [&[], &["a"], &["a", "b"], &["!paid", "12.50", "lunch"], &["zoë", "日本", "☕"]];
    for words in lists {
        assert_eq!(split_words(&join_words(words)), words);
    }
}

#[test]
fn join_words_puts_one_space_between_words() {
    let words: Vec<&str> = vec!["!paid", "12.50", "lunch", "with", "team"];
    assert_eq!(join_words(&words), "!paid 12.50 lunch with team");
    assert_eq!(join_words(&words[2..]), "lunch with team");
    assert_eq!(join_words(&words[4..]), "team");
    assert_eq!(join_words(&words[5..]), "");
    assert_eq!(join_words(&[]), "");
    assert_eq!(join_words(&["", "a", ""]), " a ");
}
