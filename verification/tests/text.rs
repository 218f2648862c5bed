use puzzle_solvers::text::{
    digit_of, digit_to_char, find, is_ascii_punctuation, is_decimal, is_space, starts_with_word,
    to_chars,
};

#[test]
fn decimal_digits() {
    for c in "0123456789".chars() {
        assert!(is_decimal(&c));
    }
    for c in "/:aA_ .٣".chars() {
        assert!(!is_decimal(&c));
    }
}

#[test]
fn digit_values() {
    assert_eq!(digit_of('0'), 0);
    assert_eq!(digit_of('7'), 7);
    assert_eq!(digit_of('9'), 9);
}

#[test]
fn digit_characters() {
    assert_eq!(digit_to_char(0), '0');
    assert_eq!(digit_to_char(4), '4');
    assert_eq!(digit_to_char(9), '9');
    for d in 0..=9 {
        assert_eq!(digit_of(digit_to_char(d)), d);
    }
}

#[test]
fn punctuation_is_what_std_calls_ascii_punctuation() {
    for code in 0u32..0x250 {
        if let Some(c) = char::from_u32(code) {
            assert_eq!(is_ascii_punctuation(c), c.is_ascii_punctuation());
        }
    }
}

#[test]
fn blanks_are_space_and_tab() {
    assert!(is_space(' '));
    assert!(is_space('\t'));
    assert!(!is_space('\n'));
    assert!(!is_space('\r'));
    assert!(!is_space('x'));
}

#[test]
fn characters_of_a_text() {
    assert_eq!(to_chars(""), Vec::<char>::new());
    assert_eq!(to_chars("a\u{e9}\n"), vec!['a', '\u{e9}', '\n']);
}

#[test]
fn words_in_a_text() {
    let text = to_chars("one two");
    assert!(starts_with_word(&text, 0, &to_chars("one")));
    assert!(starts_with_word(&text, 4, &to_chars("two")));
    assert!(!starts_with_word(&text, 4, &to_chars("twos")));
    assert!(!starts_with_word(&text, 1, &to_chars("one")));
    assert!(starts_with_word(&text, 7, &to_chars("")));
    assert!(!starts_with_word(&text, 8, &to_chars("")));
    assert!(!starts_with_word(&text, 5, &to_chars("wo three")));
}

#[test]
fn first_place_of_a_character() {
    let text = to_chars("a:b:c");
    assert_eq!(find(&text, ':', 0), 1);
    assert_eq!(find(&text, ':', 1), 1);
    assert_eq!(find(&text, ':', 2), 3);
    assert_eq!(find(&text, ':', 4), 5);
    assert_eq!(find(&text, 'x', 0), 5);
    assert_eq!(find(&text, ':', 5), 5);
    assert_eq!(find(&text, ':', 9), 9);
}
