use murl::{Label, LabelError};

#[test]
fn label_rejections_are_distinct() {
    assert_eq!(Label::parse("").unwrap_err(), LabelError::Empty);
    assert_eq!(Label::parse("1abc").unwrap_err(), LabelError::FirstCharNotAlphabetic);
    assert_eq!(Label::parse("ab$c").unwrap_err(), LabelError::ContainsInvalidChar);
}

#[test]
fn label_from_str_rejections() {
    assert_eq!(Label::from_str("").unwrap_err(), LabelError::Empty);
    assert_eq!(Label::from_str("1abc").unwrap_err(), LabelError::FirstCharNotAlphabetic);
    assert_eq!(Label::from_str("ab$c").unwrap_err(), LabelError::ContainsInvalidChar);
    assert_eq!(Label::from_str("_a").unwrap_err(), LabelError::FirstCharNotAlphabetic);
    assert_eq!(Label::from_str("-a").unwrap_err(), LabelError::FirstCharNotAlphabetic);
    assert_eq!(Label::from_str("$").unwrap_err(), LabelError::FirstCharNotAlphabetic);
    assert_eq!(Label::from_str("a.b").unwrap_err(), LabelError::ContainsInvalidChar);
    assert_eq!(Label::from_str("a b").unwrap_err(), LabelError::ContainsInvalidChar);
}

#[test]
fn label_holds_no_digits() {
    assert_eq!(Label::from_str("vm1").unwrap_err(), LabelError::ContainsInvalidChar);
    assert_eq!(Label::from_str("a1b").unwrap_err(), LabelError::ContainsInvalidChar);
    assert_eq!(Label::from_str("1").unwrap_err(), LabelError::FirstCharNotAlphabetic);
}

#[test]
fn label_accepts_letters_underscore_and_hyphen() {
    assert_eq!(Label::from_str("example").unwrap().as_str(), "example");
    assert_eq!(Label::from_str("some_host").unwrap().as_str(), "some_host");
    assert_eq!(Label::from_str("a-b_c").unwrap().as_str(), "a-b_c");
    assert_eq!(Label::from_str("A").unwrap().as_str(), "A");
    assert_eq!(Label::from_str("a_").unwrap().to_string(), "a_");
}

#[test]
fn label_accepts_letters_beyond_ascii() {
    assert_eq!(Label::from_str("münchen").unwrap().as_str(), "münchen");
    assert_eq!(Label::from_str("京").unwrap().as_str(), "京");
    assert_eq!(Label::from_str("é").unwrap().as_str(), "é");
}

#[test]
fn label_refuses_what_is_not_a_letter_beyond_ascii() {
    assert_eq!(Label::from_str("٣").unwrap_err(), LabelError::FirstCharNotAlphabetic);
    assert_eq!(Label::from_str("a💝").unwrap_err(), LabelError::ContainsInvalidChar);
    assert_eq!(Label::from_str("💝").unwrap_err(), LabelError::FirstCharNotAlphabetic);
}

#[test]
fn label_ends_at_the_first_delimiter() {
    let (label, rest) = Label::parse("example.com/x").unwrap();
    assert_eq!(label.as_str(), "example");
    assert_eq!(rest, ".com/x");
    let (label, rest) = Label::parse("host:80").unwrap();
    assert_eq!(label.as_str(), "host");
    assert_eq!(rest, ":80");
    let (label, rest) = Label::parse("a/b.c").unwrap();
    assert_eq!(label.as_str(), "a");
    assert_eq!(rest, "/b.c");
}

#[test]
fn label_without_delimiter_takes_all() {
    let (label, rest) = Label::parse("abc").unwrap();
    assert_eq!(label.as_str(), "abc");
    assert_eq!(rest, "");
}

#[test]
fn label_before_a_delimiter_may_be_empty_and_is_refused() {
    assert_eq!(Label::parse(".com").unwrap_err(), LabelError::Empty);
    assert_eq!(Label::parse("/").unwrap_err(), LabelError::Empty);
    assert_eq!(Label::parse(":").unwrap_err(), LabelError::Empty);
}

#[test]
fn label_error_is_that_of_the_text_before_the_delimiter() {
    assert_eq!(Label::parse("ab$c.com").unwrap_err(), LabelError::ContainsInvalidChar);
    assert_eq!(Label::parse("abc.c$m").unwrap().0.as_str(), "abc");
    assert_eq!(Label::parse("1.com").unwrap_err(), LabelError::FirstCharNotAlphabetic);
}

#[test]
fn label_with_letters_beyond_ascii_leaves_the_right_rest() {
    let (label, rest) = Label::parse("münchen.de").unwrap();
    assert_eq!(label.as_str(), "münchen");
    assert_eq!(rest, ".de");
}

#[test]
fn allowed_characters() {
    assert!(Label::char_is_allowed('a'));
    assert!(Label::char_is_allowed('Z'));
    assert!(Label::char_is_allowed('_'));
    assert!(Label::char_is_allowed('-'));
    assert!(Label::char_is_allowed('é'));
    assert!(!Label::char_is_allowed('1'));
    assert!(!Label::char_is_allowed('.'));
    assert!(!Label::char_is_allowed('/'));
    assert!(!Label::char_is_allowed(':'));
    assert!(!Label::char_is_allowed('$'));
    assert!(!Label::char_is_allowed(' '));
}

#[test]
fn label_clone_is_equal() {
    let label = Label::from_str("example").unwrap();
    assert_eq!(label.clone(), label);
}
