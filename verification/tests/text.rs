use murl::path::path_is_absolute;
use murl::text::{begins_with, find_first, is_one_of, text_of, to_chars};

#[test]
fn characters_of_a_text() {
    assert_eq!(to_chars("aé京"), vec!['a', 'é', '京']);
    assert_eq!(to_chars(""), Vec::<char>::new());
}

#[test]
fn text_of_a_range() {
    let chars = to_chars("héllo wörld");
    assert_eq!(text_of(&chars, 0, 5), "héllo");
    assert_eq!(text_of(&chars, 6, 11), "wörld");
    assert_eq!(text_of(&chars, 3, 3), "");
}

#[test]
fn first_delimiter_is_found() {
    let chars = to_chars("example.com:80/path");
    assert_eq!(find_first(&chars, 0, chars.len(), "/.:"), 7);
    assert_eq!(find_first(&chars, 0, chars.len(), "/:"), 11);
    assert_eq!(find_first(&chars, 0, chars.len(), "/"), 14);
    assert_eq!(find_first(&chars, 8, chars.len(), "/.:"), 11);
    assert_eq!(find_first(&chars, 7, chars.len(), "."), 7);
}

#[test]
fn missing_delimiter_gives_the_end() {
    let chars = to_chars("example.com:80/path");
    assert_eq!(find_first(&chars, 0, chars.len(), "?#"), chars.len());
    assert_eq!(find_first(&chars, 0, 7, "/:"), 7);
    assert_eq!(find_first(&chars, 0, 5, "."), 5);
    assert_eq!(find_first(&chars, 4, 4, "."), 4);
    assert_eq!(find_first(&chars, 0, chars.len(), ""), chars.len());
}

#[test]
fn membership_in_the_delimiters() {
    let stops = to_chars("/.:");
    assert!(is_one_of('/', &stops));
    assert!(is_one_of(':', &stops));
    assert!(!is_one_of('a', &stops));
    assert!(!is_one_of('/', &Vec::new()));
}

#[test]
fn beginning_of_a_text() {
    let chars = to_chars("https://example");
    assert!(begins_with(&chars, 0, "https"));
    assert!(begins_with(&chars, 0, "http"));
    assert!(begins_with(&chars, 0, ""));
    assert!(begins_with(&chars, 5, "://"));
    assert!(!begins_with(&chars, 4, "://"));
    assert!(!begins_with(&chars, 0, "wss"));
    assert!(!begins_with(&chars, 12, "plexxx"));
    assert!(begins_with(&chars, 15, ""));
    assert!(!begins_with(&chars, 15, "x"));
}

#[test]
fn absolute_paths_begin_with_a_slash() {
    assert!(path_is_absolute("/"));
    assert!(path_is_absolute("/some/path"));
    assert!(!path_is_absolute(""));
    assert!(!path_is_absolute("some/path"));
    assert!(!path_is_absolute("é/"));
    assert!(!path_is_absolute(" /"));
}
