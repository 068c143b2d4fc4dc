use murl::{Scheme, SchemeParsingError};

#[test]
fn wss_is_read_as_wss_never_as_ws() {
    assert_eq!(Scheme::parse("wss://example.com"), Ok((Scheme::Wss, "://example.com")));
}

#[test]
fn ws_is_read_as_ws() {
    assert_eq!(Scheme::parse("ws://example.com"), Ok((Scheme::Ws, "://example.com")));
}

#[test]
fn https_is_read_before_http() {
    assert_eq!(Scheme::parse("https://example.com"), Ok((Scheme::Https, "://example.com")));
    assert_eq!(Scheme::parse("http://example.com"), Ok((Scheme::Http, "://example.com")));
}

#[test]
fn scheme_word_alone_leaves_nothing() {
    assert_eq!(Scheme::parse("wss"), Ok((Scheme::Wss, "")));
    assert_eq!(Scheme::parse("ws"), Ok((Scheme::Ws, "")));
    assert_eq!(Scheme::parse("https"), Ok((Scheme::Https, "")));
    assert_eq!(Scheme::parse("http"), Ok((Scheme::Http, "")));
}

#[test]
fn scheme_is_a_prefix_only() {
    assert_eq!(Scheme::parse("wsx"), Ok((Scheme::Ws, "x")));
    assert_eq!(Scheme::parse("httpx://"), Ok((Scheme::Http, "x://")));
    assert_eq!(Scheme::parse("httpss"), Ok((Scheme::Https, "s")));
}

#[test]
fn unknown_scheme_is_refused() {
    assert_eq!(Scheme::parse("ftp://example.com"), Err(SchemeParsingError));
    assert_eq!(Scheme::parse(""), Err(SchemeParsingError));
    assert_eq!(Scheme::parse("w"), Err(SchemeParsingError));
    assert_eq!(Scheme::parse("htt"), Err(SchemeParsingError));
    assert_eq!(Scheme::parse(" http://a"), Err(SchemeParsingError));
    assert_eq!(Scheme::parse("HTTP://a"), Err(SchemeParsingError));
}

#[test]
fn scheme_words() {
    assert_eq!(Scheme::Wss.as_str(), "wss");
    assert_eq!(Scheme::Ws.as_str(), "ws");
    assert_eq!(Scheme::Https.as_str(), "https");
    assert_eq!(Scheme::Http.as_str(), "http");
    assert_eq!(Scheme::Https.to_string(), "https");
}

#[test]
fn scheme_word_is_read_back() {
    for scheme in [Scheme::Wss, Scheme::Ws, Scheme::Https, Scheme::Http] {
        let text = format!("{}://rest", scheme.as_str());
        assert_eq!(Scheme::parse(&text), Ok((scheme, "://rest")));
    }
}

#[test]
fn longer_words_are_tried_first() {
    assert_eq!(Scheme::variants(), [Scheme::Wss, Scheme::Ws, Scheme::Https, Scheme::Http]);
    let list = Scheme::variants();
    for (later, scheme) in list.iter().enumerate() {
        for earlier in &list[..later] {
            assert!(!scheme.as_str().starts_with(earlier.as_str()));
        }
    }
}
