use camino::Utf8PathBuf;
use murl::{
    Host, HostError, Label, LabelError, Query, Scheme, SchemeParsingError, Url, UrlParsingError,
};
use std::str::FromStr;

fn query_of(pairs: &[(&str, &str)]) -> Query {
    let mut query = Query::new();
    for (key, value) in pairs {
        query.insert(key.to_string(), value.to_string());
    }
    query
}

#[test]
fn test_parsing() {
    let mut url = Url {
        scheme: Scheme::Https,
        host: Host {
            name: Label::from_str("some_host").unwrap(),
            domains: vec![
                Label::from_str("a").unwrap(),
                Label::from_str("b").unwrap(),
                Label::from_str("c").unwrap(),
            ],
        },
        port: Some(123),
        path: Utf8PathBuf::from_str("/some/path/path_question_mark?path_question_mark")
            .unwrap()
            .into_string(),
        query: query_of(&[
            ("space space", "ampersand&ampersand"),
            ("equals=equals", "hashtag#hashtag"),
        ]),
        fragment: Some("inner_fragment".into()),
    };

    let url_param = Url {
        scheme: Scheme::Https,
        host: Host { name: Label::from_str("param_host").unwrap(), domains: vec![] },
        port: Some(123),
        path: Utf8PathBuf::from_str("/some/path/param_question_mark?param_question_mark")
            .unwrap()
            .into_string(),
        query: query_of(&[
            ("space space", "ampersand&ampersand"),
            ("equals=equals", "hashtag#hashtag"),
        ]),
        fragment: Some("inner_fragment".into()),
    };

    url.query.insert("some_url".to_owned(), url_param.to_string());

    let raw: String = url.to_string();
    let parsed = Url::from_str(&raw).unwrap();

    println!("orig: {url}", url = url.to_string());
    println!("pars: {parsed}", parsed = parsed.to_string());

    assert_eq!(url, parsed);

    let parsed_url_param = Url::from_str(parsed.query.get("some_url").unwrap()).unwrap();
    assert_eq!(url_param, parsed_url_param);
}

fn label(text: &str) -> Label {
    Label::from_str(text).unwrap()
}

fn pairs(query: &Query) -> Vec<(String, String)> {
    let mut all = Vec::new();
    for index in 0..query.len() {
        let (key, value) = query.entry(index);
        all.push((key.to_string(), value.to_string()));
    }
    all
}

fn pair(key: &str, value: &str) -> (String, String) {
    (key.to_string(), value.to_string())
}

#[test]
fn concrete_url_is_read() {
    let url = Url::from_str("https://some_host.a.b.c:123/some/path?b=2&a=1#frag").unwrap();
    assert_eq!(url.scheme, Scheme::Https);
    assert_eq!(url.host.name, label("some_host"));
    assert_eq!(url.host.domains, vec![label("a"), label("b"), label("c")]);
    assert_eq!(url.port, Some(123));
    assert_eq!(url.path, "/some/path");
    assert_eq!(pairs(&url.query), vec![pair("a", "1"), pair("b", "2")]);
    assert_eq!(url.query.get("a"), Some(&"1".to_string()));
    assert_eq!(url.query.get("b"), Some(&"2".to_string()));
    assert_eq!(url.fragment, Some("frag".to_string()));
}

#[test]
fn concrete_url_is_written_with_keys_in_order() {
    let url = Url::from_str("https://some_host.a.b.c:123/some/path?b=2&a=1#frag").unwrap();
    assert_eq!(url.to_string(), "https://some_host.a.b.c:123/some/path?a=1&b=2#frag");
}

#[test]
fn url_with_keys_in_order_is_written_as_it_was_read() {
    let text = "https://some_host.a.b.c:123/some/path?a=1&b=2#frag";
    assert_eq!(Url::from_str(text).unwrap().to_string(), text);
}

#[test]
fn url_with_one_key_is_read() {
    let url = Url::from_str("http://example.com/some/path?a=123").unwrap();
    let expected = Url {
        scheme: Scheme::Http,
        host: Host { name: label("example"), domains: vec![label("com")] },
        port: None,
        path: "/some/path".to_string(),
        query: query_of(&[("a", "123")]),
        fragment: None,
    };
    assert_eq!(url, expected);
}

#[test]
fn later_occurrence_of_a_key_stays() {
    let url = Url::from_str("http://example.com/path?a=1&a=2").unwrap();
    assert_eq!(url.query.get("a"), Some(&"2".to_string()));
    assert_eq!(url.query.len(), 1);
    let url = Url::from_str("http://example.com/path?a=1&b=3&a=2&b=4&a=5").unwrap();
    assert_eq!(pairs(&url.query), vec![pair("a", "5"), pair("b", "4")]);
}

#[test]
fn keys_that_stand_for_the_same_text_are_one_key() {
    let url = Url::from_str("http://example.com/path?a%20b=1&a b=2&%61%20b=3").unwrap();
    assert_eq!(pairs(&url.query), vec![pair("a b", "3")]);
}

#[test]
fn bare_hash_leaves_no_fragment() {
    let url = Url::from_str("http://example.com/path#").unwrap();
    assert_eq!(url.fragment, None);
    let url = Url::from_str("http://example.com/path?a=1#").unwrap();
    assert_eq!(url.fragment, None);
    assert_eq!(url.query.get("a"), Some(&"1".to_string()));
}

#[test]
fn url_without_hash_has_no_fragment() {
    let url = Url::from_str("http://example.com/path?a=1").unwrap();
    assert_eq!(url.fragment, None);
}

#[test]
fn fragment_is_decoded() {
    let url = Url::from_str("http://example.com/path#a%20b%23c").unwrap();
    assert_eq!(url.fragment, Some("a b#c".to_string()));
}

#[test]
fn fragment_runs_to_the_end() {
    let url = Url::from_str("http://example.com/path#frag?x=1#y").unwrap();
    assert_eq!(url.fragment, Some("frag?x=1#y".to_string()));
    assert!(url.query.is_empty());
    let url = Url::from_str("http://example.com/path?a=1#frag?x=1#y").unwrap();
    assert_eq!(url.fragment, Some("frag?x=1#y".to_string()));
    assert_eq!(pairs(&url.query), vec![pair("a", "1")]);
}

#[test]
fn query_runs_to_the_first_hash() {
    let url = Url::from_str("http://example.com/path?a=1?b=2#f").unwrap();
    assert_eq!(pairs(&url.query), vec![pair("a", "1?b=2")]);
    assert_eq!(url.fragment, Some("f".to_string()));
}

#[test]
fn url_without_path_is_refused() {
    assert_eq!(Url::from_str("http://example.com"), Err(UrlParsingError::MissingPath));
    assert_eq!(Url::from_str("wss://a"), Err(UrlParsingError::MissingPath));
    assert_eq!(Url::from_str("http://example.com:80?a=1"), Err(UrlParsingError::MissingPath));
    assert_eq!(Url::from_str("http://example.com:80#f"), Err(UrlParsingError::MissingPath));
}

#[test]
fn port_that_reaches_the_end_leaves_no_path() {
    assert_eq!(Url::from_str("http://example.com:80"), Err(UrlParsingError::MissingPath));
    assert_eq!(Url::from_str("http://example.com:"), Err(UrlParsingError::MissingPath));
    assert_eq!(Url::from_str("http://example.com:99999"), Err(UrlParsingError::MissingPath));
    assert_eq!(Url::from_str("http://example.com:٣"), Err(UrlParsingError::MissingPath));
}

#[test]
fn relative_path_is_refused() {
    assert_eq!(Url::from_str("http://example.com:80foo"), Err(UrlParsingError::PathNotAbsolute));
    assert_eq!(
        Url::from_str("http://example.com:80some/path?a=1"),
        Err(UrlParsingError::PathNotAbsolute)
    );
    assert_eq!(Url::from_str("http://example.com:80%41"), Err(UrlParsingError::PathNotAbsolute));
    assert_eq!(Url::from_str("http://example.com:80 /x"), Err(UrlParsingError::PathNotAbsolute));
}

#[test]
fn text_after_the_host_without_slash_belongs_to_the_host() {
    assert_eq!(Url::from_str("http://example.comfoo"), Err(UrlParsingError::MissingPath));
    let url = Url::from_str("http://example.comfoo/bar").unwrap();
    assert_eq!(url.host.domains, vec![label("comfoo")]);
    assert_eq!(url.path, "/bar");
    assert_eq!(
        Url::from_str("http://example.com%2Ffoo"),
        Err(UrlParsingError::HostError(HostError::LabelError(LabelError::ContainsInvalidChar)))
    );
}

#[test]
fn escaped_slash_makes_the_path_absolute() {
    let url = Url::from_str("http://example.com:80%2Ffoo").unwrap();
    assert_eq!(url.port, Some(80));
    assert_eq!(url.path, "/foo");
}

#[test]
fn unknown_scheme_is_a_scheme_error() {
    assert_eq!(
        Url::from_str("ftp://example.com/"),
        Err(UrlParsingError::SchemeParsingError(SchemeParsingError))
    );
    assert_eq!(Url::from_str(""), Err(UrlParsingError::SchemeParsingError(SchemeParsingError)));
}

#[test]
fn missing_separator_is_refused() {
    assert_eq!(Url::from_str("http:/example.com/"), Err(UrlParsingError::MissingSeparator));
    assert_eq!(Url::from_str("http:example.com/"), Err(UrlParsingError::MissingSeparator));
    assert_eq!(Url::from_str("http//example.com/"), Err(UrlParsingError::MissingSeparator));
    assert_eq!(Url::from_str("http"), Err(UrlParsingError::MissingSeparator));
    assert_eq!(Url::from_str("https:/"), Err(UrlParsingError::MissingSeparator));
    assert_eq!(Url::from_str("wsss://a/"), Err(UrlParsingError::MissingSeparator));
}

#[test]
fn bad_host_is_a_host_error() {
    assert_eq!(
        Url::from_str("http://1x/"),
        Err(UrlParsingError::HostError(HostError::LabelError(LabelError::FirstCharNotAlphabetic)))
    );
    assert_eq!(
        Url::from_str("http://vm1.example.com/"),
        Err(UrlParsingError::HostError(HostError::LabelError(LabelError::ContainsInvalidChar)))
    );
    assert_eq!(
        Url::from_str("http://a..b/"),
        Err(UrlParsingError::HostError(HostError::LabelError(LabelError::Empty)))
    );
    assert_eq!(
        Url::from_str("http://example.com?a=1"),
        Err(UrlParsingError::HostError(HostError::LabelError(LabelError::ContainsInvalidChar)))
    );
}

#[test]
fn empty_host_is_a_host_error() {
    assert_eq!(Url::from_str("http:///path"), Err(UrlParsingError::HostError(HostError::NoLabels)));
    assert_eq!(Url::from_str("http://"), Err(UrlParsingError::HostError(HostError::NoLabels)));
    assert_eq!(Url::from_str("http://:80/"), Err(UrlParsingError::HostError(HostError::NoLabels)));
}

#[test]
fn garbled_port_is_refused() {
    assert_eq!(Url::from_str("http://example.com:/path"), Err(UrlParsingError::GarbledPort));
    assert_eq!(Url::from_str("http://example.com:65536/"), Err(UrlParsingError::GarbledPort));
    assert_eq!(Url::from_str("http://example.com:99999/"), Err(UrlParsingError::GarbledPort));
    assert_eq!(Url::from_str("http://example.com:٣/path"), Err(UrlParsingError::GarbledPort));
    assert_eq!(Url::from_str("http://example.com:8٣/path"), Err(UrlParsingError::GarbledPort));
    assert_eq!(Url::from_str("http://example.com:x/path"), Err(UrlParsingError::GarbledPort));
    assert_eq!(Url::from_str("http://example.com:+80/"), Err(UrlParsingError::GarbledPort));
    assert_eq!(Url::from_str("http://example.com::80/"), Err(UrlParsingError::GarbledPort));
}

#[test]
fn port_is_read() {
    assert_eq!(Url::from_str("http://example.com:80/").unwrap().port, Some(80));
    assert_eq!(Url::from_str("http://example.com:0/").unwrap().port, Some(0));
    assert_eq!(Url::from_str("http://example.com:65535/").unwrap().port, Some(65535));
    assert_eq!(Url::from_str("http://example.com:0080/").unwrap().port, Some(80));
    assert_eq!(Url::from_str("http://example.com/").unwrap().port, None);
}

#[test]
fn what_is_not_utf8_is_refused() {
    assert_eq!(Url::from_str("http://example.com/%ff"), Err(UrlParsingError::CantDecode));
    assert_eq!(Url::from_str("http://example.com/p?%ff=1"), Err(UrlParsingError::CantDecode));
    assert_eq!(Url::from_str("http://example.com/p?k=%ff"), Err(UrlParsingError::CantDecode));
    assert_eq!(Url::from_str("http://example.com/p?a=1&k=%C3"), Err(UrlParsingError::CantDecode));
    assert_eq!(Url::from_str("http://example.com/p#%ff"), Err(UrlParsingError::CantDecode));
    assert_eq!(Url::from_str("http://example.com:80%ff"), Err(UrlParsingError::CantDecode));
}

#[test]
fn path_is_judged_before_query_and_fragment() {
    assert_eq!(Url::from_str("http://example.com:80x?k=%ff"), Err(UrlParsingError::PathNotAbsolute));
    assert_eq!(Url::from_str("http://example.com:80?k=%ff"), Err(UrlParsingError::MissingPath));
    assert_eq!(Url::from_str("http://example.com:80#%ff"), Err(UrlParsingError::MissingPath));
}

#[test]
fn earlier_stage_decides_the_error() {
    assert_eq!(
        Url::from_str("ftp:/1x:99999"),
        Err(UrlParsingError::SchemeParsingError(SchemeParsingError))
    );
    assert_eq!(Url::from_str("http:/1x:99999"), Err(UrlParsingError::MissingSeparator));
    assert_eq!(
        Url::from_str("http://1x:99999"),
        Err(UrlParsingError::HostError(HostError::LabelError(LabelError::FirstCharNotAlphabetic)))
    );
    assert_eq!(Url::from_str("http://x:99999/%ff"), Err(UrlParsingError::GarbledPort));
}

#[test]
fn path_is_decoded() {
    let url = Url::from_str("http://example.com/some%20path/%C3%A9%3Fx").unwrap();
    assert_eq!(url.path, "/some path/é?x");
    let url = Url::from_str("http://example.com/é/京").unwrap();
    assert_eq!(url.path, "/é/京");
}

#[test]
fn url_without_query_has_no_entries() {
    let url = Url::from_str("http://example.com/some/path").unwrap();
    let expected = Url {
        scheme: Scheme::Http,
        host: Host { name: label("example"), domains: vec![label("com")] },
        port: None,
        path: "/some/path".to_string(),
        query: Query::new(),
        fragment: None,
    };
    assert_eq!(url, expected);
    assert!(url.query.is_empty());
    assert_eq!(url.query.len(), 0);
    assert_eq!(url.query.get(""), None);
}

#[test]
fn url_with_fragment_and_no_query_has_no_entries() {
    let url = Url::from_str("http://example.com/some/path#frag").unwrap();
    assert!(url.query.is_empty());
    assert_eq!(url.fragment, Some("frag".to_string()));
    let url = Url::from_str("http://example.com:80/#").unwrap();
    assert!(url.query.is_empty());
    assert_eq!(url.fragment, None);
}

#[test]
fn empty_query_after_the_mark_has_no_entries() {
    let url = Url::from_str("http://example.com/some/path?").unwrap();
    assert!(url.query.is_empty());
    assert_eq!(url, Url::from_str("http://example.com/some/path").unwrap());
    let url = Url::from_str("http://example.com/some/path?#f").unwrap();
    assert!(url.query.is_empty());
    assert_eq!(url.fragment, Some("f".to_string()));
}

#[test]
fn lone_separators_in_the_query_set_the_empty_key() {
    let url = Url::from_str("http://example.com/p?&").unwrap();
    assert_eq!(pairs(&url.query), vec![pair("", "")]);
    let url = Url::from_str("http://example.com/p?=").unwrap();
    assert_eq!(pairs(&url.query), vec![pair("", "")]);
}

#[test]
fn url_made_without_query_is_read_back_as_itself() {
    for fragment in [None, Some("frag".to_string())] {
        for port in [None, Some(8080)] {
            let url = Url {
                scheme: Scheme::Https,
                host: Host { name: label("example"), domains: vec![label("com")] },
                port,
                path: "/some path/é".to_string(),
                query: Query::new(),
                fragment: fragment.clone(),
            };
            assert_eq!(Url::from_str(&url.to_string()), Ok(url));
        }
    }
}

#[test]
fn piece_without_equals_has_an_empty_value() {
    let url = Url::from_str("http://example.com/p?x").unwrap();
    assert_eq!(pairs(&url.query), vec![pair("x", "")]);
    let url = Url::from_str("http://example.com/p?x&y=1").unwrap();
    assert_eq!(pairs(&url.query), vec![pair("x", ""), pair("y", "1")]);
}

#[test]
fn piece_is_cut_at_its_first_equals() {
    let url = Url::from_str("http://example.com/p?x=1=2").unwrap();
    assert_eq!(pairs(&url.query), vec![pair("x", "1=2")]);
    let url = Url::from_str("http://example.com/p?=v").unwrap();
    assert_eq!(pairs(&url.query), vec![pair("", "v")]);
    let url = Url::from_str("http://example.com/p?k=").unwrap();
    assert_eq!(pairs(&url.query), vec![pair("k", "")]);
}

#[test]
fn empty_pieces_set_the_empty_key() {
    let url = Url::from_str("http://example.com/p?a=1&&b=2").unwrap();
    assert_eq!(pairs(&url.query), vec![pair("", ""), pair("a", "1"), pair("b", "2")]);
    let url = Url::from_str("http://example.com/p?a=1&").unwrap();
    assert_eq!(pairs(&url.query), vec![pair("", ""), pair("a", "1")]);
}

#[test]
fn query_is_decoded_after_it_is_split() {
    let url = Url::from_str("http://example.com/p?a%26b=c%3Dd&e=%23").unwrap();
    assert_eq!(pairs(&url.query), vec![pair("a&b", "c=d"), pair("e", "#")]);
}

#[test]
fn every_scheme_is_read() {
    assert_eq!(Url::from_str("wss://a/").unwrap().scheme, Scheme::Wss);
    assert_eq!(Url::from_str("ws://a/").unwrap().scheme, Scheme::Ws);
    assert_eq!(Url::from_str("https://a/").unwrap().scheme, Scheme::Https);
    assert_eq!(Url::from_str("http://a/").unwrap().scheme, Scheme::Http);
}

#[test]
fn host_beginning_with_s_after_ws_makes_wss() {
    assert_eq!(Url::from_str("wss.example/"), Err(UrlParsingError::MissingSeparator));
    assert_eq!(Url::from_str("https.example/"), Err(UrlParsingError::MissingSeparator));
}

#[test]
fn read_url_is_read_again_from_its_text() {
    for text in [
        "https://some_host.a.b.c:123/some/path?b=2&a=1#frag",
        "http://example.com/some/path",
        "http://example.com/some/path?",
        "http://example.com/p?a=1&&b=2#",
        "http://example.com/p#frag",
        "http://example.com/p?#frag",
        "http://example.com/p?=",
        "http://example.com:1/",
        "ws://münchen.de:0080/é%20/京?ключ=значение&k=%26%3D%23%25#%F0%9F%92%96",
        "wss://a/%25%32%35?%25=%25#%25",
        "http://a:1%2F",
        "http://a/p#frag?x=1#y",
        "http://a//double//slash/",
    ] {
        let url = Url::from_str(text).unwrap();
        assert_eq!(Url::from_str(&url.to_string()), Ok(url.clone()));
        assert_eq!(Url::from_str(&url.to_string()).unwrap().to_string(), url.to_string());
    }
}

#[test]
fn url_nested_in_a_value_is_read_back() {
    let inner = Url::from_str("https://inner.host:1/p?k=v%20w&u=%3F#f").unwrap();
    let mut middle = Url::from_str("http://middle.host/m?x=1#g").unwrap();
    middle.query.insert("inner".to_string(), inner.to_string());
    let mut outer = Url::from_str("wss://outer.host/o").unwrap();
    outer.query.insert("middle".to_string(), middle.to_string());
    outer.fragment = Some(middle.to_string());
    let read = Url::from_str(&outer.to_string()).unwrap();
    assert_eq!(read, outer);
    let read_middle = Url::from_str(read.query.get("middle").unwrap()).unwrap();
    assert_eq!(read_middle, middle);
    let read_inner = Url::from_str(read_middle.query.get("inner").unwrap()).unwrap();
    assert_eq!(read_inner, inner);
    assert_eq!(Url::from_str(read.fragment.as_ref().unwrap()).unwrap(), middle);
}

#[test]
fn url_clone_is_equal() {
    let url = Url::from_str("https://some_host.a.b.c:123/some/path?b=2&a=1#frag").unwrap();
    assert_eq!(url.clone(), url);
}

#[test]
fn stage_errors_become_url_errors() {
    assert_eq!(
        UrlParsingError::from(SchemeParsingError),
        UrlParsingError::SchemeParsingError(SchemeParsingError)
    );
    assert_eq!(
        UrlParsingError::from(HostError::NoLabels),
        UrlParsingError::HostError(HostError::NoLabels)
    );
}

#[test]
fn url_and_label_are_parsed_from_text() {
    let url: Url = "https://example.com:443/some/path?a=1#f".parse().unwrap();
    assert_eq!(url, Url::from_str("https://example.com:443/some/path?a=1#f").unwrap());
    assert_eq!("http://example.com".parse::<Url>(), Err(UrlParsingError::MissingPath));
    let parsed: Label = "example".parse().unwrap();
    assert_eq!(parsed, label("example"));
    assert_eq!("1abc".parse::<Label>(), Err(LabelError::FirstCharNotAlphabetic));
    assert_eq!(<Url as FromStr>::from_str("ws://a/").unwrap().scheme, Scheme::Ws);
    assert_eq!(<Label as FromStr>::from_str(""), Err(LabelError::Empty));
}
