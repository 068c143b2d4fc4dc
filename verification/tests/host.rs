use murl::{Host, HostError, Label, LabelError};

fn labels(host: &Host) -> Vec<String> {
    let mut all = vec![host.name.to_string()];
    for domain in &host.domains {
        all.push(domain.to_string());
    }
    all
}

#[test]
fn host_with_domains_and_path() {
    let (host, rest) = Host::parse("example.com/path").unwrap();
    assert_eq!(labels(&host), vec!["example", "com"]);
    assert_eq!(rest, "/path");
}

#[test]
fn host_ends_at_the_port() {
    let (host, rest) = Host::parse("some_host.a.b.c:123/some/path").unwrap();
    assert_eq!(host.name, Label::from_str("some_host").unwrap());
    assert_eq!(
        host.domains,
        vec![
            Label::from_str("a").unwrap(),
            Label::from_str("b").unwrap(),
            Label::from_str("c").unwrap()
        ]
    );
    assert_eq!(rest, ":123/some/path");
}

#[test]
fn host_alone_leaves_nothing() {
    let (host, rest) = Host::parse("localhost").unwrap();
    assert_eq!(labels(&host), vec!["localhost"]);
    assert!(host.domains.is_empty());
    assert_eq!(rest, "");
}

#[test]
fn empty_host_text_has_no_labels() {
    assert_eq!(Host::parse("").unwrap_err(), HostError::NoLabels);
    assert_eq!(Host::parse("/path").unwrap_err(), HostError::NoLabels);
    assert_eq!(Host::parse(":80/path").unwrap_err(), HostError::NoLabels);
}

#[test]
fn empty_segment_is_refused() {
    assert_eq!(Host::parse("a..b").unwrap_err(), HostError::LabelError(LabelError::Empty));
    assert_eq!(Host::parse("a.").unwrap_err(), HostError::LabelError(LabelError::Empty));
    assert_eq!(Host::parse(".a").unwrap_err(), HostError::LabelError(LabelError::Empty));
    assert_eq!(Host::parse(".").unwrap_err(), HostError::LabelError(LabelError::Empty));
    assert_eq!(Host::parse("a./x").unwrap_err(), HostError::LabelError(LabelError::Empty));
}

#[test]
fn bad_segment_is_refused() {
    assert_eq!(
        Host::parse("a.1b").unwrap_err(),
        HostError::LabelError(LabelError::FirstCharNotAlphabetic)
    );
    assert_eq!(
        Host::parse("a.b$/x").unwrap_err(),
        HostError::LabelError(LabelError::ContainsInvalidChar)
    );
    assert_eq!(
        Host::parse("vm1.example.com").unwrap_err(),
        HostError::LabelError(LabelError::ContainsInvalidChar)
    );
}

#[test]
fn first_bad_segment_decides() {
    assert_eq!(
        Host::parse("1a.b$").unwrap_err(),
        HostError::LabelError(LabelError::FirstCharNotAlphabetic)
    );
    assert_eq!(
        Host::parse("a$.1b").unwrap_err(),
        HostError::LabelError(LabelError::ContainsInvalidChar)
    );
    assert_eq!(Host::parse("a..1b").unwrap_err(), HostError::LabelError(LabelError::Empty));
}

#[test]
fn what_follows_the_host_is_not_looked_at() {
    let (host, rest) = Host::parse("a.b/1$.").unwrap();
    assert_eq!(labels(&host), vec!["a", "b"]);
    assert_eq!(rest, "/1$.");
}

#[test]
fn host_is_written_with_dots() {
    let (host, _) = Host::parse("some_host.a.b.c:123").unwrap();
    assert_eq!(host.to_string(), "some_host.a.b.c");
    let (host, _) = Host::parse("localhost").unwrap();
    assert_eq!(host.to_string(), "localhost");
    let host = Host {
        name: Label::from_str("example").unwrap(),
        domains: vec![Label::from_str("com").unwrap()],
    };
    assert_eq!(host.to_string(), "example.com");
}

#[test]
fn written_host_is_read_back() {
    let host = Host {
        name: Label::from_str("münchen").unwrap(),
        domains: vec![Label::from_str("example").unwrap(), Label::from_str("de").unwrap()],
    };
    let text = format!("{}/path", host.to_string());
    let (read, rest) = Host::parse(&text).unwrap();
    assert_eq!(read, host);
    assert_eq!(rest, "/path");
}

#[test]
fn host_clone_is_equal() {
    let (host, _) = Host::parse("a.b.c").unwrap();
    assert_eq!(host.clone(), host);
}

#[test]
fn label_error_becomes_host_error() {
    assert_eq!(HostError::from(LabelError::Empty), HostError::LabelError(LabelError::Empty));
}
