use murl::Query;
use std::collections::BTreeMap;

fn entries(query: &Query) -> Vec<(String, String)> {
    let mut all = Vec::new();
    for index in 0..query.len() {
        let (key, value) = query.entry(index);
        all.push((key.to_string(), value.to_string()));
    }
    all
}

#[test]
fn new_query_is_empty() {
    let query = Query::new();
    assert_eq!(query.len(), 0);
    assert!(query.is_empty());
    assert_eq!(query.get("a"), None);
}

#[test]
fn set_key_is_found() {
    let mut query = Query::new();
    query.insert("a".to_string(), "1".to_string());
    assert_eq!(query.len(), 1);
    assert!(!query.is_empty());
    assert_eq!(query.get("a"), Some(&"1".to_string()));
    assert_eq!(query.get("b"), None);
    assert_eq!(query.get(""), None);
}

#[test]
fn later_value_replaces_earlier() {
    let mut query = Query::new();
    query.insert("a".to_string(), "1".to_string());
    query.insert("b".to_string(), "x".to_string());
    query.insert("a".to_string(), "2".to_string());
    assert_eq!(query.len(), 2);
    assert_eq!(query.get("a"), Some(&"2".to_string()));
    assert_eq!(query.get("b"), Some(&"x".to_string()));
}

#[test]
fn entries_stand_in_key_order() {
    let mut query = Query::new();
    for key in ["b", "a", "c", "ab", "", "B"] {
        query.insert(key.to_string(), key.to_uppercase());
    }
    let keys: Vec<String> = entries(&query).into_iter().map(|pair| pair.0).collect();
    assert_eq!(keys, vec!["", "B", "a", "ab", "b", "c"]);
    assert_eq!(query.entry(1), ("B", "B"));
    assert_eq!(query.entry(3), ("ab", "AB"));
}

#[test]
fn key_order_is_that_of_strings() {
    let keys = [
        "", "a", "ab", "abc", "b", "B", "é", "e", "z", "京", "💖", "~", "\u{7f}", "\u{80}", "\u{7ff}",
        "\u{800}", "\u{ffff}", "\u{10000}", "a\u{10000}", "aé", "a ", " ", "0", "10", "9", "=", "&",
    ];
    let mut query = Query::new();
    let mut map = BTreeMap::new();
    for (index, key) in keys.iter().enumerate() {
        query.insert(key.to_string(), index.to_string());
        map.insert(key.to_string(), index.to_string());
    }
    let expected: Vec<(String, String)> = map.into_iter().collect();
    assert_eq!(entries(&query), expected);
}

#[test]
fn order_of_setting_does_not_matter() {
    let mut first = Query::new();
    first.insert("a".to_string(), "1".to_string());
    first.insert("b".to_string(), "2".to_string());
    let mut second = Query::new();
    second.insert("b".to_string(), "2".to_string());
    second.insert("a".to_string(), "0".to_string());
    second.insert("a".to_string(), "1".to_string());
    assert_eq!(first, second);
}

#[test]
fn queries_with_other_values_differ() {
    let mut first = Query::new();
    first.insert("a".to_string(), "1".to_string());
    let mut second = Query::new();
    second.insert("a".to_string(), "2".to_string());
    assert_ne!(first, second);
    assert_ne!(first, Query::new());
}

#[test]
fn every_key_is_found_again() {
    let mut query = Query::new();
    let keys = ["m", "c", "x", "a", "q", "é", "", "mm"];
    for key in keys {
        query.insert(key.to_string(), format!("v{key}"));
    }
    for key in keys {
        assert_eq!(query.get(key), Some(&format!("v{key}")));
    }
    for key in ["b", "n", "z", "mmm", " ", "e"] {
        assert_eq!(query.get(key), None);
    }
}

#[test]
fn query_clone_is_equal() {
    let mut query = Query::new();
    query.insert("b".to_string(), "2".to_string());
    query.insert("a".to_string(), "1".to_string());
    let copy = query.clone();
    assert_eq!(copy, query);
    assert_eq!(entries(&copy), entries(&query));
}

#[test]
fn removed_key_is_gone_and_its_value_returned() {
    let mut query = Query::new();
    query.insert("b".to_string(), "2".to_string());
    query.insert("a".to_string(), "1".to_string());
    query.insert("c".to_string(), "3".to_string());
    assert_eq!(query.remove("b"), Some("2".to_string()));
    assert_eq!(query.get("b"), None);
    assert_eq!(query.len(), 2);
    assert_eq!(entries(&query), vec![("a".to_string(), "1".to_string()), ("c".to_string(), "3".to_string())]);
    assert_eq!(query.remove("b"), None);
    assert_eq!(query.len(), 2);
}

#[test]
fn removing_a_key_that_is_not_there_changes_nothing() {
    let mut query = Query::new();
    assert_eq!(query.remove("a"), None);
    assert!(query.is_empty());
    query.insert("m".to_string(), "1".to_string());
    let before = query.clone();
    for key in ["", "a", "l", "mm", "n", "z"] {
        assert_eq!(query.remove(key), None);
        assert_eq!(query, before);
    }
}

#[test]
fn first_and_last_keys_are_removed() {
    let mut query = Query::new();
    for key in ["a", "b", "c", "d"] {
        query.insert(key.to_string(), key.to_uppercase());
    }
    assert_eq!(query.remove("a"), Some("A".to_string()));
    assert_eq!(query.remove("d"), Some("D".to_string()));
    assert_eq!(query.get("b"), Some(&"B".to_string()));
    assert_eq!(query.get("c"), Some(&"C".to_string()));
    assert_eq!(query.remove("c"), Some("C".to_string()));
    assert_eq!(query.remove("b"), Some("B".to_string()));
    assert!(query.is_empty());
    assert_eq!(query, Query::new());
}

#[test]
fn removed_key_can_be_set_again() {
    let mut query = Query::new();
    query.insert("k".to_string(), "1".to_string());
    assert_eq!(query.remove("k"), Some("1".to_string()));
    query.insert("k".to_string(), "2".to_string());
    assert_eq!(query.get("k"), Some(&"2".to_string()));
    assert_eq!(query.len(), 1);
}

#[test]
fn removal_follows_the_order_of_strings() {
    let keys = ["", "a", "ab", "B", "é", "e", "京", "💖", "\u{7f}", "\u{80}", "\u{ffff}", "\u{10000}"];
    let mut query = Query::new();
    let mut map = BTreeMap::new();
    for (index, key) in keys.iter().enumerate() {
        query.insert(key.to_string(), index.to_string());
        map.insert(key.to_string(), index.to_string());
    }
    for key in ["é", "", "\u{ffff}", "zz", "a"] {
        assert_eq!(query.remove(key), map.remove(key));
        let expected: Vec<(String, String)> = map.clone().into_iter().collect();
        assert_eq!(entries(&query), expected);
    }
}
