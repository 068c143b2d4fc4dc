//! What reading a URL from a text always does: how a missing or relative path
//! is refused, what becomes of a missing query and of an empty fragment, and
//! which value a key of the query keeps.

use crate::host::{host_stops, parse_host};
use crate::path::is_absolute;
use crate::percent::{decode_text, lemma_decode_empty, lemma_decode_keeps_slash};
use crate::query::{insert_entry, lemma_lookup_insert, lookup, Entry};
use crate::text::{first_in, lemma_first_in, lemma_first_in_unique, none_in, pieces};
use crate::url::{
    collect_pairs, digit_stops, parse_authority, parse_pair, parse_query, parse_url, split_parts,
    UrlParsingError, UrlView,
};
use vstd::prelude::*;

verus! {

/// A text whose scheme, host and port are read, and that has nothing for a
/// path after them, is refused for its missing path.
pub proof fn lemma_missing_path(input: Seq<char>)
    requires
        parse_authority(input) is Ok,
        split_parts(parse_authority(input)->Ok_0.rest).0.len() == 0,
    ensures
        parse_url(input) == Err::<UrlView, UrlParsingError>(UrlParsingError::MissingPath),
{
}

/// A text whose scheme, host and port are read, and whose path stands for a
/// text that does not begin with `/`, is refused for its relative path.
pub proof fn lemma_path_not_absolute(input: Seq<char>)
    requires
        parse_authority(input) is Ok,
        split_parts(parse_authority(input)->Ok_0.rest).0.len() > 0,
        decode_text(split_parts(parse_authority(input)->Ok_0.rest).0) matches Some(path)
            && !is_absolute(path),
    ensures
        parse_url(input) == Err::<UrlView, UrlParsingError>(UrlParsingError::PathNotAbsolute),
{
}

/// A text without a port is never refused for a relative path: its path
/// begins where the host ends, which is at `/` or at the end of the text.
pub proof fn lemma_relative_path_needs_port(input: Seq<char>)
    requires
        parse_authority(input) is Ok,
        parse_authority(input)->Ok_0.port is None,
    ensures
        parse_url(input) != Err::<UrlView, UrlParsingError>(UrlParsingError::PathNotAbsolute),
{
    let (scheme, after_word) = crate::scheme::Scheme::parse_spec(input)->0;
    let after_scheme = after_word.skip(3);
    lemma_first_in(after_scheme, host_stops());
    let rest = parse_authority(input)->Ok_0.rest;
    let (host, after_host) = parse_host(after_scheme)->Ok_0;
    assert(rest == after_host);
    if rest.len() > 0 {
        assert(rest[0] == after_scheme[first_in(after_scheme, host_stops())]);
        assert(rest[0] == '/');
        lemma_first_in(rest, set!['?', '#']);
        let raw_path = split_parts(rest).0;
        assert(raw_path.len() > 0);
        assert(raw_path[0] == rest[0]);
        if decode_text(raw_path) is Some {
            lemma_decode_keeps_slash(raw_path);
        }
    }
}

/// What follows the scheme, the host and the port is an end of the text.
pub proof fn lemma_rest_is_an_end(input: Seq<char>)
    requires
        parse_authority(input) is Ok,
    ensures
        exists|k: int|
            0 <= k <= input.len() && parse_authority(input)->Ok_0.rest == #[trigger] input.skip(k),
{
    let (scheme, after_word) = crate::scheme::Scheme::parse_spec(input)->0;
    let w = scheme.text().len() as int;
    crate::scheme::lemma_read_scheme_is_prefix(input);
    let after_scheme = after_word.skip(3);
    assert(after_scheme =~= input.skip(w + 3));
    lemma_first_in(after_scheme, host_stops());
    let n = first_in(after_scheme, host_stops());
    let (host, after_host) = parse_host(after_scheme)->Ok_0;
    assert(after_host =~= input.skip(w + 3 + n));
    let rest = parse_authority(input)->Ok_0.rest;
    if after_host.len() > 0 && after_host[0] == ':' {
        let digits = after_host.skip(1);
        lemma_first_in(digits, digit_stops());
        let m = first_in(digits, digit_stops());
        assert(rest =~= input.skip(w + 3 + n + 1 + m));
    } else {
        assert(rest == input.skip(w + 3 + n));
    }
}

/// A text without `?` stands for a URL without query entries, if it stands
/// for a URL.
pub proof fn lemma_no_mark_no_query(input: Seq<char>)
    requires
        none_in(input, set!['?']),
        parse_url(input) is Ok,
    ensures
        parse_url(input)->Ok_0.query == Seq::<Entry>::empty(),
{
    lemma_rest_is_an_end(input);
    let rest = parse_authority(input)->Ok_0.rest;
    let k = choose|k: int| 0 <= k <= input.len() && rest == #[trigger] input.skip(k);
    lemma_first_in(rest, set!['?', '#']);
    let i = first_in(rest, set!['?', '#']);
    if i < rest.len() {
        assert(rest[i] == input[k + i]);
        assert(rest[i] == '#');
    }
    assert(split_parts(rest).1 =~= Seq::<char>::empty());
}

/// A text that ends in a bare `#`, its only one, stands for a URL without a
/// fragment, if it stands for a URL.
pub proof fn lemma_bare_hash(base: Seq<char>)
    requires
        none_in(base, set!['#']),
        parse_url(base.push('#')) is Ok,
    ensures
        parse_url(base.push('#'))->Ok_0.fragment is None,
{
    let input = base.push('#');
    lemma_rest_is_an_end(input);
    let rest = parse_authority(input)->Ok_0.rest;
    let k = choose|k: int| 0 <= k <= input.len() && rest == #[trigger] input.skip(k);
    let last = rest.len() - 1;
    lemma_first_in(rest, set!['?', '#']);
    let i = first_in(rest, set!['?', '#']);
    assert(rest.len() > 0);
    assert(rest[last] == input[k + last]);
    assert forall|j: int| 0 <= j < last implies rest[j] != '#' by {
        assert(rest[j] == base[k + j]);
    }
    if i < last {
        let after = rest.skip(i + 1);
        assert(after[last - i - 1] == rest[last]);
        assert forall|j: int| 0 <= j < last - i - 1 implies !set!['#'].contains(
            #[trigger] after[j],
        ) by {
            assert(after[j] == rest[i + 1 + j]);
        }
        lemma_first_in_unique(after, set!['#'], last - i - 1);
        assert(after.skip(last - i) =~= Seq::<char>::empty());
    } else {
        assert(rest.skip(i + 1) =~= Seq::<char>::empty());
    }
    assert(split_parts(rest).2 =~= Seq::<char>::empty());
    lemma_decode_empty();
}

/// A URL that was read has no fragment rather than an empty one.
pub proof fn lemma_no_empty_fragment(input: Seq<char>)
    requires
        parse_url(input) is Ok,
    ensures
        parse_url(input)->Ok_0.fragment matches Some(fragment) ==> fragment.len() > 0,
{
}

/// The value that the last of `pieces` with the key `key` gives it.
pub open spec fn last_value(pieces: Seq<Seq<char>>, key: Seq<char>) -> Option<Seq<char>>
    decreases pieces.len(),
{
    if pieces.len() == 0 {
        None
    } else {
        match last_value(pieces.skip(1), key) {
            Some(value) => Some(value),
            None => match parse_pair(pieces[0]) {
                Some((k, value)) => if k == key {
                    Some(value)
                } else {
                    None
                },
                None => None,
            },
        }
    }
}

/// After the pairs of some pieces were set, a key has the value that the last
/// piece with that key gave it, or the value that it had where no piece has
/// the key.
pub proof fn lemma_collect_last_wins(
    pieces: Seq<Seq<char>>,
    entries: Seq<Entry>,
    key: Seq<char>,
)
    requires
        collect_pairs(pieces, entries) is Some,
    ensures
        lookup(collect_pairs(pieces, entries)->0, key) == match last_value(pieces, key) {
            Some(value) => Some(value),
            None => lookup(entries, key),
        },
    decreases pieces.len(),
{
    if pieces.len() > 0 {
        let pair = parse_pair(pieces[0])->0;
        lemma_lookup_insert(entries, pair.0, pair.1, key);
        lemma_collect_last_wins(pieces.skip(1), insert_entry(entries, pair.0, pair.1), key);
    }
}

/// Of the values that a raw query gives to one key, the last stays: a key of
/// the query that was read has the value of the last piece with that key, and
/// the query has no other keys.
pub proof fn lemma_last_pair_wins(raw: Seq<char>, key: Seq<char>)
    requires
        parse_query(raw) is Some,
    ensures
        lookup(parse_query(raw)->0, key) == last_value(pieces(raw, '&'), key),
{
    lemma_collect_last_wins(pieces(raw, '&'), Seq::empty(), key);
}

} // verus!
