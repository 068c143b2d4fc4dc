//! What is written for a URL is read back as that URL.

use crate::host::{lemma_host_read_back, lemma_parsed_host_valid};
use crate::percent::{
    encode_text, lemma_decode_empty, lemma_decode_encode, lemma_encode_keeps_slash,
    lemma_encoded_keeps_clear, reserved,
};
use crate::port::{decimal_text, lemma_decimal_text, lemma_port_read_back};
use crate::query::{insert_entry, lemma_insert_past, lemma_insert_sorted, sorted, Entry};
use crate::scheme::{lemma_scheme_read_back, Scheme};
use crate::text::{
    join, lemma_first_in_after, lemma_join_len, lemma_join_none_in, lemma_none_in_concat,
    lemma_split_join, none_in, pieces,
};
use crate::url::{
    collect_pairs, digit_stops, pair_text, pair_texts, parse_authority, parse_pair, parse_parts,
    parse_port, parse_query, parse_url, separator, split_parts, Authority, UrlParsingError,
    UrlView,
};
use vstd::prelude::*;

verus! {

/// A written component holds none of the reserved characters in `stops`.
pub proof fn lemma_encoded_none_in(text: Seq<char>, stops: Set<char>)
    requires
        !stops.contains('%'),
        forall|c: char| stops.contains(c) ==> reserved(c),
    ensures
        none_in(encode_text(text), stops),
{
    lemma_encoded_keeps_clear(text);
}

/// The port of a URL is read back from what is written for it, if a path
/// follows.
pub proof fn lemma_port_stage_read_back(url: UrlView, rest: Seq<char>)
    requires
        rest.len() > 0,
        rest[0] == '/',
    ensures
        parse_port(url.port_text() + rest) == Ok::<(Option<u16>, Seq<char>), UrlParsingError>(
            (url.port, rest),
        ),
{
    let input = url.port_text() + rest;
    match url.port {
        Some(port) => {
            let digits = decimal_text(port as int);
            lemma_decimal_text(port as int);
            lemma_port_read_back(port);
            assert(input[0] == ':');
            assert(input.skip(1) =~= digits + rest);
            assert(none_in(digits, digit_stops()));
            lemma_first_in_after(digits, rest, digit_stops());
            assert((digits + rest).take(digits.len() as int) =~= digits);
            assert((digits + rest).skip(digits.len() as int) =~= rest);
        },
        None => {
            assert(input =~= rest);
        },
    }
}

/// An entry of a query is read back from what is written for it.
pub proof fn lemma_pair_read_back(entry: Entry)
    ensures
        parse_pair(pair_text(entry)) == Some(entry),
        none_in(pair_text(entry), set!['&']),
        none_in(pair_text(entry), set!['#']),
{
    let key = encode_text(entry.0);
    let value = encode_text(entry.1);
    let piece = pair_text(entry);
    lemma_encoded_none_in(entry.0, set!['=']);
    lemma_encoded_none_in(entry.0, set!['&']);
    lemma_encoded_none_in(entry.0, set!['#']);
    lemma_encoded_none_in(entry.1, set!['&']);
    lemma_encoded_none_in(entry.1, set!['#']);
    assert(piece =~= key + (seq!['='] + value));
    lemma_first_in_after(key, seq!['='] + value, set!['=']);
    assert(piece.take(key.len() as int) =~= key);
    assert(piece.skip(key.len() as int + 1) =~= value);
    lemma_decode_encode(entry.0);
    lemma_decode_encode(entry.1);
    lemma_none_in_concat(key, seq!['='], set!['&']);
    lemma_none_in_concat(key + seq!['='], value, set!['&']);
    lemma_none_in_concat(key, seq!['='], set!['#']);
    lemma_none_in_concat(key + seq!['='], value, set!['#']);
}

/// Setting, in the first entries of an ordered query, the key of the next
/// entry gives the first entries and the next.
pub proof fn lemma_insert_next(entries: Seq<Entry>, k: int)
    requires
        sorted(entries),
        0 <= k < entries.len(),
    ensures
        insert_entry(entries.take(k), entries[k].0, entries[k].1) == entries.take(k + 1),
{
    let first = entries.take(k);
    assert forall|i: int| 0 <= i < k implies crate::query::key_before(
        (#[trigger] first[i]).0,
        entries[k].0,
    ) by {
        assert(first[i] == entries[i]);
    }
    lemma_insert_past(first, entries[k].0, entries[k].1, k);
    assert(first.skip(k) =~= Seq::<Entry>::empty());
    assert(first.take(k) =~= first);
    assert(first + seq![entries[k]] =~= entries.take(k + 1));
}

/// The entries of an ordered query are collected again from what is written
/// for them.
pub proof fn lemma_collect_read_back(entries: Seq<Entry>, k: int)
    requires
        sorted(entries),
        0 <= k <= entries.len(),
    ensures
        collect_pairs(pair_texts(entries).skip(k), entries.take(k)) == Some(entries),
    decreases entries.len() - k,
{
    let pieces = pair_texts(entries).skip(k);
    if k == entries.len() {
        assert(entries.take(k) =~= entries);
    } else {
        assert(pieces[0] == pair_text(entries[k]));
        lemma_pair_read_back(entries[k]);
        lemma_insert_next(entries, k);
        assert(pieces.skip(1) =~= pair_texts(entries).skip(k + 1));
        lemma_collect_read_back(entries, k + 1);
    }
}

/// An ordered query is read back from what is written for its entries. That
/// text holds no `#`, and is empty only where the query is.
pub proof fn lemma_query_read_back(entries: Seq<Entry>)
    requires
        sorted(entries),
    ensures
        parse_query(join(pair_texts(entries), '&')) == Some(entries),
        none_in(join(pair_texts(entries), '&'), set!['#']),
        entries.len() > 0 ==> join(pair_texts(entries), '&').len() > 0,
{
    let texts = pair_texts(entries);
    if entries.len() == 0 {
        assert(entries =~= Seq::<Entry>::empty());
    } else {
        assert forall|p: int| 0 <= p < texts.len() implies none_in(#[trigger] texts[p], set!['&'])
            && none_in(texts[p], set!['#']) by {
            lemma_pair_read_back(entries[p]);
        }
        lemma_split_join(texts, '&');
        lemma_join_none_in(texts, '&', set!['#']);
        lemma_join_len(texts, '&');
        assert(texts[0] == pair_text(entries[0]));
        assert(pair_text(entries[0]).len() > 0);
        lemma_collect_read_back(entries, 0);
        assert(texts.skip(0) =~= texts);
        assert(entries.take(0) =~= Seq::<Entry>::empty());
    }
}

/// The path, the query and the fragment of a readable URL are read back from
/// what is written for them.
pub proof fn lemma_parts_read_back(url: UrlView)
    requires
        url.readable(),
    ensures
        parse_parts(url.scheme, url.host, url.port, url.parts_text()) == Ok::<
            UrlView,
            UrlParsingError,
        >(url),
{
    let path = encode_text(url.path);
    let fragment = url.fragment_text();
    let input = url.parts_text();
    lemma_encoded_none_in(url.path, set!['?', '#']);
    lemma_encode_keeps_slash(url.path);
    lemma_decode_encode(url.path);
    lemma_query_read_back(url.query);
    lemma_decode_empty();
    if url.query.len() > 0 {
        let query = join(pair_texts(url.query), '&');
        let after = query + fragment;
        assert(input =~= path + (seq!['?'] + after));
        lemma_first_in_after(path, seq!['?'] + after, set!['?', '#']);
        let i = path.len() as int;
        assert(input[i] == '?');
        assert(input.take(i) =~= path);
        assert(input.skip(i + 1) =~= after);
        lemma_first_in_after(query, fragment, set!['#']);
        let j = query.len() as int;
        match url.fragment {
            Some(text) => {
                assert(after.take(j) =~= query);
                assert(after.skip(j + 1) =~= encode_text(text));
                lemma_decode_encode(text);
            },
            None => {
                assert(after =~= query);
            },
        }
    } else {
        assert(url.query =~= Seq::<Entry>::empty());
        assert(input =~= path + fragment);
        lemma_first_in_after(path, fragment, set!['?', '#']);
        let i = path.len() as int;
        match url.fragment {
            Some(text) => {
                assert(input[i] == '#');
                assert(input.take(i) =~= path);
                assert(input.skip(i + 1) =~= encode_text(text));
                lemma_decode_encode(text);
            },
            None => {
                assert(input =~= path);
            },
        }
    }
}

/// The scheme, the host and the port of a readable URL are read back from
/// what is written for the URL, and what is written for the rest follows.
pub proof fn lemma_authority_read_back(url: UrlView)
    requires
        url.readable(),
    ensures
        parse_authority(url.text()) == Ok::<Authority, UrlParsingError>(
            Authority { scheme: url.scheme, host: url.host, port: url.port, rest: url.parts_text() },
        ),
{
    let parts = url.parts_text();
    let after_host = url.port_text() + parts;
    let after_separator = url.host.text() + after_host;
    let after_scheme = separator() + after_separator;
    assert(url.text() =~= url.scheme.text() + after_scheme);
    lemma_scheme_read_back(url.scheme, after_scheme);
    assert(separator() =~= after_scheme.subrange(0, 3));
    assert(after_scheme.skip(3) =~= after_separator);
    lemma_encode_keeps_slash(url.path);
    assert(parts[0] == '/');
    assert(after_host[0] == ':' || after_host[0] == '/');
    lemma_host_read_back(url.host, after_host);
    lemma_port_stage_read_back(url, parts);
}

/// A readable URL is read back from what is written for it.
pub proof fn lemma_text_read_back(url: UrlView)
    requires
        url.readable(),
    ensures
        parse_url(url.text()) == Ok::<UrlView, UrlParsingError>(url),
{
    lemma_authority_read_back(url);
    lemma_parts_read_back(url);
}

/// The entries collected from the pieces of a raw query are in order.
pub proof fn lemma_collected_sorted(pieces: Seq<Seq<char>>, entries: Seq<Entry>)
    requires
        sorted(entries),
        collect_pairs(pieces, entries) is Some,
    ensures
        sorted(collect_pairs(pieces, entries)->0),
    decreases pieces.len(),
{
    if pieces.len() > 0 {
        let pair = parse_pair(pieces[0])->0;
        lemma_insert_sorted(entries, pair.0, pair.1);
        lemma_collected_sorted(pieces.skip(1), insert_entry(entries, pair.0, pair.1));
    }
}

/// A URL that was read from a text is readable.
pub proof fn lemma_parsed_is_readable(input: Seq<char>)
    requires
        parse_url(input) is Ok,
    ensures
        parse_url(input)->Ok_0.readable(),
{
    let (scheme, rest) = Scheme::parse_spec(input)->0;
    lemma_parsed_host_valid(rest.skip(3));
    let found = parse_authority(input)->Ok_0;
    let (raw_path, raw_query, raw_fragment) = split_parts(found.rest);
    lemma_collected_sorted(pieces(raw_query, '&'), Seq::empty());
}

/// The round trip: a URL that was read from a text is read again from what is
/// written for it. This holds whatever its texts hold, a whole written URL as
/// the value of a query key included.
pub proof fn lemma_round_trip(input: Seq<char>)
    requires
        parse_url(input) is Ok,
    ensures
        parse_url(parse_url(input)->Ok_0.text()) == parse_url(input),
{
    lemma_parsed_is_readable(input);
    lemma_text_read_back(parse_url(input)->Ok_0);
}

} // verus!
