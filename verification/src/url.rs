//! URLs: reading one from a text and writing one as a text.

use crate::host::{parse_host, Host, HostError, HostView};
use crate::path::{is_absolute, parent_path, path_is_absolute, pop_path};
use crate::percent::{decode, decode_text, encode_into, encode_text};
use crate::port::{decimal_text, port_of, read_port, write_port};
use crate::query::{insert_entry, sorted, Entry, Query};
use crate::scheme::{Scheme, SchemeParsingError};
use crate::text::{
    begins_with, find_first, first_in, join, lemma_first_in, lemma_first_in_unique,
    lemma_join_push, lemma_split_step, numeric, pieces, split, text_of, to_chars,
};
use vstd::prelude::*;
use vstd::string::StringExecFns;

verus! {

/// Why a text is no URL.
#[derive(PartialEq, Eq, Copy, Clone, Debug, Structural)]
pub enum UrlParsingError {
    /// The text begins with no scheme.
    SchemeParsingError(SchemeParsingError),
    /// `://` does not follow the scheme.
    MissingSeparator,
    /// The host is no host name.
    HostError(HostError),
    /// What stands for the port is no number of 16 bits.
    GarbledPort,
    /// There is no path.
    MissingPath,
    /// The path does not begin with `/`.
    PathNotAbsolute,
    /// What an escaped part stands for is not UTF-8.
    CantDecode,
}

impl From<SchemeParsingError> for UrlParsingError {
    fn from(e: SchemeParsingError) -> (r: UrlParsingError) {
        UrlParsingError::SchemeParsingError(e)
    }
}

impl vstd::std_specs::convert::FromSpecImpl<SchemeParsingError> for UrlParsingError {
    open spec fn obeys_from_spec() -> bool {
        true
    }

    open spec fn from_spec(e: SchemeParsingError) -> UrlParsingError {
        UrlParsingError::SchemeParsingError(e)
    }
}

impl From<HostError> for UrlParsingError {
    fn from(e: HostError) -> (r: UrlParsingError) {
        UrlParsingError::HostError(e)
    }
}

impl vstd::std_specs::convert::FromSpecImpl<HostError> for UrlParsingError {
    open spec fn obeys_from_spec() -> bool {
        true
    }

    open spec fn from_spec(e: HostError) -> UrlParsingError {
        UrlParsingError::HostError(e)
    }
}

/// A URL as a record of its parts. The parts are plain: the path, the query
/// and the fragment hold the texts they stand for, with nothing escaped, and
/// the URL's text is made from the parts whenever it is asked for.
#[derive(PartialEq, Eq, Debug)]
pub struct Url {
    pub scheme: Scheme,
    pub host: Host,
    pub port: Option<u16>,
    /// The path, like `/some/path`. A URL that was read has an absolute one.
    pub path: String,
    pub query: Query,
    /// The fragment. A URL that was read has none rather than an empty one.
    pub fragment: Option<String>,
}

/// A URL as plain texts.
pub ghost struct UrlView {
    pub scheme: Scheme,
    pub host: HostView,
    pub port: Option<u16>,
    pub path: Seq<char>,
    pub query: Seq<Entry>,
    pub fragment: Option<Seq<char>>,
}

impl View for Url {
    type V = UrlView;

    open spec fn view(&self) -> UrlView {
        UrlView {
            scheme: self.scheme,
            host: self.host@,
            port: self.port,
            path: self.path@,
            query: self.query@,
            fragment: match self.fragment {
                Some(text) => Some(text@),
                None => None,
            },
        }
    }
}

/// What stands between the scheme and the host.
pub open spec fn separator() -> Seq<char> {
    seq![':', '/', '/']
}

/// The characters at which the digits of a port end: all that are not
/// numeric.
pub open spec fn digit_stops() -> Set<char> {
    Set::new(|c: char| !numeric(c))
}

/// The port at the start of `input`, if `:` announces one, and what follows
/// it.
///
/// The port is the run of numeric characters after the `:`. A run that
/// reaches the end of the text leaves no path. A run that is not decimal
/// digits spelling a number of 16 bits, the empty one included, is garbled.
pub open spec fn parse_port(input: Seq<char>) -> Result<(Option<u16>, Seq<char>), UrlParsingError> {
    if input.len() > 0 && input[0] == ':' {
        let rest = input.skip(1);
        let n = first_in(rest, digit_stops());
        if n == rest.len() {
            Err(UrlParsingError::MissingPath)
        } else {
            match port_of(rest.take(n)) {
                Some(port) => Ok((Some(port), rest.skip(n))),
                None => Err(UrlParsingError::GarbledPort),
            }
        }
    } else {
        Ok((None, input))
    }
}

/// The raw path, the raw query and the raw fragment of what follows the host
/// and the port.
///
/// The path ends at the first `?` or `#`. After a `#` all is fragment. After
/// a `?` the query runs to the first `#`, and the fragment from there.
pub open spec fn split_parts(input: Seq<char>) -> (Seq<char>, Seq<char>, Seq<char>) {
    let i = first_in(input, set!['?', '#']);
    if i == input.len() {
        (input, Seq::empty(), Seq::empty())
    } else if input[i] == '#' {
        (input.take(i), Seq::empty(), input.skip(i + 1))
    } else {
        let after = input.skip(i + 1);
        let j = first_in(after, set!['#']);
        if j == after.len() {
            (input.take(i), after, Seq::empty())
        } else {
            (input.take(i), after.take(j), after.skip(j + 1))
        }
    }
}

/// The key and the value that one piece of a raw query stands for: the piece
/// is cut at its first `=`, and without one the value is empty.
pub open spec fn parse_pair(piece: Seq<char>) -> Option<Entry> {
    let n = first_in(piece, set!['=']);
    let raw_key = piece.take(n);
    let raw_value = if n < piece.len() {
        piece.skip(n + 1)
    } else {
        Seq::empty()
    };
    match (decode_text(raw_key), decode_text(raw_value)) {
        (Some(key), Some(value)) => Some((key, value)),
        _ => None,
    }
}

/// `entries` after the pairs of `pieces` were set in it, one after the other.
pub open spec fn collect_pairs(pieces: Seq<Seq<char>>, entries: Seq<Entry>) -> Option<Seq<Entry>>
    decreases pieces.len(),
{
    if pieces.len() == 0 {
        Some(entries)
    } else {
        match parse_pair(pieces[0]) {
            Some((key, value)) => collect_pairs(
                pieces.skip(1),
                insert_entry(entries, key, value),
            ),
            None => None,
        }
    }
}

/// The entries that a raw query stands for: the pairs of its pieces between
/// the `&`, set from left to right, so that of two values for one key the
/// later stays. An empty raw query has no pieces, and so stands for no
/// entries.
pub open spec fn parse_query(raw: Seq<char>) -> Option<Seq<Entry>> {
    collect_pairs(pieces(raw, '&'), Seq::empty())
}

/// The URL with the given scheme, host and port whose path, query and
/// fragment stand in `input`.
pub open spec fn parse_parts(
    scheme: Scheme,
    host: HostView,
    port: Option<u16>,
    input: Seq<char>,
) -> Result<UrlView, UrlParsingError> {
    let (raw_path, raw_query, raw_fragment) = split_parts(input);
    if raw_path.len() == 0 {
        Err(UrlParsingError::MissingPath)
    } else {
        match decode_text(raw_path) {
            None => Err(UrlParsingError::CantDecode),
            Some(path) => if !is_absolute(path) {
                Err(UrlParsingError::PathNotAbsolute)
            } else {
                match (parse_query(raw_query), decode_text(raw_fragment)) {
                    (Some(query), Some(fragment)) => Ok(
                        UrlView {
                            scheme,
                            host,
                            port,
                            path,
                            query,
                            fragment: if fragment.len() == 0 {
                                None
                            } else {
                                Some(fragment)
                            },
                        },
                    ),
                    _ => Err(UrlParsingError::CantDecode),
                }
            },
        }
    }
}

/// What stands before the path of a URL, and the text that follows it.
pub ghost struct Authority {
    pub scheme: Scheme,
    pub host: HostView,
    pub port: Option<u16>,
    pub rest: Seq<char>,
}

/// The scheme, the host and the port at the start of `input`, and what
/// follows them: the scheme, then `://`, then the host, then the port if there
/// is one.
pub open spec fn parse_authority(input: Seq<char>) -> Result<Authority, UrlParsingError> {
    match Scheme::parse_spec(input) {
        None => Err(UrlParsingError::SchemeParsingError(SchemeParsingError)),
        Some((scheme, rest)) => if !separator().is_prefix_of(rest) {
            Err(UrlParsingError::MissingSeparator)
        } else {
            match parse_host(rest.skip(3)) {
                Err(e) => Err(UrlParsingError::HostError(e)),
                Ok((host, rest)) => match parse_port(rest) {
                    Err(e) => Err(e),
                    Ok((port, rest)) => Ok(Authority { scheme, host, port, rest }),
                },
            }
        },
    }
}

/// The URL that `input` stands for, or the first reason, from left to right,
/// for which it stands for none.
pub open spec fn parse_url(input: Seq<char>) -> Result<UrlView, UrlParsingError> {
    match parse_authority(input) {
        Err(e) => Err(e),
        Ok(found) => parse_parts(found.scheme, found.host, found.port, found.rest),
    }
}

/// One entry of a query as it is written: the key, `=` and the value.
pub open spec fn pair_text(entry: Entry) -> Seq<char> {
    encode_text(entry.0) + seq!['='] + encode_text(entry.1)
}

/// The entries of a query as they are written, in their order.
pub open spec fn pair_texts(entries: Seq<Entry>) -> Seq<Seq<char>> {
    entries.map_values(|entry: Entry| pair_text(entry))
}

/// A query as it is written: nothing where it is empty, else `?` and the
/// entries in the order of their keys, joined by `&`.
pub open spec fn query_text(entries: Seq<Entry>) -> Seq<char> {
    if entries.len() > 0 {
        seq!['?'] + join(pair_texts(entries), '&')
    } else {
        Seq::empty()
    }
}

impl UrlView {
    /// The port as it is written: nothing, or `:` and the number.
    pub open spec fn port_text(self) -> Seq<char> {
        match self.port {
            Some(port) => seq![':'] + decimal_text(port as int),
            None => Seq::empty(),
        }
    }

    /// The path as it is written: escaped, and with `/` put before it where it
    /// is not absolute.
    pub open spec fn path_text(self) -> Seq<char> {
        if is_absolute(self.path) {
            encode_text(self.path)
        } else {
            seq!['/'] + encode_text(self.path)
        }
    }

    /// The query as it is written.
    pub open spec fn query_text(self) -> Seq<char> {
        query_text(self.query)
    }

    /// The fragment as it is written: nothing, or `#` and the escaped text.
    pub open spec fn fragment_text(self) -> Seq<char> {
        match self.fragment {
            Some(fragment) => seq!['#'] + encode_text(fragment),
            None => Seq::empty(),
        }
    }

    /// What is written for the path, the query and the fragment.
    pub open spec fn parts_text(self) -> Seq<char> {
        self.path_text() + self.query_text() + self.fragment_text()
    }

    /// The URL is one that reading a text can give: its host has labels only,
    /// its path is absolute, its query is in order, and its fragment, if there
    /// is one, is not empty.
    pub open spec fn readable(self) -> bool {
        &&& self.host.valid()
        &&& is_absolute(self.path)
        &&& sorted(self.query)
        &&& self.fragment matches Some(fragment) ==> fragment.len() > 0
    }

    /// The URL as a text.
    pub open spec fn text(self) -> Seq<char> {
        self.scheme.text() + separator() + self.host.text() + self.port_text() + self.path_text()
            + self.query_text() + self.fragment_text()
    }
}

/// The index of the first character at or after `from` that is not numeric,
/// or the length of `chars` if all are.
fn find_digits_end(chars: &Vec<char>, from: usize) -> (at: usize)
    requires
        from <= chars.len(),
    ensures
        from <= at <= chars.len(),
        at - from == first_in(chars@.skip(from as int), digit_stops()),
{
    let ghost rest = chars@.skip(from as int);
    let mut at: usize = from;
    while at < chars.len()
        invariant
            from <= at <= chars.len(),
            rest == chars@.skip(from as int),
            forall|j: int| 0 <= j < at - from ==> !digit_stops().contains(#[trigger] rest[j]),
        decreases chars.len() - at,
    {
        assert(rest[at - from] == chars@[at as int]);
        if !chars[at].is_numeric() {
            proof {
                lemma_first_in_unique(rest, digit_stops(), at - from);
            }
            return at;
        }
        at += 1;
    }
    proof {
        lemma_first_in_unique(rest, digit_stops(), at - from);
    }
    at
}

/// Reads the port at the start of `chars`, if `:` announces one, and returns
/// it with the index at which the rest begins.
fn read_port_stage(chars: &Vec<char>) -> (r: Result<(Option<u16>, usize), UrlParsingError>)
    ensures
        match parse_port(chars@) {
            Ok((port, rest)) => r matches Ok((p, at)) && p == port && at <= chars@.len()
                && chars@.skip(at as int) == rest,
            Err(e) => r matches Err(err) && err == e,
        },
{
    if chars.len() > 0 && chars[0] == ':' {
        let end = find_digits_end(chars, 1);
        if end == chars.len() {
            return Err(UrlParsingError::MissingPath);
        }
        let ghost rest = chars@.skip(1);
        assert(chars@.subrange(1, end as int) =~= rest.take(end - 1));
        assert(chars@.skip(end as int) =~= rest.skip(end - 1));
        match read_port(chars, 1, end) {
            Some(port) => Ok((Some(port), end)),
            None => Err(UrlParsingError::GarbledPort),
        }
    } else {
        assert(chars@.skip(0) =~= chars@);
        Ok((None, 0))
    }
}

/// Reads the key and the value of the piece `chars[from..to]` of a raw query.
fn read_pair(chars: &Vec<char>, from: usize, to: usize) -> (r: Option<(String, String)>)
    requires
        from <= to <= chars.len(),
    ensures
        match parse_pair(chars@.subrange(from as int, to as int)) {
            Some((key, value)) => r matches Some(pair) && pair.0@ == key && pair.1@ == value,
            None => r is None,
        },
{
    proof {
        reveal_strlit("=");
        let stops = "="@;
        assert(stops[0] == '=');
        assert(stops.to_set() =~= set!['=']);
    }
    let ghost piece = chars@.subrange(from as int, to as int);
    let cut = find_first(chars, from, to, "=");
    let raw_key = text_of(chars, from, cut);
    let raw_value = if cut < to {
        text_of(chars, cut + 1, to)
    } else {
        String::new()
    };
    proof {
        assert(raw_key@ =~= piece.take(cut - from));
        if cut < to {
            assert(raw_value@ =~= piece.skip(cut - from + 1));
        }
    }
    let key = match decode(raw_key.as_str()) {
        Some(key) => key,
        None => {
            return None;
        },
    };
    match decode(raw_value.as_str()) {
        Some(value) => Some((key, value)),
        None => None,
    }
}

/// Reads the raw query `chars[from..to]`.
fn read_query(chars: &Vec<char>, from: usize, to: usize) -> (r: Option<Query>)
    requires
        from <= to <= chars.len(),
    ensures
        match parse_query(chars@.subrange(from as int, to as int)) {
            Some(entries) => r matches Some(query) && query@ == entries,
            None => r is None,
        },
{
    proof {
        reveal_strlit("&");
        let stops = "&"@;
        assert(stops[0] == '&');
        assert(stops.to_set() =~= set!['&']);
    }
    let ghost raw = chars@.subrange(from as int, to as int);
    let mut query = Query::new();
    if from == to {
        return Some(query);
    }
    let mut start: usize = from;
    assert(raw.skip(0) =~= raw);
    loop
        invariant_except_break
            from <= start <= to,
            parse_query(raw) == collect_pairs(split(raw.skip(start - from), '&'), query@),
        invariant
            to <= chars.len(),
            raw == chars@.subrange(from as int, to as int),
            "&"@.to_set() == set!['&'],
        ensures
            parse_query(raw) == Some(query@),
        decreases to - start,
    {
        let ghost rest = raw.skip(start - from);
        let ghost before = query@;
        assert(chars@.subrange(start as int, to as int) =~= rest);
        let stop = find_first(chars, start, to, "&");
        let ghost piece = chars@.subrange(start as int, stop as int);
        proof {
            lemma_split_step(rest, '&');
            assert(piece =~= rest.take(stop - start));
            if stop < to {
                assert(rest.skip(stop - start + 1) =~= raw.skip(stop + 1 - from));
                assert(split(rest, '&')[0] == piece);
                assert(split(rest, '&').skip(1) =~= split(raw.skip(stop + 1 - from), '&'));
            } else {
                assert(piece =~= rest);
                assert(split(rest, '&')[0] == piece);
                assert(split(rest, '&').skip(1) =~= Seq::<Seq<char>>::empty());
            }
        }
        match read_pair(chars, start, stop) {
            None => {
                return None;
            },
            Some(pair) => {
                query.insert(pair.0, pair.1);
            },
        }
        if stop == to {
            assert(collect_pairs(split(rest, '&').skip(1), query@) == Some(query@));
            break;
        }
        start = stop + 1;
    }
    Some(query)
}

/// Where the raw path, the raw query and the raw fragment stand in
/// `chars[at..]`: the path is `chars[at..path_end]`, the query
/// `chars[query_from..query_to]` and the fragment `chars[fragment_from..]`.
fn find_parts(chars: &Vec<char>, at: usize) -> (r: (usize, usize, usize, usize))
    requires
        at <= chars.len(),
    ensures
        ({
            let (path_end, query_from, query_to, fragment_from) = r;
            let parts = split_parts(chars@.skip(at as int));
            &&& at <= path_end <= chars.len()
            &&& query_from <= query_to <= chars.len()
            &&& fragment_from <= chars.len()
            &&& chars@.subrange(at as int, path_end as int) == parts.0
            &&& chars@.subrange(query_from as int, query_to as int) == parts.1
            &&& chars@.subrange(fragment_from as int, chars.len() as int) == parts.2
        }),
{
    proof {
        reveal_strlit("?#");
        let stops = "?#"@;
        assert(stops[0] == '?' && stops[1] == '#');
        assert(stops.to_set() =~= set!['?', '#']);
        reveal_strlit("#");
        let hash = "#"@;
        assert(hash[0] == '#');
        assert(hash.to_set() =~= set!['#']);
    }
    let len = chars.len();
    let ghost input = chars@.skip(at as int);
    assert(chars@.subrange(at as int, len as int) =~= input);
    let path_end = find_first(chars, at, len, "?#");
    let mut query_from = len;
    let mut query_to = len;
    let mut fragment_from = len;
    if path_end < len {
        assert(input[path_end - at] == chars@[path_end as int]);
        proof {
            lemma_first_in(input, set!['?', '#']);
        }
        if chars[path_end] == '#' {
            fragment_from = path_end + 1;
        } else {
            query_from = path_end + 1;
            assert(chars@.subrange(query_from as int, len as int) =~= input.skip(
                path_end - at + 1,
            ));
            query_to = find_first(chars, query_from, len, "#");
            if query_to < len {
                fragment_from = query_to + 1;
            }
        }
    }
    proof {
        let parts = split_parts(input);
        assert(chars@.subrange(at as int, path_end as int) =~= parts.0);
        assert(chars@.subrange(query_from as int, query_to as int) =~= parts.1);
        assert(chars@.subrange(fragment_from as int, len as int) =~= parts.2);
    }
    (path_end, query_from, query_to, fragment_from)
}

/// Appends to `out` the entry of `key` and `value` as it is written.
fn write_pair(out: &mut String, key: &str, value: &str)
    ensures
        final(out)@ == old(out)@ + pair_text((key@, value@)),
{
    encode_into(out, key);
    out.push('=');
    encode_into(out, value);
    assert(out@ =~= old(out)@ + pair_text((key@, value@)));
}

/// Appends to `out` the query as it is written.
fn write_query(out: &mut String, query: &Query)
    ensures
        final(out)@ == old(out)@ + query_text(query@),
{
    let ghost pairs = pair_texts(query@);
    if query.len() == 0 {
        assert(out@ =~= old(out)@ + query_text(query@));
        return;
    }
    out.push('?');
    let first = query.entry(0);
    write_pair(out, first.0, first.1);
    assert(pairs.take(1) =~= seq![pairs[0]]);
    assert(out@ =~= old(out)@ + (seq!['?'] + join(pairs.take(1), '&')));
    let mut i: usize = 1;
    while i < query.len()
        invariant
            1 <= i <= query@.len(),
            pairs == pair_texts(query@),
            out@ == old(out)@ + (seq!['?'] + join(pairs.take(i as int), '&')),
        decreases query@.len() - i,
    {
        let pair = query.entry(i);
        let ghost done = out@;
        out.push('&');
        write_pair(out, pair.0, pair.1);
        proof {
            lemma_join_push(pairs.take(i as int), pairs[i as int], '&');
            assert(pairs.take(i + 1) =~= pairs.take(i as int).push(pairs[i as int]));
            assert(out@ =~= done + seq!['&'] + pairs[i as int]);
        }
        i += 1;
    }
    assert(pairs.take(i as int) =~= pairs);
}

impl Clone for Url {
    fn clone(&self) -> (copy: Self)
        ensures
            copy@ == self@,
    {
        Url {
            scheme: self.scheme,
            host: self.host.clone(),
            port: self.port,
            path: self.path.clone(),
            query: self.query.clone(),
            fragment: match &self.fragment {
                Some(text) => Some(text.clone()),
                None => None,
            },
        }
    }
}

impl std::str::FromStr for Url {
    type Err = UrlParsingError;

    /// Reads a URL from `input`, as `Url::from_str` does.
    fn from_str(input: &str) -> (r: Result<Url, UrlParsingError>)
        ensures
            match parse_url(input@) {
                Ok(url) => r matches Ok(u) && u@ == url,
                Err(e) => r matches Err(err) && err == e,
            },
    {
        Url::from_str(input)
    }
}

impl Url {
    /// Reads the path, the query and the fragment from `chars[at..]` and makes
    /// the URL with them.
    fn read_parts(
        scheme: Scheme,
        host: Host,
        port: Option<u16>,
        chars: &Vec<char>,
        at: usize,
    ) -> (r: Result<Url, UrlParsingError>)
        requires
            at <= chars.len(),
        ensures
            match parse_parts(scheme, host@, port, chars@.skip(at as int)) {
                Ok(url) => r matches Ok(u) && u@ == url,
                Err(e) => r matches Err(err) && err == e,
            },
    {
        let len = chars.len();
        let (path_end, query_from, query_to, fragment_from) = find_parts(chars, at);
        if path_end == at {
            return Err(UrlParsingError::MissingPath);
        }
        let raw_path = text_of(chars, at, path_end);
        let path = match decode(raw_path.as_str()) {
            Some(path) => path,
            None => {
                return Err(UrlParsingError::CantDecode);
            },
        };
        if !path_is_absolute(path.as_str()) {
            return Err(UrlParsingError::PathNotAbsolute);
        }
        let query = match read_query(chars, query_from, query_to) {
            Some(query) => query,
            None => {
                return Err(UrlParsingError::CantDecode);
            },
        };
        let raw_fragment = text_of(chars, fragment_from, len);
        let fragment = match decode(raw_fragment.as_str()) {
            Some(fragment) => fragment,
            None => {
                return Err(UrlParsingError::CantDecode);
            },
        };
        let fragment = if fragment.as_str().is_empty() {
            None
        } else {
            Some(fragment)
        };
        Ok(Url { scheme, host, port, path, query, fragment })
    }

    /// Reads a URL from `input`.
    pub fn from_str(input: &str) -> (r: Result<Url, UrlParsingError>)
        ensures
            match parse_url(input@) {
                Ok(url) => r matches Ok(u) && u@ == url,
                Err(e) => r matches Err(err) && err == e,
            },
    {
        let (scheme, rest) = match Scheme::parse(input) {
            Ok(found) => found,
            Err(e) => {
                return Err(UrlParsingError::from(e));
            },
        };
        let chars = to_chars(rest);
        proof {
            reveal_strlit("://");
            assert("://"@ =~= separator());
            assert(chars@.skip(0) =~= rest@);
        }
        if !begins_with(&chars, 0, "://") {
            return Err(UrlParsingError::MissingSeparator);
        }
        let rest = rest.substring_char(3, chars.len());
        assert(rest@ =~= chars@.skip(3));
        let (host, rest) = match Host::parse(rest) {
            Ok(found) => found,
            Err(e) => {
                return Err(UrlParsingError::from(e));
            },
        };
        let chars = to_chars(rest);
        let (port, at) = match read_port_stage(&chars) {
            Ok(found) => found,
            Err(e) => {
                return Err(e);
            },
        };
        Url::read_parts(scheme, host, port, &chars, at)
    }

    /// The URL as a text.
    pub fn to_string(&self) -> (out: String)
        ensures
            out@ == self@.text(),
    {
        let mut out = String::from_str(self.scheme.as_str());
        proof {
            reveal_strlit("://");
            assert("://"@ =~= separator());
        }
        out.append("://");
        out.append(self.host.to_string().as_str());
        if let Some(port) = self.port {
            out.push(':');
            write_port(&mut out, port);
        }
        assert(out@ =~= self@.scheme.text() + separator() + self@.host.text() + self@.port_text());
        if !path_is_absolute(self.path.as_str()) {
            out.push('/');
        }
        encode_into(&mut out, self.path.as_str());
        assert(out@ =~= self@.scheme.text() + separator() + self@.host.text() + self@.port_text()
            + self@.path_text());
        let ghost head = out@;
        write_query(&mut out, &self.query);
        if let Some(fragment) = &self.fragment {
            out.push('#');
            encode_into(&mut out, fragment.as_str());
        }
        assert(out@ =~= head + self@.query_text() + self@.fragment_text());
        out
    }

    /// The URL with the last component of its path taken away; all else stays.
    /// A path without a parent, such as the root, stays as it is.
    pub fn into_parent(self) -> (parent: Url)
        ensures
            parent@ == (UrlView { path: parent_path(self@.path), ..self@ }),
            parent@.path.is_prefix_of(self@.path),
            self@.path == seq!['/'] ==> parent@ == self@,
    {
        Url {
            scheme: self.scheme,
            host: self.host,
            port: self.port,
            path: pop_path(self.path),
            query: self.query,
            fragment: self.fragment,
        }
    }
}

} // verus!
