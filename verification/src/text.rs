//! Texts as sequences of characters: classifying characters, scanning for
//! delimiters, splitting, and moving between `&str`, `Vec<char>` and `String`.

use vstd::prelude::*;

verus! {

broadcast use vstd::string::group_string_axioms;

/// Whether a character beyond ASCII has the Unicode property Alphabetic, as
/// `char::is_alphabetic` reports it.
pub uninterp spec fn unicode_alphabetic(c: char) -> bool;

/// Whether a character beyond ASCII is in one of the Unicode number
/// categories, as `char::is_numeric` reports it.
pub uninterp spec fn unicode_numeric(c: char) -> bool;

/// The letters `a` to `z` and `A` to `Z`.
pub open spec fn is_ascii_letter(c: char) -> bool {
    ('a' <= c && c <= 'z') || ('A' <= c && c <= 'Z')
}

/// The digits `0` to `9`.
pub open spec fn is_ascii_digit(c: char) -> bool {
    '0' <= c && c <= '9'
}

/// Whether `c` is alphabetic: among the ASCII characters the letters are, and
/// beyond ASCII the characters with the Unicode property.
pub open spec fn alphabetic(c: char) -> bool {
    if c <= '\x7f' {
        is_ascii_letter(c)
    } else {
        unicode_alphabetic(c)
    }
}

/// Whether `c` is numeric: among the ASCII characters the digits are, and
/// beyond ASCII the characters in a Unicode number category.
pub open spec fn numeric(c: char) -> bool {
    if c <= '\x7f' {
        is_ascii_digit(c)
    } else {
        unicode_numeric(c)
    }
}

/// `char::is_alphabetic`: the result is the Unicode property Alphabetic of
/// `c`. Trusted: it is a function of `c` alone, and among the ASCII characters
/// exactly the letters have the property.
pub assume_specification[ char::is_alphabetic ](c: char) -> (b: bool)
    ensures
        b == alphabetic(c),
        c > '\x7f' ==> b == unicode_alphabetic(c),
;

/// `char::is_numeric`: the result says whether `c` is in a Unicode number
/// category. Trusted: it is a function of `c` alone, and among the ASCII
/// characters exactly the digits are in such a category.
pub assume_specification[ char::is_numeric ](c: char) -> (b: bool)
    ensures
        b == numeric(c),
        c > '\x7f' ==> b == unicode_numeric(c),
;

/// `String::push` appends one character to the end of the string.
pub assume_specification[ String::push ](s: &mut String, c: char)
    ensures
        final(s)@ == old(s)@.push(c),
;

/// The index of the first character of `s` that is in `stops`, or the length
/// of `s` if there is none.
pub open spec fn first_in(s: Seq<char>, stops: Set<char>) -> int
    decreases s.len(),
{
    if s.len() == 0 || stops.contains(s[0]) {
        0
    } else {
        1 + first_in(s.skip(1), stops)
    }
}

/// `i` is where the first character of `s` in `stops` stands, or the length
/// of `s` if none is.
pub open spec fn is_first_in(s: Seq<char>, stops: Set<char>, i: int) -> bool {
    &&& 0 <= i <= s.len()
    &&& forall|j: int| 0 <= j < i ==> !stops.contains(#[trigger] s[j])
    &&& i < s.len() ==> stops.contains(s[i])
}

/// `first_in` finds the first stop.
pub proof fn lemma_first_in(s: Seq<char>, stops: Set<char>)
    ensures
        is_first_in(s, stops, first_in(s, stops)),
    decreases s.len(),
{
    if s.len() == 0 || stops.contains(s[0]) {
    } else {
        let rest = s.skip(1);
        lemma_first_in(rest, stops);
        let n = first_in(rest, stops);
        assert forall|j: int| 0 <= j < n + 1 implies !stops.contains(#[trigger] s[j]) by {
            if j > 0 {
                assert(s[j] == rest[j - 1]);
            }
        }
        if n + 1 < s.len() {
            assert(s[n + 1] == rest[n]);
        }
    }
}

/// There is one first stop only.
pub proof fn lemma_first_in_unique(s: Seq<char>, stops: Set<char>, i: int)
    requires
        is_first_in(s, stops, i),
    ensures
        first_in(s, stops) == i,
{
    lemma_first_in(s, stops);
    let k = first_in(s, stops);
    if k < i {
        assert(!stops.contains(s[k]));
    } else if i < k {
        assert(!stops.contains(s[i]));
    }
}

/// The text cut at each occurrence of `sep`: what stands before the first,
/// between each two, and after the last, in order. A text without `sep` is
/// the one piece.
pub open spec fn split(s: Seq<char>, sep: char) -> Seq<Seq<char>>
    decreases s.len(),
{
    let n = first_in(s, set![sep]);
    if 0 <= n < s.len() {
        seq![s.take(n)] + split(s.skip(n + 1), sep)
    } else {
        seq![s]
    }
}

/// The pieces of `s` between the occurrences of `sep`, in order. The empty
/// text has no pieces; any other has one more than it has occurrences of
/// `sep`.
pub open spec fn pieces(s: Seq<char>, sep: char) -> Seq<Seq<char>> {
    if s.len() == 0 {
        Seq::empty()
    } else {
        split(s, sep)
    }
}

/// The pieces joined again, with `sep` between each two.
pub open spec fn join(pieces: Seq<Seq<char>>, sep: char) -> Seq<char>
    decreases pieces.len(),
{
    if pieces.len() == 0 {
        Seq::empty()
    } else if pieces.len() == 1 {
        pieces[0]
    } else {
        pieces[0] + seq![sep] + join(pieces.skip(1), sep)
    }
}

/// No character of `s` is in `stops`.
pub open spec fn none_in(s: Seq<char>, stops: Set<char>) -> bool {
    forall|i: int| 0 <= i < s.len() ==> !stops.contains(#[trigger] s[i])
}

/// A text without stops, followed by a text that begins with one or is empty,
/// has its first stop where the second text begins.
pub proof fn lemma_first_in_after(a: Seq<char>, b: Seq<char>, stops: Set<char>)
    requires
        none_in(a, stops),
        b.len() > 0 ==> stops.contains(b[0]),
    ensures
        first_in(a + b, stops) == a.len(),
{
    let s = a + b;
    assert forall|j: int| 0 <= j < a.len() implies !stops.contains(#[trigger] s[j]) by {
        assert(s[j] == a[j]);
    }
    if b.len() > 0 {
        assert(s[a.len() as int] == b[0]);
    }
    lemma_first_in_unique(s, stops, a.len() as int);
}

/// Two texts without stops make a text without stops.
pub proof fn lemma_none_in_concat(a: Seq<char>, b: Seq<char>, stops: Set<char>)
    requires
        none_in(a, stops),
        none_in(b, stops),
    ensures
        none_in(a + b, stops),
{
    assert forall|i: int| 0 <= i < (a + b).len() implies !stops.contains(#[trigger] (a + b)[i]) by {
        if i < a.len() {
            assert((a + b)[i] == a[i]);
        } else {
            assert((a + b)[i] == b[i - a.len()]);
        }
    }
}

/// Pieces without stops, joined by a separator that is no stop, make a text
/// without stops.
pub proof fn lemma_join_none_in(pieces: Seq<Seq<char>>, sep: char, stops: Set<char>)
    requires
        !stops.contains(sep),
        forall|p: int| 0 <= p < pieces.len() ==> none_in(#[trigger] pieces[p], stops),
    ensures
        none_in(join(pieces, sep), stops),
    decreases pieces.len(),
{
    if pieces.len() > 1 {
        let rest = pieces.skip(1);
        assert forall|p: int| 0 <= p < rest.len() implies none_in(#[trigger] rest[p], stops) by {
            assert(rest[p] == pieces[p + 1]);
        }
        lemma_join_none_in(rest, sep, stops);
        assert(none_in(pieces[0], stops));
        lemma_none_in_concat(pieces[0], seq![sep], stops);
        lemma_none_in_concat(pieces[0] + seq![sep], join(rest, sep), stops);
    } else if pieces.len() == 1 {
        assert(none_in(pieces[0], stops));
    }
}

/// Pieces that do not hold the separator are got back when their joined text
/// is split.
pub proof fn lemma_split_join(pieces: Seq<Seq<char>>, sep: char)
    requires
        pieces.len() >= 1,
        forall|p: int| 0 <= p < pieces.len() ==> none_in(#[trigger] pieces[p], set![sep]),
    ensures
        split(join(pieces, sep), sep) == pieces,
    decreases pieces.len(),
{
    let s = join(pieces, sep);
    assert(none_in(pieces[0], set![sep]));
    if pieces.len() == 1 {
        lemma_first_in_after(pieces[0], Seq::empty(), set![sep]);
        assert(pieces[0] + Seq::<char>::empty() =~= pieces[0]);
        assert(split(s, sep) =~= pieces);
    } else {
        let rest = pieces.skip(1);
        let tail = seq![sep] + join(rest, sep);
        assert(s =~= pieces[0] + tail);
        lemma_first_in_after(pieces[0], tail, set![sep]);
        let n = pieces[0].len() as int;
        assert(s.take(n) =~= pieces[0]);
        assert(s.skip(n + 1) =~= join(rest, sep));
        assert forall|p: int| 0 <= p < rest.len() implies none_in(#[trigger] rest[p], set![sep]) by {
            assert(rest[p] == pieces[p + 1]);
        }
        lemma_split_join(rest, sep);
        assert(split(s, sep) =~= pieces);
    }
}

/// The first piece of a text that is split, and the pieces after it.
pub proof fn lemma_split_step(s: Seq<char>, sep: char)
    ensures
        ({
            let n = first_in(s, set![sep]);
            &&& 0 <= n <= s.len()
            &&& n < s.len() ==> split(s, sep) == seq![s.take(n)] + split(s.skip(n + 1), sep)
            &&& n == s.len() ==> split(s, sep) == seq![s]
            &&& split(s, sep).len() >= 1
            &&& split(s, sep)[0] == s.take(n)
        }),
{
    lemma_first_in(s, set![sep]);
    let n = first_in(s, set![sep]);
    if n == s.len() {
        assert(s.take(n) =~= s);
    }
}

/// Joining one more piece adds the separator and the piece.
pub proof fn lemma_join_push(pieces: Seq<Seq<char>>, last: Seq<char>, sep: char)
    requires
        pieces.len() >= 1,
    ensures
        join(pieces.push(last), sep) == join(pieces, sep) + seq![sep] + last,
    decreases pieces.len(),
{
    let all = pieces.push(last);
    assert(all[0] == pieces[0]);
    if pieces.len() == 1 {
        assert(all.skip(1) =~= seq![last]);
        assert(join(all.skip(1), sep) == last);
    } else {
        assert(all.skip(1) =~= pieces.skip(1).push(last));
        lemma_join_push(pieces.skip(1), last, sep);
        assert(join(all, sep) =~= join(pieces, sep) + seq![sep] + last);
    }
}

/// The joined text of pieces is not empty where the first piece is not.
pub proof fn lemma_join_len(pieces: Seq<Seq<char>>, sep: char)
    requires
        pieces.len() >= 1,
    ensures
        join(pieces, sep).len() >= pieces[0].len(),
{
}

/// The characters of `s`, in order.
pub fn to_chars(s: &str) -> (chars: Vec<char>)
    ensures
        chars@ == s@,
{
    let mut chars: Vec<char> = Vec::new();
    for c in it: s.chars()
        invariant
            it.seq() == s@,
            chars@ == it.seq().take(it.index() as int),
    {
        chars.push(c);
    }
    chars
}

/// The text made of `chars[from..to]`.
pub fn text_of(chars: &Vec<char>, from: usize, to: usize) -> (text: String)
    requires
        from <= to <= chars.len(),
    ensures
        text@ == chars@.subrange(from as int, to as int),
{
    let mut text = String::new();
    let mut i: usize = from;
    while i < to
        invariant
            from <= i <= to <= chars.len(),
            text@ == chars@.subrange(from as int, i as int),
        decreases to - i,
    {
        text.push(chars[i]);
        i += 1;
    }
    text
}

/// Whether `c` occurs in `stops`.
pub fn is_one_of(c: char, stops: &Vec<char>) -> (b: bool)
    ensures
        b == stops@.to_set().contains(c),
{
    let mut i: usize = 0;
    while i < stops.len()
        invariant
            i <= stops.len(),
            forall|j: int| 0 <= j < i ==> stops@[j] != c,
        decreases stops.len() - i,
    {
        if stops[i] == c {
            assert(stops@.contains(c));
            return true;
        }
        i += 1;
    }
    false
}

/// The index of the first character of `chars[from..to]` that occurs in
/// `stops`, or `to` if there is none.
pub fn find_first(chars: &Vec<char>, from: usize, to: usize, stops: &str) -> (at: usize)
    requires
        from <= to <= chars.len(),
    ensures
        from <= at <= to,
        at - from == first_in(chars@.subrange(from as int, to as int), stops@.to_set()),
{
    let stop_chars = to_chars(stops);
    let ghost part = chars@.subrange(from as int, to as int);
    let ghost set = stops@.to_set();
    let mut at: usize = from;
    while at < to
        invariant
            from <= at <= to <= chars.len(),
            part == chars@.subrange(from as int, to as int),
            set == stop_chars@.to_set(),
            set == stops@.to_set(),
            forall|j: int| 0 <= j < at - from ==> !set.contains(#[trigger] part[j]),
        decreases to - at,
    {
        assert(part[at - from] == chars@[at as int]);
        if is_one_of(chars[at], &stop_chars) {
            proof {
                lemma_first_in_unique(part, set, at - from);
            }
            return at;
        }
        at += 1;
    }
    proof {
        lemma_first_in_unique(part, set, at - from);
    }
    at
}

/// Whether `chars`, read from `from` on, begins with `prefix`.
pub fn begins_with(chars: &Vec<char>, from: usize, prefix: &str) -> (b: bool)
    requires
        from <= chars.len(),
    ensures
        b == prefix@.is_prefix_of(chars@.skip(from as int)),
{
    let want = to_chars(prefix);
    let ghost rest = chars@.skip(from as int);
    if want.len() > chars.len() - from {
        return false;
    }
    let mut i: usize = 0;
    while i < want.len()
        invariant
            i <= want.len() <= chars.len() - from,
            want@ == prefix@,
            rest == chars@.skip(from as int),
            forall|j: int| 0 <= j < i ==> want@[j] == rest[j],
        decreases want.len() - i,
    {
        assert(rest[i as int] == chars@[from + i]);
        if want[i] != chars[from + i] {
            assert(rest.subrange(0, want@.len() as int)[i as int] == rest[i as int]);
            return false;
        }
        i += 1;
    }
    assert(want@ =~= rest.subrange(0, want@.len() as int));
    true
}

} // verus!
