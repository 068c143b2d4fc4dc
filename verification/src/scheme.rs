//! The scheme of a URL: one of four fixed words, recognised at the start of a
//! text.

use crate::text::{begins_with, to_chars};
use vstd::prelude::*;
use vstd::string::StringExecFns;

verus! {

/// The transport of a URL.
///
/// The variants stand in the order in which they are tried when a text is
/// read: `ws` is the beginning of `wss`, and `http` that of `https`, so the
/// longer word of each pair comes first.
#[derive(PartialEq, Eq, Copy, Clone, Debug, Structural)]
pub enum Scheme {
    Wss,
    Ws,
    Https,
    Http,
}

/// No scheme stands at the start of the text.
#[derive(PartialEq, Eq, Copy, Clone, Debug, Structural)]
pub struct SchemeParsingError;

impl Scheme {
    /// The word that stands for the scheme in a URL.
    pub open spec fn text(self) -> Seq<char> {
        match self {
            Scheme::Wss => seq!['w', 's', 's'],
            Scheme::Ws => seq!['w', 's'],
            Scheme::Https => seq!['h', 't', 't', 'p', 's'],
            Scheme::Http => seq!['h', 't', 't', 'p'],
        }
    }

    /// The schemes in the order in which they are tried.
    pub open spec fn candidates() -> Seq<Scheme> {
        seq![Scheme::Wss, Scheme::Ws, Scheme::Https, Scheme::Http]
    }

    /// The first scheme of `list` whose word `input` begins with.
    pub open spec fn first_match(list: Seq<Scheme>, input: Seq<char>) -> Option<Scheme>
        decreases list.len(),
    {
        if list.len() == 0 {
            None
        } else if list[0].text().is_prefix_of(input) {
            Some(list[0])
        } else {
            Scheme::first_match(list.skip(1), input)
        }
    }

    /// The first scheme, in the order of the candidates, whose word `input`
    /// begins with.
    pub open spec fn recognize(input: Seq<char>) -> Option<Scheme> {
        Scheme::first_match(Scheme::candidates(), input)
    }

    /// The scheme that `input` begins with, and what follows its word.
    pub open spec fn parse_spec(input: Seq<char>) -> Option<(Scheme, Seq<char>)> {
        match Scheme::recognize(input) {
            Some(scheme) => Some((scheme, input.skip(scheme.text().len() as int))),
            None => None,
        }
    }

    /// The word that stands for the scheme in a URL.
    pub fn as_str(&self) -> (word: &'static str)
        ensures
            word@ == self.text(),
    {
        proof {
            reveal_strlit("wss");
            reveal_strlit("ws");
            reveal_strlit("https");
            reveal_strlit("http");
        }
        let word = match self {
            Scheme::Wss => "wss",
            Scheme::Ws => "ws",
            Scheme::Https => "https",
            Scheme::Http => "http",
        };
        assert(word@ =~= self.text());
        word
    }

    /// The word that stands for the scheme in a URL, as a string of its own.
    pub fn to_string(&self) -> (word: String)
        ensures
            word@ == self.text(),
    {
        String::from_str(self.as_str())
    }

    /// The schemes in the order in which they are tried.
    pub fn variants() -> (list: [Scheme; 4])
        ensures
            list@ == Scheme::candidates(),
    {
        let list = [Scheme::Wss, Scheme::Ws, Scheme::Https, Scheme::Http];
        assert(list@ =~= Scheme::candidates());
        list
    }

    /// Reads the scheme at the start of `input` and returns it with the rest of
    /// the text.
    pub fn parse(input: &str) -> (r: Result<(Scheme, &str), SchemeParsingError>)
        ensures
            match Scheme::parse_spec(input@) {
                Some((scheme, rest)) => r matches Ok((s, tail)) && s == scheme && tail@ == rest,
                None => r is Err,
            },
    {
        let chars = to_chars(input);
        let list = Scheme::variants();
        let mut i: usize = 0;
        assert(list@.skip(0) =~= list@);
        while i < 4
            invariant
                i <= 4,
                list@ == Scheme::candidates(),
                chars@ == input@,
                Scheme::recognize(input@) == Scheme::first_match(list@.skip(i as int), input@),
            decreases 4 - i,
        {
            let scheme = list[i];
            assert(list@.skip(i as int)[0] == scheme);
            assert(chars@.skip(0) =~= input@);
            if begins_with(&chars, 0, scheme.as_str()) {
                let word = to_chars(scheme.as_str());
                return Ok((scheme, input.substring_char(word.len(), chars.len())));
            }
            assert(list@.skip(i as int).skip(1) =~= list@.skip(i + 1));
            i += 1;
        }
        Err(SchemeParsingError)
    }
}

/// The text begins with the word of the scheme that is read from it.
pub proof fn lemma_read_scheme_is_prefix(input: Seq<char>)
    requires
        Scheme::recognize(input) is Some,
    ensures
        Scheme::recognize(input)->0.text().is_prefix_of(input),
{
    reveal_with_fuel(Scheme::first_match, 5);
}

/// No scheme is hidden by one that is tried before it: no word begins with
/// the word of an earlier candidate. The longer word of `wss` and `ws`, and of
/// `https` and `http`, is tried first.
pub proof fn lemma_longer_word_first()
    ensures
        forall|i: int, j: int|
            0 <= i < j < Scheme::candidates().len() ==> !(#[trigger] Scheme::candidates()[i])
                .text().is_prefix_of((#[trigger] Scheme::candidates()[j]).text()),
{
    let list = Scheme::candidates();
    assert(list[0].text()[2] == 's');
    assert(list[0].text()[0] == 'w');
    assert(list[1].text()[0] == 'w');
    assert(list[2].text()[4] == 's');
    assert(list[2].text()[0] == 'h');
    assert(list[3].text()[0] == 'h');
    assert forall|i: int, j: int| 0 <= i < j < list.len() implies !(#[trigger] list[i])
        .text().is_prefix_of((#[trigger] list[j]).text()) by {
        let a = list[i].text();
        let b = list[j].text();
        if a.is_prefix_of(b) {
            assert(b.subrange(0, a.len() as int)[0] == b[0]);
            if a.len() == 5 {
                assert(b.subrange(0, 5)[4] == b[4]);
            }
        }
    }
}

/// A scheme's word is read back as that scheme, whatever follows it, unless
/// what follows turns `ws` into `wss` or `http` into `https`. So a text that
/// begins with `wss://` is read as `Wss`, never as `Ws`, and one that begins
/// with `ws://` as `Ws`.
pub proof fn lemma_scheme_read_back(scheme: Scheme, rest: Seq<char>)
    requires
        scheme == Scheme::Ws || scheme == Scheme::Http ==> rest.len() == 0 || rest[0] != 's',
    ensures
        Scheme::parse_spec(scheme.text() + rest) == Some((scheme, rest)),
{
    let input = scheme.text() + rest;
    reveal_with_fuel(Scheme::first_match, 5);
    assert(input.skip(scheme.text().len() as int) =~= rest);
    assert(scheme.text() =~= input.subrange(0, scheme.text().len() as int));
    assert(input[0] == scheme.text()[0]);
    match scheme {
        Scheme::Wss => {},
        Scheme::Ws => {
            if Scheme::Wss.text().is_prefix_of(input) {
                assert(input.subrange(0, 3)[2] == 's');
            }
        },
        Scheme::Https => {
            if Scheme::Wss.text().is_prefix_of(input) {
                assert(input.subrange(0, 3)[0] == 'w');
            }
            if Scheme::Ws.text().is_prefix_of(input) {
                assert(input.subrange(0, 2)[0] == 'w');
            }
        },
        Scheme::Http => {
            if Scheme::Wss.text().is_prefix_of(input) {
                assert(input.subrange(0, 3)[0] == 'w');
            }
            if Scheme::Ws.text().is_prefix_of(input) {
                assert(input.subrange(0, 2)[0] == 'w');
            }
            if Scheme::Https.text().is_prefix_of(input) {
                assert(input.subrange(0, 5)[4] == 's');
            }
        },
    }
}

} // verus!
