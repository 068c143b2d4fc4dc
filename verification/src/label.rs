//! One segment of a host name: the text between two dots.

use crate::text::{
    alphabetic, find_first, first_in, lemma_first_in_after, none_in, text_of, to_chars,
};
use vstd::prelude::*;

verus! {

/// Why a text is no label.
#[derive(PartialEq, Eq, Copy, Clone, Debug, Structural)]
pub enum LabelError {
    /// The text is empty.
    Empty,
    /// Some character is neither alphabetic nor `_` nor `-`.
    ContainsInvalidChar,
    /// The first character is not alphabetic.
    FirstCharNotAlphabetic,
}

/// Each of the period-separated components of a host name, such as `example`
/// and `com` in `example.com`.
///
/// A label is never empty, begins with an alphabetic character, and holds
/// alphabetic characters, `_` and `-` only: no digits.
#[derive(PartialEq, Eq, Debug)]
pub struct Label(String);

/// The characters that a label may hold.
pub open spec fn allowed(c: char) -> bool {
    alphabetic(c) || c == '_' || c == '-'
}

/// The first reason, if any, for which `text` is no label: that it is empty,
/// then that it begins wrongly, then that it holds a character that is not
/// allowed.
pub open spec fn label_error(text: Seq<char>) -> Option<LabelError> {
    if text.len() == 0 {
        Some(LabelError::Empty)
    } else if !alphabetic(text[0]) {
        Some(LabelError::FirstCharNotAlphabetic)
    } else if !(forall|i: int| 0 <= i < text.len() ==> allowed(#[trigger] text[i])) {
        Some(LabelError::ContainsInvalidChar)
    } else {
        None
    }
}

/// `text` is what a label may hold.
pub open spec fn valid_label(text: Seq<char>) -> bool {
    label_error(text) is None
}

/// The characters before which a label ends.
pub open spec fn label_stops() -> Set<char> {
    set!['/', '.', ':']
}

/// The label at the start of `input`, which runs up to the first of `/`,
/// `.` and `:` or to the end, and what follows it, the delimiter included.
pub open spec fn parse_label(input: Seq<char>) -> Result<(Seq<char>, Seq<char>), LabelError> {
    let n = first_in(input, label_stops());
    match label_error(input.take(n)) {
        Some(e) => Err(e),
        None => Ok((input.take(n), input.skip(n))),
    }
}

/// A label is not empty and holds none of the characters that end a label.
pub proof fn lemma_label_clear(text: Seq<char>)
    requires
        valid_label(text),
    ensures
        text.len() > 0,
        none_in(text, label_stops()),
{
    assert forall|i: int| 0 <= i < text.len() implies !label_stops().contains(#[trigger] text[i]) by {
        assert(allowed(text[i]));
    }
}

/// A label is read back as itself, whatever follows it, if that begins with
/// one of the characters that end a label.
pub proof fn lemma_label_read_back(text: Seq<char>, rest: Seq<char>)
    requires
        valid_label(text),
        rest.len() > 0 ==> label_stops().contains(rest[0]),
    ensures
        parse_label(text + rest) == Ok::<(Seq<char>, Seq<char>), LabelError>((text, rest)),
{
    lemma_label_clear(text);
    lemma_first_in_after(text, rest, label_stops());
    assert((text + rest).take(text.len() as int) =~= text);
    assert((text + rest).skip(text.len() as int) =~= rest);
}

impl View for Label {
    type V = Seq<char>;

    closed spec fn view(&self) -> Seq<char> {
        self.0@
    }
}

impl Clone for Label {
    fn clone(&self) -> (copy: Self)
        ensures
            copy@ == self@,
    {
        proof {
            use_type_invariant(self);
        }
        Label(self.0.clone())
    }
}

impl std::str::FromStr for Label {
    type Err = LabelError;

    /// Makes a label of the whole of `value`, as `Label::from_str` does.
    fn from_str(value: &str) -> (r: Result<Label, LabelError>)
        ensures
            match label_error(value@) {
                Some(e) => r == Err::<Label, LabelError>(e),
                None => r matches Ok(label) && label@ == value@,
            },
    {
        Label::from_str(value)
    }
}

impl Label {
    #[verifier::type_invariant]
    spec fn well_formed(self) -> bool {
        valid_label(self.0@)
    }

    /// Whether a label may hold `c`.
    pub fn char_is_allowed(c: char) -> (b: bool)
        ensures
            b == allowed(c),
    {
        c.is_alphabetic() || c == '_' || c == '-'
    }

    /// The label made of `chars[from..to]`, if that text may be one.
    pub(crate) fn from_chars(chars: &Vec<char>, from: usize, to: usize) -> (r: Result<
        Label,
        LabelError,
    >)
        requires
            from <= to <= chars.len(),
        ensures
            match label_error(chars@.subrange(from as int, to as int)) {
                Some(e) => r == Err::<Label, LabelError>(e),
                None => r matches Ok(label) && label@ == chars@.subrange(from as int, to as int),
            },
    {
        let ghost text = chars@.subrange(from as int, to as int);
        if from == to {
            return Err(LabelError::Empty);
        }
        assert(text[0] == chars@[from as int]);
        if !chars[from].is_alphabetic() {
            return Err(LabelError::FirstCharNotAlphabetic);
        }
        let mut i: usize = from;
        while i < to
            invariant
                from <= i <= to <= chars.len(),
                text == chars@.subrange(from as int, to as int),
                alphabetic(text[0]),
                forall|j: int| 0 <= j < i - from ==> allowed(#[trigger] text[j]),
            decreases to - i,
        {
            assert(text[i - from] == chars@[i as int]);
            if !Label::char_is_allowed(chars[i]) {
                return Err(LabelError::ContainsInvalidChar);
            }
            i += 1;
        }
        Ok(Label(text_of(chars, from, to)))
    }

    /// Makes a label of the whole of `value`.
    pub fn from_str(value: &str) -> (r: Result<Label, LabelError>)
        ensures
            match label_error(value@) {
                Some(e) => r == Err::<Label, LabelError>(e),
                None => r matches Ok(label) && label@ == value@,
            },
    {
        let chars = to_chars(value);
        assert(chars@.subrange(0, chars@.len() as int) =~= value@);
        Label::from_chars(&chars, 0, chars.len())
    }

    /// Reads a label at the start of `input`, up to the first of `/`, `.` and
    /// `:`, and returns it with the rest of the text.
    pub fn parse(input: &str) -> (r: Result<(Label, &str), LabelError>)
        ensures
            match parse_label(input@) {
                Ok((text, rest)) => r matches Ok((label, tail)) && label@ == text && tail@ == rest,
                Err(e) => r matches Err(err) && err == e,
            },
    {
        let chars = to_chars(input);
        proof {
            reveal_strlit("/.:");
            let stops = "/.:"@;
            assert(stops[0] == '/' && stops[1] == '.' && stops[2] == ':');
            assert(stops.to_set() =~= label_stops());
            assert(chars@.subrange(0, chars@.len() as int) =~= input@);
        }
        let n = find_first(&chars, 0, chars.len(), "/.:");
        match Label::from_chars(&chars, 0, n) {
            Ok(label) => Ok((label, input.substring_char(n, chars.len()))),
            Err(e) => Err(e),
        }
    }

    /// The text of the label, as a string of its own.
    pub fn to_string(&self) -> (text: String)
        ensures
            text@ == self@,
    {
        self.0.clone()
    }

    /// The text of the label.
    pub fn as_str(&self) -> (text: &str)
        ensures
            text@ == self@,
            valid_label(text@),
    {
        proof {
            use_type_invariant(self);
        }
        self.0.as_str()
    }
}

} // verus!
