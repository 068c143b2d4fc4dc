//! Percent-encoding: which bytes a URL component escapes, how a component is
//! escaped and how a raw component is read back.

use vstd::prelude::*;
use vstd::string::StringExecFns;
use vstd::utf8::{decode_utf8, encode_utf8, is_ascii_chars, valid_utf8};

verus! {

broadcast use vstd::utf8::group_utf8_lib;

/// The ASCII characters that are escaped besides the control characters: the
/// ones that could end a component, or begin an escape.
pub open spec fn reserved(c: char) -> bool {
    c == ' ' || c == '"' || c == '`' || c == '<' || c == '>' || c == '?' || c == '#' || c == '='
        || c == '&' || c == '{' || c == '}' || c == '%'
}

/// Whether the byte `b` of a component is written as an escape: every byte
/// that is not ASCII, every control character, and the reserved characters.
pub open spec fn escaped(b: u8) -> bool {
    b >= 0x80 || b < 0x20 || b == 0x7f || reserved(b as char)
}

/// The upper-case hexadecimal digit for `n`, which is below 16.
pub open spec fn hex_upper(n: int) -> char {
    if n < 10 {
        ('0' as int + n) as char
    } else {
        ('A' as int + n - 10) as char
    }
}

/// The value of the hexadecimal digit `b`, in either case, if it is one.
pub open spec fn hex_value(b: u8) -> Option<int> {
    if 0x30 <= b <= 0x39 {
        Some(b - 0x30)
    } else if 0x41 <= b <= 0x46 {
        Some(b - 0x41 + 10)
    } else if 0x61 <= b <= 0x66 {
        Some(b - 0x61 + 10)
    } else {
        None
    }
}

/// The escape of the byte `b`: `%` and two upper-case hexadecimal digits.
pub open spec fn escape_of(b: u8) -> Seq<char> {
    seq!['%', hex_upper(b as int / 16), hex_upper(b as int % 16)]
}

/// How one byte of a component is written.
pub open spec fn encode_byte(b: u8) -> Seq<char> {
    if escaped(b) {
        escape_of(b)
    } else {
        seq![b as char]
    }
}

/// How a run of bytes is written: byte by byte.
pub open spec fn encode_bytes(bytes: Seq<u8>) -> Seq<char>
    decreases bytes.len(),
{
    if bytes.len() == 0 {
        Seq::empty()
    } else {
        encode_byte(bytes[0]) + encode_bytes(bytes.skip(1))
    }
}

/// How a component is written in a URL: its UTF-8 bytes, each escaped where
/// it has to be.
pub open spec fn encode_text(text: Seq<char>) -> Seq<char> {
    encode_bytes(encode_utf8(text))
}

/// The bytes that a raw run of bytes stands for: each `%` that two
/// hexadecimal digits follow is replaced, with them, by the byte they spell;
/// every other byte stands for itself.
pub open spec fn percent_decode(bytes: Seq<u8>) -> Seq<u8>
    decreases bytes.len(),
{
    if bytes.len() == 0 {
        Seq::empty()
    } else if bytes[0] == 0x25 && bytes.len() >= 3 && hex_value(bytes[1]) is Some && hex_value(
        bytes[2],
    ) is Some {
        seq![(hex_value(bytes[1])->0 * 16 + hex_value(bytes[2])->0) as u8] + percent_decode(
            bytes.skip(3),
        )
    } else {
        seq![bytes[0]] + percent_decode(bytes.skip(1))
    }
}

/// The text that a raw component stands for, if its decoded bytes are UTF-8.
pub open spec fn decode_text(raw: Seq<char>) -> Option<Seq<char>> {
    let bytes = percent_decode(encode_utf8(raw));
    if valid_utf8(bytes) {
        Some(decode_utf8(bytes))
    } else {
        None
    }
}

/// `percent_encoding::percent_encode_byte`: the escape of one byte, which is
/// `%` followed by the byte's two upper-case hexadecimal digits.
pub assume_specification[ percent_encoding::percent_encode_byte ](byte: u8) -> (escape:
    &'static str)
    ensures
        escape@ == escape_of(byte),
;

/// The error of `core::str::from_utf8`, which `PercentDecode::decode_utf8`
/// hands on. Nothing is read from it.
#[verifier::external_type_specification]
#[verifier::external_body]
pub struct ExUtf8Error(core::str::Utf8Error);

/// `percent_encoding::percent_decode_str` and then
/// `percent_encoding::PercentDecode::decode_utf8`: the bytes of `raw` are
/// percent-decoded, and the result is the string with those bytes, or an
/// error where they are not UTF-8.
#[verifier::external_body]
fn percent_decode_utf8(raw: &str) -> (r: Result<String, core::str::Utf8Error>)
    ensures
        r is Ok <==> valid_utf8(percent_decode(encode_utf8(raw@))),
        r matches Ok(text) ==> encode_utf8(text@) == percent_decode(encode_utf8(raw@)),
{
    match percent_encoding::percent_decode_str(raw).decode_utf8() {
        Ok(text) => Ok(text.into_owned()),
        Err(e) => Err(e),
    }
}

/// Whether `c` is one of the reserved characters.
pub fn is_reserved(c: char) -> (r: bool)
    ensures
        r == reserved(c),
{
    c == ' ' || c == '"' || c == '`' || c == '<' || c == '>' || c == '?' || c == '#' || c == '='
        || c == '&' || c == '{' || c == '}' || c == '%'
}

/// Whether the byte `b` of a component is written as an escape.
pub fn must_escape(b: u8) -> (r: bool)
    ensures
        r == escaped(b),
{
    b >= 0x80 || b < 0x20 || b == 0x7f || is_reserved(b as char)
}

/// Writing two runs of bytes one after the other.
pub proof fn lemma_encode_bytes_concat(a: Seq<u8>, b: Seq<u8>)
    ensures
        encode_bytes(a + b) == encode_bytes(a) + encode_bytes(b),
    decreases a.len(),
{
    if a.len() == 0 {
        assert(a + b =~= b);
        assert(encode_bytes(a) + encode_bytes(b) =~= encode_bytes(b));
    } else {
        assert((a + b)[0] == a[0]);
        assert((a + b).skip(1) =~= a.skip(1) + b);
        lemma_encode_bytes_concat(a.skip(1), b);
        assert(encode_bytes(a + b) =~= encode_bytes(a) + encode_bytes(b));
    }
}

/// Appends to `out` the component `text` as it is written in a URL.
pub fn encode_into(out: &mut String, text: &str)
    ensures
        final(out)@ == old(out)@ + encode_text(text@),
{
    let bytes = text.as_bytes();
    let mut i: usize = 0;
    assert(bytes@.take(0) =~= Seq::<u8>::empty());
    assert(out@ =~= old(out)@ + encode_bytes(bytes@.take(0)));
    while i < bytes.len()
        invariant
            i <= bytes.len(),
            bytes@ == encode_utf8(text@),
            out@ == old(out)@ + encode_bytes(bytes@.take(i as int)),
        decreases bytes.len() - i,
    {
        let b: u8 = bytes[i];
        proof {
            lemma_encode_bytes_concat(bytes@.take(i as int), seq![b]);
            assert(bytes@.take(i + 1) =~= bytes@.take(i as int) + seq![b]);
            assert(seq![b].skip(1) =~= Seq::<u8>::empty());
            assert(encode_bytes(seq![b].skip(1)) =~= Seq::<char>::empty());
            assert(encode_bytes(seq![b]) =~= encode_byte(b));
        }
        if must_escape(b) {
            out.append(percent_encoding::percent_encode_byte(b));
        } else {
            out.push(b as char);
        }
        assert(out@ =~= old(out)@ + encode_bytes(bytes@.take(i + 1)));
        i += 1;
    }
    assert(bytes@.take(i as int) =~= bytes@);
}

/// The component `text` as it is written in a URL.
pub fn encode(text: &str) -> (out: String)
    ensures
        out@ == encode_text(text@),
{
    let mut out = String::new();
    encode_into(&mut out, text);
    assert(Seq::<char>::empty() + encode_text(text@) =~= encode_text(text@));
    out
}

/// The text that the raw component `raw` stands for, or nothing where its
/// decoded bytes are not UTF-8.
pub fn decode(raw: &str) -> (r: Option<String>)
    ensures
        match decode_text(raw@) {
            Some(text) => r matches Some(s) && s@ == text,
            None => r is None,
        },
{
    match percent_decode_utf8(raw) {
        Ok(text) => Some(text),
        Err(_) => None,
    }
}

/// The characters that stand for themselves in a written component.
pub open spec fn unreserved(c: char) -> bool {
    c <= '\x7f' && !escaped(c as u8)
}

/// The UTF-8 bytes of two texts, one after the other.
pub proof fn lemma_encode_utf8_concat(a: Seq<char>, b: Seq<char>)
    ensures
        encode_utf8(a + b) == encode_utf8(a) + encode_utf8(b),
    decreases a.len(),
{
    if a.len() == 0 {
        assert(a + b =~= b);
        assert(encode_utf8(a) + encode_utf8(b) =~= encode_utf8(b));
    } else {
        assert((a + b)[0] == a[0]);
        assert((a + b).drop_first() =~= a.drop_first() + b);
        lemma_encode_utf8_concat(a.drop_first(), b);
        assert(encode_utf8(a + b) =~= encode_utf8(a) + encode_utf8(b));
    }
}

/// A hexadecimal digit that was written is read back with its value.
pub proof fn lemma_hex_digit(n: int)
    requires
        0 <= n < 16,
    ensures
        hex_upper(n) <= '\x7f',
        unreserved(hex_upper(n)),
        hex_value(hex_upper(n) as u8) == Some(n),
{
}

/// A written component holds `%` and unreserved characters only.
pub proof fn lemma_encoded_chars(bytes: Seq<u8>)
    ensures
        forall|i: int|
            0 <= i < encode_bytes(bytes).len() ==> {
                let c = #[trigger] encode_bytes(bytes)[i];
                c == '%' || unreserved(c)
            },
        is_ascii_chars(encode_bytes(bytes)),
    decreases bytes.len(),
{
    if bytes.len() > 0 {
        let b = bytes[0];
        lemma_encoded_chars(bytes.skip(1));
        lemma_hex_digit(b as int / 16);
        lemma_hex_digit(b as int % 16);
        let first = encode_byte(b);
        let rest = encode_bytes(bytes.skip(1));
        assert forall|i: int| 0 <= i < encode_bytes(bytes).len() implies {
            let c = #[trigger] encode_bytes(bytes)[i];
            (c == '%' || unreserved(c)) && c <= '\x7f'
        } by {
            if i < first.len() {
                assert(encode_bytes(bytes)[i] == first[i]);
            } else {
                assert(encode_bytes(bytes)[i] == rest[i - first.len()]);
            }
        }
    }
}

/// Reading back what was written gives the bytes that were written.
pub proof fn lemma_decode_encode_bytes(bytes: Seq<u8>)
    ensures
        percent_decode(encode_utf8(encode_bytes(bytes))) == bytes,
    decreases bytes.len(),
{
    if bytes.len() == 0 {
        assert(encode_utf8(encode_bytes(bytes)) =~= Seq::<u8>::empty());
        assert(percent_decode(encode_utf8(encode_bytes(bytes))) =~= bytes);
    } else {
        let b = bytes[0];
        let first = encode_byte(b);
        let rest = encode_bytes(bytes.skip(1));
        let raw = encode_utf8(first + rest);
        lemma_decode_encode_bytes(bytes.skip(1));
        lemma_encode_utf8_concat(first, rest);
        lemma_hex_digit(b as int / 16);
        lemma_hex_digit(b as int % 16);
        assert(is_ascii_chars(first));
        assert(encode_utf8(first).len() == first.len());
        assert(forall|i: int| 0 <= i < first.len() ==> first[i] as u8 == encode_utf8(first)[i]);
        if escaped(b) {
            assert(raw[0] == encode_utf8(first)[0]);
            assert(raw[1] == encode_utf8(first)[1]);
            assert(raw[2] == encode_utf8(first)[2]);
            assert(raw[0] == 0x25);
            assert(raw.skip(3) =~= encode_utf8(rest));
            assert((b as int / 16) * 16 + b as int % 16 == b as int);
        } else {
            assert(raw[0] == encode_utf8(first)[0]);
            assert(raw[0] == b);
            assert(raw.skip(1) =~= encode_utf8(rest));
        }
        assert(percent_decode(raw) =~= bytes);
    }
}

/// What is written for a text is read back as that text, whatever the text
/// holds: an escape, a delimiter, a whole URL.
pub proof fn lemma_decode_encode(text: Seq<char>)
    ensures
        decode_text(encode_text(text)) == Some(text),
{
    lemma_decode_encode_bytes(encode_utf8(text));
}

/// A written component holds none of the characters that end a component.
pub proof fn lemma_encoded_keeps_clear(text: Seq<char>)
    ensures
        forall|i: int|
            0 <= i < encode_text(text).len() ==> !reserved(#[trigger] encode_text(text)[i])
                || encode_text(text)[i] == '%',
{
    lemma_encoded_chars(encode_utf8(text));
}

/// The empty text stands for the empty text.
pub proof fn lemma_decode_empty()
    ensures
        decode_text(Seq::<char>::empty()) == Some(Seq::<char>::empty()),
{
    lemma_decode_encode(Seq::<char>::empty());
    assert(encode_text(Seq::<char>::empty()) =~= Seq::<char>::empty());
}

/// A text that begins with `/` is written with `/` first.
pub proof fn lemma_encode_keeps_slash(text: Seq<char>)
    requires
        text.len() > 0,
        text[0] == '/',
    ensures
        encode_text(text).len() > 0,
        encode_text(text)[0] == '/',
{
    let head = seq![text[0]];
    assert(text =~= head + text.drop_first());
    lemma_encode_utf8_concat(head, text.drop_first());
    assert(is_ascii_chars(head));
    assert(encode_utf8(head).len() == 1);
    assert(encode_utf8(head)[0] == head[0] as u8);
    let bytes = encode_utf8(text);
    assert(bytes[0] == 0x2f);
    assert(encode_byte(bytes[0]) =~= seq!['/']);
}

/// A raw text that begins with `/` stands for a text that begins with `/`.
pub proof fn lemma_decode_keeps_slash(raw: Seq<char>)
    requires
        raw.len() > 0,
        raw[0] == '/',
        decode_text(raw) is Some,
    ensures
        decode_text(raw)->0.len() > 0,
        decode_text(raw)->0[0] == '/',
{
    let head = seq![raw[0]];
    assert(raw =~= head + raw.drop_first());
    lemma_encode_utf8_concat(head, raw.drop_first());
    assert(is_ascii_chars(head));
    assert(encode_utf8(head).len() == 1);
    assert(encode_utf8(head)[0] == head[0] as u8);
    let bytes = encode_utf8(raw);
    assert(bytes[0] == 0x2f);
    let decoded = percent_decode(bytes);
    assert(decoded[0] == 0x2f);
    assert(0x2fu8 & 0x7f == 0x2f) by (bit_vector);
    assert(vstd::utf8::decode_first_scalar(decoded) == 0x2f);
}

} // verus!
