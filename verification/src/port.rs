//! Port numbers as decimal digits.

use crate::text::is_ascii_digit;
use vstd::prelude::*;

verus! {

/// Every character of `digits` is one of `0` to `9`.
pub open spec fn all_digits(digits: Seq<char>) -> bool {
    forall|i: int| 0 <= i < digits.len() ==> is_ascii_digit(#[trigger] digits[i])
}

/// The number that the decimal digits spell; leading zeros count for nothing.
pub open spec fn decimal_value(digits: Seq<char>) -> int
    decreases digits.len(),
{
    if digits.len() == 0 {
        0
    } else {
        10 * decimal_value(digits.drop_last()) + (digits.last() as int - '0' as int)
    }
}

/// The port that `digits` spells: they are decimal digits, at least one, and
/// their number fits in 16 bits.
pub open spec fn port_of(digits: Seq<char>) -> Option<u16> {
    if digits.len() > 0 && all_digits(digits) && decimal_value(digits) <= u16::MAX {
        Some(decimal_value(digits) as u16)
    } else {
        None
    }
}

/// The decimal digit for `n`, which is below 10.
pub open spec fn digit_char(n: int) -> char {
    ('0' as int + n) as char
}

/// `n` in decimal digits, without leading zeros.
pub open spec fn decimal_text(n: int) -> Seq<char>
    decreases n,
{
    if n < 10 {
        seq![digit_char(n)]
    } else {
        decimal_text(n / 10).push(digit_char(n % 10))
    }
}

/// The digits read so far never spell more than all of them do.
pub proof fn lemma_decimal_value_grows(digits: Seq<char>, k: int)
    requires
        all_digits(digits),
        0 <= k <= digits.len(),
    ensures
        0 <= decimal_value(digits.take(k)) <= decimal_value(digits),
    decreases digits.len() - k,
{
    if k == digits.len() {
        assert(digits.take(k) =~= digits);
        lemma_decimal_value_min(digits);
    } else {
        lemma_decimal_value_grows(digits, k + 1);
        assert(digits.take(k + 1).drop_last() =~= digits.take(k));
        assert(is_ascii_digit(digits[k]));
        assert(digits.take(k + 1).last() == digits[k]);
        lemma_decimal_value_min(digits.take(k));
    }
}

/// Digits spell no negative number.
pub proof fn lemma_decimal_value_min(digits: Seq<char>)
    requires
        all_digits(digits),
    ensures
        0 <= decimal_value(digits),
    decreases digits.len(),
{
    if digits.len() > 0 {
        assert(is_ascii_digit(digits.last()));
        assert forall|i: int| 0 <= i < digits.drop_last().len() implies is_ascii_digit(
            #[trigger] digits.drop_last()[i],
        ) by {
            assert(digits.drop_last()[i] == digits[i]);
        }
        lemma_decimal_value_min(digits.drop_last());
    }
}

/// What is written for a number is digits that spell the number.
pub proof fn lemma_decimal_text(n: int)
    requires
        0 <= n,
    ensures
        decimal_text(n).len() > 0,
        all_digits(decimal_text(n)),
        decimal_value(decimal_text(n)) == n,
    decreases n,
{
    if n < 10 {
        let text = decimal_text(n);
        assert(text.drop_last() =~= Seq::<char>::empty());
        assert(decimal_value(text.drop_last()) == 0);
    } else {
        lemma_decimal_text(n / 10);
        let head = decimal_text(n / 10);
        let text = head.push(digit_char(n % 10));
        assert(text.drop_last() =~= head);
        assert forall|i: int| 0 <= i < text.len() implies is_ascii_digit(#[trigger] text[i]) by {
            if i < head.len() {
                assert(text[i] == head[i]);
            }
        }
    }
}

/// A port that was written is read back.
pub proof fn lemma_port_read_back(port: u16)
    ensures
        port_of(decimal_text(port as int)) == Some(port),
{
    lemma_decimal_text(port as int);
}

/// The port that `chars[from..to]` spells, if it spells one.
pub fn read_port(chars: &Vec<char>, from: usize, to: usize) -> (r: Option<u16>)
    requires
        from <= to <= chars.len(),
    ensures
        r == port_of(chars@.subrange(from as int, to as int)),
{
    let ghost digits = chars@.subrange(from as int, to as int);
    if from == to {
        return None;
    }
    let mut value: u32 = 0;
    let mut i: usize = from;
    assert(digits.take(0) =~= Seq::<char>::empty());
    while i < to
        invariant
            from <= i <= to <= chars.len(),
            from < to,
            digits == chars@.subrange(from as int, to as int),
            all_digits(digits.take(i - from)),
            value == decimal_value(digits.take(i - from)),
            value <= u16::MAX,
        decreases to - i,
    {
        let c = chars[i];
        let ghost read = digits.take(i - from);
        let ghost next = digits.take(i - from + 1);
        assert(digits[i - from] == c);
        if !('0' <= c && c <= '9') {
            return None;
        }
        let digit: u32 = c as u32 - '0' as u32;
        proof {
            assert(next.drop_last() =~= read);
            assert(next.last() == c);
            assert forall|j: int| 0 <= j < next.len() implies is_ascii_digit(#[trigger] next[j]) by {
                if j < read.len() {
                    assert(next[j] == read[j]);
                }
            }
        }
        value = value * 10 + digit;
        if value > 65535 {
            proof {
                if all_digits(digits) {
                    lemma_decimal_value_grows(digits, i - from + 1);
                }
            }
            return None;
        }
        i += 1;
    }
    assert(digits.take(i - from) =~= digits);
    Some(value as u16)
}

/// Appends `port` to `out` in decimal digits.
pub fn write_port(out: &mut String, port: u16)
    ensures
        final(out)@ == old(out)@ + decimal_text(port as int),
    decreases port,
{
    if port >= 10 {
        write_port(out, port / 10);
    }
    let digit: u8 = (port % 10) as u8;
    out.push(('0' as u8 + digit) as char);
    assert(out@ =~= old(out)@ + decimal_text(port as int));
}

} // verus!
