//! Byte-level building blocks of the text formats: separated fields and
//! decimal numbers.

use vstd::prelude::*;
use vstd::slice::slice_subrange;

verus! {

/// The fields of `text` when it is cut at every occurrence of `sep`.
///
/// There is always at least one field; a text without separator is its own
/// single field, and two adjacent separators enclose an empty field.
pub open spec fn fields_of(text: Seq<u8>, sep: u8) -> Seq<Seq<u8>>
    decreases text.len(),
{
    if text.len() == 0 {
        seq![Seq::<u8>::empty()]
    } else {
        let before = fields_of(text.drop_last(), sep);
        if text.last() == sep {
            before.push(Seq::<u8>::empty())
        } else {
            before.drop_last().push(before.last().push(text.last()))
        }
    }
}

/// The contents of a list of byte vectors.
pub open spec fn contents(fields: Seq<Vec<u8>>) -> Seq<Seq<u8>> {
    Seq::new(fields.len(), |i: int| fields[i]@)
}

/// `b` is an ASCII decimal digit.
pub open spec fn is_digit(b: u8) -> bool {
    48 <= b <= 57
}

/// What a byte contributes as a decimal digit; bytes that are no digit count
/// as zero.
pub open spec fn digit_value(b: u8) -> nat {
    if is_digit(b) {
        (b - 48) as nat
    } else {
        0
    }
}

/// Every byte of `text` is a decimal digit.
pub open spec fn all_digits(text: Seq<u8>) -> bool {
    forall|i: int| 0 <= i < text.len() ==> is_digit(#[trigger] text[i])
}

/// `text` is a non-empty run of decimal digits.
pub open spec fn is_number(text: Seq<u8>) -> bool {
    text.len() > 0 && all_digits(text)
}

/// The number that the digits of `text` write in base ten.
pub open spec fn decimal_value(text: Seq<u8>) -> nat
    decreases text.len(),
{
    if text.len() == 0 {
        0
    } else {
        decimal_value(text.drop_last()) * 10 + digit_value(text.last())
    }
}

/// The number written by `text`, provided that `text` is a number no larger
/// than `max`.
pub open spec fn number_up_to(text: Seq<u8>, max: nat) -> Option<nat> {
    if is_number(text) && decimal_value(text) <= max {
        Some(decimal_value(text))
    } else {
        None
    }
}

/// The byte `+`.
pub const PLUS: u8 = 43;

/// The byte `-`.
pub const MINUS: u8 = 45;

/// `text` without the `+` that it may start with.
pub open spec fn without_plus(text: Seq<u8>) -> Seq<u8> {
    if text.len() > 0 && text[0] == PLUS {
        text.drop_first()
    } else {
        text
    }
}

/// The number written by `text` as an unsigned integer: an optional `+`
/// and then a number no larger than `max`.
pub open spec fn unsigned_up_to(text: Seq<u8>, max: nat) -> Option<nat> {
    number_up_to(without_plus(text), max)
}

/// The number written by `text` as a signed integer: an optional `+` or
/// `-` and then a number, the whole no smaller than `min` and no larger than
/// `max`.
pub open spec fn signed_between(text: Seq<u8>, min: int, max: int) -> Option<int>
    recommends
        min <= 0 <= max,
{
    if text.len() > 0 && text[0] == MINUS {
        match number_up_to(text.drop_first(), (-min) as nat) {
            Some(magnitude) => Some(-(magnitude as int)),
            None => None,
        }
    } else {
        match unsigned_up_to(text, max as nat) {
            Some(number) => Some(number as int),
            None => None,
        }
    }
}

/// A text that holds no separator is its own single field.
pub proof fn lemma_fields_without_separator(text: Seq<u8>, sep: u8)
    requires
        forall|i: int| 0 <= i < text.len() ==> text[i] != sep,
    ensures
        fields_of(text, sep) == seq![text],
    decreases text.len(),
{
    if text.len() == 0 {
        assert(text == Seq::<u8>::empty());
    } else {
        lemma_fields_without_separator(text.drop_last(), sep);
        let before = fields_of(text.drop_last(), sep);
        assert(before.drop_last() == Seq::<Seq<u8>>::empty());
        assert(before.last().push(text.last()) == text);
        assert(before.drop_last().push(text) == seq![text]);
    }
}

/// Behind the last separator of a text stands its last field: when `tail`
/// holds no separator, the fields of `head`, `sep`, `tail` are those of
/// `head` followed by `tail`.
pub proof fn lemma_fields_append(head: Seq<u8>, sep: u8, tail: Seq<u8>)
    requires
        forall|i: int| 0 <= i < tail.len() ==> tail[i] != sep,
    ensures
        fields_of(head.push(sep) + tail, sep) == fields_of(head, sep).push(tail),
    decreases tail.len(),
{
    let text = head.push(sep) + tail;
    if tail.len() == 0 {
        assert(text == head.push(sep));
        assert(text.drop_last() == head);
        assert(tail == Seq::<u8>::empty());
    } else {
        lemma_fields_append(head, sep, tail.drop_last());
        assert(text.drop_last() == head.push(sep) + tail.drop_last());
        assert(text.last() == tail.last());
        let before = fields_of(text.drop_last(), sep);
        assert(before == fields_of(head, sep).push(tail.drop_last()));
        assert(before.drop_last() == fields_of(head, sep));
        assert(before.last().push(text.last()) == tail);
    }
}

/// A longer text never writes a smaller number than its beginning.
pub proof fn lemma_decimal_value_prefix(text: Seq<u8>, n: int)
    requires
        0 <= n <= text.len(),
    ensures
        decimal_value(text.take(n)) <= decimal_value(text),
    decreases text.len() - n,
{
    if n == text.len() {
        assert(text.take(n) == text);
    } else {
        lemma_decimal_value_prefix(text.drop_last(), n);
        assert(text.drop_last().take(n) == text.take(n));
    }
}

/// Cuts `text` at every occurrence of `sep`.
pub fn split_fields(text: &[u8], sep: u8) -> (fields: Vec<Vec<u8>>)
    ensures
        contents(fields@) == fields_of(text@, sep),
{
    let mut fields: Vec<Vec<u8>> = Vec::new();
    let mut current: Vec<u8> = Vec::new();
    let mut i: usize = 0;
    proof {
        assert(text@.take(0) == Seq::<u8>::empty());
        assert(contents(fields@).push(current@) == seq![Seq::<u8>::empty()]);
    }
    while i < text.len()
        invariant
            i <= text.len(),
            contents(fields@).push(current@) == fields_of(text@.take(i as int), sep),
        decreases text.len() - i,
    {
        let b: u8 = text[i];
        proof {
            assert(text@.take(i + 1).drop_last() == text@.take(i as int));
            assert(text@.take(i + 1).last() == b);
        }
        let ghost before = contents(fields@).push(current@);
        if b == sep {
            fields.push(current);
            current = Vec::new();
            proof {
                assert(contents(fields@) == before);
                assert(current@ == Seq::<u8>::empty());
            }
        } else {
            current.push(b);
            proof {
                assert(before.drop_last() == contents(fields@));
                assert(current@ == before.last().push(b));
            }
        }
        i += 1;
    }
    proof {
        assert(text@.take(i as int) == text@);
    }
    let ghost before = contents(fields@).push(current@);
    fields.push(current);
    proof {
        assert(contents(fields@) == before);
    }
    fields
}

/// Reads an unsigned decimal number: a non-empty run of ASCII digits, with
/// no sign and no blanks, whose value is at most `max`.
pub fn parse_decimal(text: &[u8], max: u64) -> (number: Option<u64>)
    ensures
        match number {
            Some(n) => number_up_to(text@, max as nat) == Some(n as nat),
            None => number_up_to(text@, max as nat).is_none(),
        },
{
    if text.len() == 0 {
        return None;
    }
    let mut value: u64 = 0;
    let mut i: usize = 0;
    proof {
        assert(text@.take(0) == Seq::<u8>::empty());
    }
    while i < text.len()
        invariant
            i <= text.len(),
            all_digits(text@.take(i as int)),
            value == decimal_value(text@.take(i as int)),
            value <= max,
        decreases text.len() - i,
    {
        let b: u8 = text[i];
        proof {
            assert(text@.take(i + 1).drop_last() == text@.take(i as int));
            assert(text@.take(i + 1).last() == b);
        }
        if b < 48 || b > 57 {
            proof {
                assert(!is_digit(text@[i as int]));
            }
            return None;
        }
        let wide: u128 = (value as u128) * 10 + ((b - 48) as u128);
        if wide > max as u128 {
            proof {
                lemma_decimal_value_prefix(text@, i + 1);
            }
            return None;
        }
        value = wide as u64;
        proof {
            assert forall|k: int| 0 <= k < i + 1 implies is_digit(
                #[trigger] text@.take(i + 1)[k],
            ) by {
                if k < i {
                    assert(text@.take(i as int)[k] == text@[k]);
                }
            }
        }
        i += 1;
    }
    proof {
        assert(text@.take(i as int) == text@);
    }
    Some(value)
}

/// Reads an unsigned integer: an optional `+` and then a non-empty run of
/// ASCII digits, with no blanks, whose value is at most `max`.
pub fn parse_unsigned(text: &[u8], max: u64) -> (number: Option<u64>)
    ensures
        match number {
            Some(n) => unsigned_up_to(text@, max as nat) == Some(n as nat),
            None => unsigned_up_to(text@, max as nat).is_none(),
        },
{
    if text.len() > 0 && text[0] == PLUS {
        let digits: &[u8] = slice_subrange(text, 1, text.len());
        proof {
            assert(digits@ == text@.drop_first());
        }
        parse_decimal(digits, max)
    } else {
        parse_decimal(text, max)
    }
}

/// Reads a signed integer of 32 bits: an optional `+` or `-` and then a
/// non-empty run of ASCII digits, with no blanks.
pub fn parse_i32(text: &[u8]) -> (number: Option<i32>)
    ensures
        match number {
            Some(n) => signed_between(text@, i32::MIN as int, i32::MAX as int) == Some(n as int),
            None => signed_between(text@, i32::MIN as int, i32::MAX as int).is_none(),
        },
{
    if text.len() > 0 && text[0] == MINUS {
        let digits: &[u8] = slice_subrange(text, 1, text.len());
        proof {
            assert(digits@ == text@.drop_first());
        }
        match parse_decimal(digits, 2_147_483_648) {
            Some(magnitude) => Some((0 - magnitude as i64) as i32),
            None => None,
        }
    } else {
        match parse_unsigned(text, 2_147_483_647) {
            Some(n) => Some(n as i32),
            None => None,
        }
    }
}

} // verus!
