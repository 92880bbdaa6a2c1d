//! The text form of a duration: `H:MM:SS` with an optional decimal fraction
//! of a second, as split files write it.

use vstd::prelude::*;
use vstd::string::*;
use crate::duration::{clock_nanos, time_to_duration, Duration};
use crate::text::{
    all_digits, decimal_value, digit_value, fields_of, is_digit, is_number, lemma_fields_append,
    lemma_fields_without_separator, number_up_to, parse_decimal, split_fields,
};

verus! {

/// The byte `:`.
pub const COLON: u8 = 58;

/// The byte `.`.
pub const POINT: u8 = 46;

/// The largest number that a field of a duration, a date or a time of day
/// may write, the year apart.
pub const FIELD_MAX: u64 = 255;

/// The most digits a fraction of a second may have.
pub const FRACTION_DIGITS: usize = 7;

/// Ten to the power `n`.
pub open spec fn pow10(n: nat) -> nat
    decreases n,
{
    if n == 0 {
        1
    } else {
        10 * pow10((n - 1) as nat)
    }
}

/// The nanoseconds that a fraction of a second stands for: one to seven
/// digits, read as the decimals behind the point.
pub open spec fn fraction_nanos(digits: Seq<u8>) -> Option<nat> {
    if 1 <= digits.len() <= 7 && all_digits(digits) {
        Some(decimal_value(digits) * pow10((9 - digits.len()) as nat))
    } else {
        None
    }
}

/// The seconds field with its optional fraction: whole seconds and
/// nanoseconds.
pub open spec fn seconds_field(text: Seq<u8>) -> Option<(nat, nat)> {
    let parts = fields_of(text, POINT);
    if parts.len() == 1 {
        match number_up_to(parts[0], FIELD_MAX as nat) {
            Some(seconds) => Some((seconds, 0nat)),
            None => None,
        }
    } else if parts.len() == 2 {
        match (number_up_to(parts[0], FIELD_MAX as nat), fraction_nanos(parts[1])) {
            (Some(seconds), Some(nanos)) => Some((seconds, nanos)),
            _ => None,
        }
    } else {
        None
    }
}

/// The duration in nanoseconds that `text` writes, or `None` where `text` is
/// not of the form `H:MM:SS` or `H:MM:SS.fraction`.
///
/// Hours, minutes and seconds are unsigned decimal numbers up to 255; the
/// fraction has one to seven digits.
pub open spec fn realtime_nanos(text: Seq<u8>) -> Option<nat> {
    let parts = fields_of(text, COLON);
    if parts.len() != 3 {
        None
    } else {
        match (
            number_up_to(parts[0], FIELD_MAX as nat),
            number_up_to(parts[1], FIELD_MAX as nat),
            seconds_field(parts[2]),
        ) {
            (Some(hours), Some(minutes), Some((seconds, nanos))) => Some(
                clock_nanos(hours as int, minutes as int, seconds as int, nanos as int) as nat,
            ),
            _ => None,
        }
    }
}

/// A run of digits writes a number below ten to the power of its length.
pub proof fn lemma_decimal_value_bound(text: Seq<u8>)
    ensures
        decimal_value(text) < pow10(text.len()),
    decreases text.len(),
{
    if text.len() > 0 {
        lemma_decimal_value_bound(text.drop_last());
        assert(digit_value(text.last()) <= 9);
    }
}

/// The first powers of ten.
pub proof fn lemma_pow10_values()
    ensures
        pow10(0) == 1,
        pow10(1) == 10,
        pow10(2) == 100,
        pow10(3) == 1_000,
        pow10(4) == 10_000,
        pow10(5) == 100_000,
        pow10(6) == 1_000_000,
        pow10(7) == 10_000_000,
        pow10(8) == 100_000_000,
        pow10(9) == 1_000_000_000,
{
    reveal_with_fuel(pow10, 10);
}

/// Reads a fraction of a second.
fn parse_fraction(digits: &[u8]) -> (nanos: Option<u32>)
    ensures
        match nanos {
            Some(n) => fraction_nanos(digits@) == Some(n as nat),
            None => fraction_nanos(digits@).is_none(),
        },
{
    let len: usize = digits.len();
    if len < 1 || len > FRACTION_DIGITS {
        return None;
    }
    proof {
        lemma_decimal_value_bound(digits@);
        lemma_pow10_values();
    }
    match parse_decimal(digits, 9_999_999) {
        None => None,
        Some(value) => {
            let unit: u64 = if len == 1 {
                100_000_000
            } else if len == 2 {
                10_000_000
            } else if len == 3 {
                1_000_000
            } else if len == 4 {
                100_000
            } else if len == 5 {
                10_000
            } else if len == 6 {
                1_000
            } else {
                100
            };
            assert(unit == pow10((9 - len) as nat));
            assert(pow10(len as nat) * unit == 1_000_000_000);
            assert(value * unit < 1_000_000_000) by (nonlinear_arith)
                requires
                    value < pow10(len as nat),
                    pow10(len as nat) * unit == 1_000_000_000,
                    unit > 0,
            ;
            Some((value * unit) as u32)
        },
    }
}

/// Reads the seconds field with its optional fraction.
fn parse_seconds(text: &[u8]) -> (field: Option<(u8, u32)>)
    ensures
        match field {
            Some((seconds, nanos)) => seconds_field(text@) == Some(
                (seconds as nat, nanos as nat),
            ),
            None => seconds_field(text@).is_none(),
        },
{
    let parts: Vec<Vec<u8>> = split_fields(text, POINT);
    let ghost fields = fields_of(text@, POINT);
    if parts.len() == 1 {
        assert(parts@[0]@ == fields[0]);
        match parse_decimal(parts[0].as_slice(), FIELD_MAX) {
            Some(seconds) => Some((seconds as u8, 0)),
            None => None,
        }
    } else if parts.len() == 2 {
        assert(parts@[0]@ == fields[0]);
        assert(parts@[1]@ == fields[1]);
        match parse_decimal(parts[0].as_slice(), FIELD_MAX) {
            Some(seconds) => match parse_fraction(parts[1].as_slice()) {
                Some(nanos) => Some((seconds as u8, nanos)),
                None => None,
            },
            None => None,
        }
    } else {
        None
    }
}

/// Reads a duration from its text form `H:MM:SS` or `H:MM:SS.fraction`.
///
/// The result is `None` exactly where the text is not of that form.
pub fn build_duration_from_realtime_str(realtime: &str) -> (duration: Option<Duration>)
    ensures
        match duration {
            Some(d) => realtime_nanos(realtime.spec_bytes()) == Some(d@),
            None => realtime_nanos(realtime.spec_bytes()).is_none(),
        },
{
    parse_realtime(realtime.as_bytes())
}

/// Reads a duration from the bytes of its text form.
pub fn parse_realtime(text: &[u8]) -> (duration: Option<Duration>)
    ensures
        match duration {
            Some(d) => realtime_nanos(text@) == Some(d@),
            None => realtime_nanos(text@).is_none(),
        },
{
    let parts: Vec<Vec<u8>> = split_fields(text, COLON);
    let ghost fields = fields_of(text@, COLON);
    if parts.len() != 3 {
        return None;
    }
    assert(parts@[0]@ == fields[0]);
    assert(parts@[1]@ == fields[1]);
    assert(parts@[2]@ == fields[2]);
    let hours: u64 = match parse_decimal(parts[0].as_slice(), FIELD_MAX) {
        Some(hours) => hours,
        None => {
            return None;
        },
    };
    let minutes: u64 = match parse_decimal(parts[1].as_slice(), FIELD_MAX) {
        Some(minutes) => minutes,
        None => {
            return None;
        },
    };
    match parse_seconds(parts[2].as_slice()) {
        Some((seconds, nanos)) => Some(
            time_to_duration(hours as u8, minutes as u8, seconds, nanos),
        ),
        None => None,
    }
}

/// The shortest decimal writing of `n`.
pub open spec fn numeral(n: nat) -> Seq<u8>
    decreases n,
{
    if n < 10 {
        seq![(48 + n) as u8]
    } else {
        numeral(n / 10).push((48 + n % 10) as u8)
    }
}

/// The last `width` decimal digits of `n`, with leading zeros.
pub open spec fn padded(n: nat, width: nat) -> Seq<u8>
    decreases width,
{
    if width == 0 {
        Seq::<u8>::empty()
    } else {
        padded(n / 10, (width - 1) as nat).push((48 + n % 10) as u8)
    }
}

/// The text form of a duration of `nanos` nanoseconds: the hours, two digits
/// of minutes, two digits of seconds, and seven decimals of a second. What
/// lies below a tenth of a microsecond is cut off.
pub open spec fn realtime_text(nanos: nat) -> Seq<u8> {
    let seconds = nanos / 1_000_000_000;
    let ticks = (nanos % 1_000_000_000) / 100;
    (numeral(seconds / 3600).push(COLON) + padded((seconds % 3600) / 60, 2)).push(COLON) + (
    padded(seconds % 60, 2).push(POINT) + padded(ticks, 7))
}

/// `numeral(n)` is a number and writes `n`.
pub proof fn lemma_numeral(n: nat)
    ensures
        is_number(numeral(n)),
        decimal_value(numeral(n)) == n,
    decreases n,
{
    if n < 10 {
        let text = numeral(n);
        assert(text.drop_last() == Seq::<u8>::empty());
        assert(decimal_value(text.drop_last()) == 0);
    } else {
        lemma_numeral(n / 10);
        let text = numeral(n);
        assert(text.drop_last() == numeral(n / 10));
        assert forall|i: int| 0 <= i < text.len() implies is_digit(#[trigger] text[i]) by {
            if i < text.len() - 1 {
                assert(text[i] == numeral(n / 10)[i]);
            }
        }
    }
}

/// `padded(n, width)` has `width` digits and writes `n` where `n` fits.
pub proof fn lemma_padded(n: nat, width: nat)
    requires
        n < pow10(width),
    ensures
        padded(n, width).len() == width,
        all_digits(padded(n, width)),
        decimal_value(padded(n, width)) == n,
    decreases width,
{
    if width > 0 {
        lemma_padded(n / 10, (width - 1) as nat);
        let text = padded(n, width);
        assert(text.drop_last() == padded(n / 10, (width - 1) as nat));
        assert forall|i: int| 0 <= i < text.len() implies is_digit(#[trigger] text[i]) by {
            if i < text.len() - 1 {
                assert(text[i] == padded(n / 10, (width - 1) as nat)[i]);
            }
        }
    }
}

/// Writing a duration and reading the text again gives the duration back.
///
/// This holds of every duration that the text form can express: a whole
/// number of tenths of a microsecond, below 256 hours.
pub proof fn lemma_realtime_round_trip(nanos: nat)
    requires
        nanos % 100 == 0,
        nanos < 256 * 3600 * 1_000_000_000,
    ensures
        realtime_nanos(realtime_text(nanos)) == Some(nanos),
{
    let seconds = nanos / 1_000_000_000;
    let ticks = (nanos % 1_000_000_000) / 100;
    let h = seconds / 3600;
    let m = (seconds % 3600) / 60;
    let s = seconds % 60;
    let hh = numeral(h);
    let mm = padded(m, 2);
    let ss = padded(s, 2);
    let ff = padded(ticks, 7);
    let tail = ss.push(POINT) + ff;
    lemma_pow10_values();
    lemma_numeral(h);
    lemma_padded(m, 2);
    lemma_padded(s, 2);
    lemma_padded(ticks, 7);
    assert forall|i: int| 0 <= i < tail.len() implies tail[i] != COLON by {
        if i < 2 {
            assert(is_digit(ss[i]));
        } else if i > 2 {
            assert(is_digit(ff[i - 3]));
        }
    }
    lemma_fields_append(hh.push(COLON) + mm, COLON, tail);
    assert forall|i: int| 0 <= i < mm.len() implies mm[i] != COLON by {
        assert(is_digit(mm[i]));
    }
    lemma_fields_append(hh, COLON, mm);
    assert forall|i: int| 0 <= i < hh.len() implies hh[i] != COLON by {
        assert(is_digit(hh[i]));
    }
    lemma_fields_without_separator(hh, COLON);
    let parts = fields_of(realtime_text(nanos), COLON);
    assert(parts == seq![hh, mm, tail]);
    assert forall|i: int| 0 <= i < ff.len() implies ff[i] != POINT by {
        assert(is_digit(ff[i]));
    }
    lemma_fields_append(ss, POINT, ff);
    assert forall|i: int| 0 <= i < ss.len() implies ss[i] != POINT by {
        assert(is_digit(ss[i]));
    }
    lemma_fields_without_separator(ss, POINT);
    assert(fields_of(tail, POINT) == seq![ss, ff]);
    assert(fraction_nanos(ff) == Some(ticks * 100));
    assert(seconds_field(tail) == Some((s, ticks * 100)));
    assert(seconds == h * 3600 + m * 60 + s);
    assert(nanos == seconds * 1_000_000_000 + ticks * 100);
}

/// Appends the shortest decimal writing of `n`.
fn push_numeral(out: &mut Vec<u8>, n: u64)
    ensures
        final(out)@ == old(out)@ + numeral(n as nat),
    decreases n,
{
    if n >= 10 {
        push_numeral(out, n / 10);
    }
    out.push((48 + n % 10) as u8);
}

/// Appends the last `width` decimal digits of `n`.
fn push_padded(out: &mut Vec<u8>, n: u64, width: usize)
    ensures
        final(out)@ == old(out)@ + padded(n as nat, width as nat),
    decreases width,
{
    if width > 0 {
        push_padded(out, n / 10, width - 1);
        out.push((48 + n % 10) as u8);
    }
}

/// Writes a duration in its text form, `H:MM:SS.fffffff`.
pub fn format_realtime(duration: Duration) -> (text: Vec<u8>)
    ensures
        text@ == realtime_text(duration@),
{
    let seconds: u64 = duration.nanos / 1_000_000_000;
    let ticks: u64 = (duration.nanos % 1_000_000_000) / 100;
    let mut text: Vec<u8> = Vec::new();
    push_numeral(&mut text, seconds / 3600);
    text.push(COLON);
    push_padded(&mut text, (seconds % 3600) / 60, 2);
    text.push(COLON);
    push_padded(&mut text, seconds % 60, 2);
    text.push(POINT);
    push_padded(&mut text, ticks, 7);
    proof {
        assert(text@ == realtime_text(duration@));
    }
    text
}

} // verus!
