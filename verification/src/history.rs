//! The attempts of a run and when each of them started.

use std::collections::BTreeMap;
use vstd::prelude::*;
use vstd::string::*;
use vstd::utf8::encode_utf8;
use crate::builder::{attempt_id_of, ATTEMPT_ID_MAX};
use crate::document::{first_attribute, is_element_named, Element, XmlNode};
use crate::error::SplitsError;
use crate::realtime::{COLON, FIELD_MAX};
use crate::text::{
    fields_of, parse_i32, parse_unsigned, signed_between, split_fields, unsigned_up_to,
};

verus! {

/// The byte that stands between the date and the time of day.
pub const SPACE: u8 = 32;

/// The byte `/`.
pub const SLASH: u8 = 47;

/// The moment an attempt started: a calendar date and a time of day.
#[derive(Clone, Copy, Debug, PartialEq, Eq, Structural, Hash)]
pub struct AttemptStart {
    pub year: i32,
    pub month: u8,
    pub day: u8,
    pub hour: u8,
    pub minute: u8,
    pub second: u8,
}

/// `year` is a leap year of the Gregorian calendar.
pub open spec fn is_leap_year(year: int) -> bool {
    year % 4 == 0 && (year % 100 != 0 || year % 400 == 0)
}

/// The number of days of a month.
pub open spec fn days_in_month(year: int, month: int) -> int {
    if month == 2 {
        if is_leap_year(year) {
            29
        } else {
            28
        }
    } else if month == 4 || month == 6 || month == 9 || month == 11 {
        30
    } else {
        31
    }
}

/// `year`, `month`, `day` name a day of the Gregorian calendar, in a year
/// no further than 100,000 years from year 0.
pub open spec fn calendar_date(year: int, month: int, day: int) -> bool {
    &&& -100_000 <= year <= 100_000
    &&& 1 <= month <= 12
    &&& 1 <= day <= days_in_month(year, month)
}

/// `hour`, `minute`, `second` name a second of the day.
pub open spec fn time_of_day(hour: int, minute: int, second: int) -> bool {
    0 <= hour <= 23 && 0 <= minute <= 59 && 0 <= second <= 59
}

/// Asks `time::Date::try_from_ymd` whether it accepts the date.
///
/// It accepts the year from -100,000 to 100,000, the month from 1 to 12 and
/// the day from 1 to the number of days of that month, February having 29
/// days in leap years and 28 in others.
#[verifier::external_body]
fn is_calendar_date(year: i32, month: u8, day: u8) -> (valid: bool)
    ensures
        valid == calendar_date(year as int, month as int, day as int),
{
    time::Date::try_from_ymd(year, month, day).is_ok()
}

/// Asks `time::Time::try_from_hms` whether it accepts the time of day.
///
/// It accepts the hour up to 23, the minute and the second up to 59.
#[verifier::external_body]
fn is_time_of_day(hour: u8, minute: u8, second: u8) -> (valid: bool)
    ensures
        valid == time_of_day(hour as int, minute as int, second as int),
{
    time::Time::try_from_hms(hour, minute, second).is_ok()
}

/// The month, the day and the year that begin the fields of a date. Month
/// and day are unsigned integers up to 255, the year is a signed integer of
/// 32 bits.
pub open spec fn date_fields(fields: Seq<Seq<u8>>) -> Option<(nat, nat, int)> {
    if fields.len() < 3 {
        None
    } else {
        match (
            unsigned_up_to(fields[0], FIELD_MAX as nat),
            unsigned_up_to(fields[1], FIELD_MAX as nat),
            signed_between(fields[2], i32::MIN as int, i32::MAX as int),
        ) {
            (Some(month), Some(day), Some(year)) => Some((month, day, year)),
            _ => None,
        }
    }
}

/// The hour, the minute and the second that begin the fields of a time of
/// day: unsigned integers up to 255.
pub open spec fn time_fields(fields: Seq<Seq<u8>>) -> Option<(nat, nat, nat)> {
    if fields.len() < 3 {
        None
    } else {
        match (
            unsigned_up_to(fields[0], FIELD_MAX as nat),
            unsigned_up_to(fields[1], FIELD_MAX as nat),
            unsigned_up_to(fields[2], FIELD_MAX as nat),
        ) {
            (Some(hour), Some(minute), Some(second)) => Some((hour, minute, second)),
            _ => None,
        }
    }
}

/// The moment that `text` writes as `month/day/year hour:minute:second`.
///
/// The date and the time of day are the first two fields between blanks.
/// Every number may be written with a `+` before it, the year also with a
/// `-`. What follows the time of day, the year or the second as a further
/// field is not looked at. The date has to exist in the calendar and the
/// time on the clock.
pub open spec fn started_of(text: Seq<u8>) -> Option<AttemptStart> {
    let parts = fields_of(text, SPACE);
    if parts.len() < 2 {
        None
    } else {
        match (date_fields(fields_of(parts[0], SLASH)), time_fields(fields_of(parts[1], COLON))) {
            (Some((month, day, year)), Some((hour, minute, second))) => if calendar_date(
                year,
                month as int,
                day as int,
            ) && time_of_day(hour as int, minute as int, second as int) {
                Some(
                    AttemptStart {
                        year: year as i32,
                        month: month as u8,
                        day: day as u8,
                        hour: hour as u8,
                        minute: minute as u8,
                        second: second as u8,
                    },
                )
            } else {
                None
            },
            _ => None,
        }
    }
}

/// The number and the start of the attempt that an `Attempt` element
/// describes, or the first thing that is wrong with it: the `id` is read
/// before `started`.
pub open spec fn attempt_of(node: Element) -> Result<(u32, AttemptStart), SplitsError> {
    match first_attribute(node.attributes@, "id"@) {
        None => Err(SplitsError::MissingAttemptId),
        Some(id_text) => match attempt_id_of(id_text) {
            None => Err(SplitsError::MalformedAttemptId),
            Some(id) => match first_attribute(node.attributes@, "started"@) {
                None => Err(SplitsError::MissingAttemptStart),
                Some(text) => match started_of(encode_utf8(text)) {
                    None => Err(SplitsError::MalformedAttemptStart),
                    Some(start) => Ok((id, start)),
                },
            },
        },
    }
}

/// The attempts that the `Attempt` elements among `children` describe, or
/// the error of the first one that cannot be read. Where a number comes
/// twice, the later element counts.
pub open spec fn attempts_in(children: Seq<XmlNode>) -> Result<
    Map<u32, AttemptStart>,
    SplitsError,
>
    decreases children.len(),
{
    if children.len() == 0 {
        Ok(Map::<u32, AttemptStart>::empty())
    } else {
        match attempts_in(children.drop_last()) {
            Err(e) => Err(e),
            Ok(attempts) => if is_element_named(children.last(), "Attempt"@) {
                match attempt_of(children.last()->Element_0) {
                    Ok((id, start)) => Ok(attempts.insert(id, start)),
                    Err(e) => Err(e),
                }
            } else {
                Ok(attempts)
            },
        }
    }
}

/// The attempt history of a document: what its `AttemptHistory` element
/// records.
pub open spec fn attempt_history_of(root: Element) -> Result<Map<u32, AttemptStart>, SplitsError> {
    match root.child("AttemptHistory"@) {
        None => Err(SplitsError::MissingAttemptHistory),
        Some(history) => attempts_in(history.children@),
    }
}

/// An error in a beginning of the attempts is the error of the whole.
pub proof fn lemma_attempt_history_error(children: Seq<XmlNode>, n: int)
    requires
        0 <= n <= children.len(),
        attempts_in(children.take(n)) is Err,
    ensures
        attempts_in(children) == attempts_in(children.take(n)),
    decreases children.len() - n,
{
    if n == children.len() {
        assert(children.take(n) == children);
    } else {
        assert(children.drop_last().take(n) == children.take(n));
        lemma_attempt_history_error(children.drop_last(), n);
    }
}

/// Reads the month, the day and the year of a date.
fn parse_date(text: &[u8]) -> (date: Option<(u8, u8, i32)>)
    ensures
        match date {
            Some((month, day, year)) => date_fields(fields_of(text@, SLASH)) == Some(
                (month as nat, day as nat, year as int),
            ),
            None => date_fields(fields_of(text@, SLASH)).is_none(),
        },
{
    let fields: Vec<Vec<u8>> = split_fields(text, SLASH);
    let ghost expected = fields_of(text@, SLASH);
    if fields.len() < 3 {
        return None;
    }
    assert(fields@[0]@ == expected[0]);
    assert(fields@[1]@ == expected[1]);
    assert(fields@[2]@ == expected[2]);
    let month: u64 = match parse_unsigned(fields[0].as_slice(), FIELD_MAX) {
        Some(month) => month,
        None => {
            return None;
        },
    };
    let day: u64 = match parse_unsigned(fields[1].as_slice(), FIELD_MAX) {
        Some(day) => day,
        None => {
            return None;
        },
    };
    match parse_i32(fields[2].as_slice()) {
        Some(year) => Some((month as u8, day as u8, year)),
        None => None,
    }
}

/// Reads the hour, the minute and the second of a time of day.
fn parse_time(text: &[u8]) -> (time: Option<(u8, u8, u8)>)
    ensures
        match time {
            Some((hour, minute, second)) => time_fields(fields_of(text@, COLON)) == Some(
                (hour as nat, minute as nat, second as nat),
            ),
            None => time_fields(fields_of(text@, COLON)).is_none(),
        },
{
    let fields: Vec<Vec<u8>> = split_fields(text, COLON);
    let ghost expected = fields_of(text@, COLON);
    if fields.len() < 3 {
        return None;
    }
    assert(fields@[0]@ == expected[0]);
    assert(fields@[1]@ == expected[1]);
    assert(fields@[2]@ == expected[2]);
    let hour: u64 = match parse_unsigned(fields[0].as_slice(), FIELD_MAX) {
        Some(hour) => hour,
        None => {
            return None;
        },
    };
    let minute: u64 = match parse_unsigned(fields[1].as_slice(), FIELD_MAX) {
        Some(minute) => minute,
        None => {
            return None;
        },
    };
    match parse_unsigned(fields[2].as_slice(), FIELD_MAX) {
        Some(second) => Some((hour as u8, minute as u8, second as u8)),
        None => None,
    }
}

/// Reads the moment an attempt started from its text form,
/// `month/day/year hour:minute:second`.
pub fn parse_started(text: &[u8]) -> (start: Option<AttemptStart>)
    ensures
        start == started_of(text@),
{
    let parts: Vec<Vec<u8>> = split_fields(text, SPACE);
    let ghost expected = fields_of(text@, SPACE);
    if parts.len() < 2 {
        return None;
    }
    assert(parts@[0]@ == expected[0]);
    assert(parts@[1]@ == expected[1]);
    let (month, day, year) = match parse_date(parts[0].as_slice()) {
        Some(date) => date,
        None => {
            return None;
        },
    };
    let (hour, minute, second) = match parse_time(parts[1].as_slice()) {
        Some(time) => time,
        None => {
            return None;
        },
    };
    if is_calendar_date(year, month, day) && is_time_of_day(hour, minute, second) {
        Some(AttemptStart { year, month, day, hour, minute, second })
    } else {
        None
    }
}

/// Reads one attempt from its `Attempt` element.
fn read_attempt(node: &Element) -> (attempt: Result<(u32, AttemptStart), SplitsError>)
    ensures
        attempt == attempt_of(*node),
{
    let id_text: &String = match node.attribute("id") {
        Some(text) => text,
        None => {
            return Err(SplitsError::MissingAttemptId);
        },
    };
    let id: u64 = match parse_unsigned(id_text.as_str().as_bytes(), ATTEMPT_ID_MAX) {
        Some(id) => id,
        None => {
            return Err(SplitsError::MalformedAttemptId);
        },
    };
    let started: &String = match node.attribute("started") {
        Some(text) => text,
        None => {
            return Err(SplitsError::MissingAttemptStart);
        },
    };
    match parse_started(started.as_str().as_bytes()) {
        Some(start) => Ok((id as u32, start)),
        None => Err(SplitsError::MalformedAttemptStart),
    }
}

/// Reads the attempt history of a document: for every `Attempt` element of
/// its `AttemptHistory` element, the number of the attempt and the moment
/// it started.
pub fn build_attempt_history(root: &Element) -> (history: Result<
    BTreeMap<u32, AttemptStart>,
    SplitsError,
>)
    ensures
        match history {
            Ok(map) => attempt_history_of(*root) == Ok::<Map<u32, AttemptStart>, SplitsError>(
                map@,
            ),
            Err(e) => attempt_history_of(*root) == Err::<Map<u32, AttemptStart>, SplitsError>(e),
        },
{
    let container: &Element = match root.get_child("AttemptHistory") {
        None => {
            return Err(SplitsError::MissingAttemptHistory);
        },
        Some(container) => container,
    };
    let tag: String = String::from_str("Attempt");
    let mut attempts: BTreeMap<u32, AttemptStart> = BTreeMap::new();
    let mut i: usize = 0;
    proof {
        assert(container.children@.take(0) == Seq::<XmlNode>::empty());
    }
    while i < container.children.len()
        invariant
            i <= container.children.len(),
            tag@ == "Attempt"@,
            root.child("AttemptHistory"@) == Some(*container),
            attempts_in(container.children@.take(i as int)) == Ok::<
                Map<u32, AttemptStart>,
                SplitsError,
            >(attempts@),
        decreases container.children.len() - i,
    {
        let ghost children = container.children@;
        proof {
            assert(children.take(i + 1).drop_last() == children.take(i as int));
            assert(children.take(i + 1).last() == children[i as int]);
        }
        match &container.children[i] {
            XmlNode::Element(child) => {
                if child.name == tag {
                    match read_attempt(child) {
                        Ok((id, start)) => {
                            attempts.insert(id, start);
                        },
                        Err(e) => {
                            proof {
                                lemma_attempt_history_error(children, i + 1);
                            }
                            return Err(e);
                        },
                    }
                }
            },
            _ => {},
        }
        i += 1;
    }
    proof {
        assert(container.children@.take(i as int) == container.children@);
    }
    Ok(attempts)
}

} // verus!
