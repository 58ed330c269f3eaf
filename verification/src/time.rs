use crate::error::ScheduleError;
use crate::text::{all_digits, chars_of, decimal_value, is_digit};
use vstd::prelude::*;

verus! {

/// `text` without the one `+` that may stand before a number.
pub open spec fn unsigned_part(text: Seq<char>) -> Seq<char> {
    if text.len() > 0 && text[0] == '+' {
        text.skip(1)
    } else {
        text
    }
}

/// The number that `text` writes, if it writes one that fits in 16 bits:
/// one or more decimal digits, before which one `+` may stand. Leading
/// zeros are allowed.
pub open spec fn number_of(text: Seq<char>) -> Option<nat> {
    let digits = unsigned_part(text);
    if digits.len() > 0 && all_digits(digits) && decimal_value(digits) <= u16::MAX {
        Some(decimal_value(digits))
    } else {
        None
    }
}

/// The place of the first `:` in `text`, or the length of `text` where
/// there is none.
pub open spec fn first_colon(text: Seq<char>) -> int
    decreases text.len(),
{
    if text.len() == 0 || text[0] == ':' {
        0
    } else {
        1 + first_colon(text.skip(1))
    }
}

/// The minutes since midnight that `text` stands for.
///
/// `H` is a number of hours and `H:MM` hours and minutes, which gives
/// `H * 60 + MM`; the minutes are not held below 60. Each number is as
/// [`number_of`] reads it. The empty text is a missing time. Every other
/// text is an invalid time: one with a second colon, one with a part that
/// is no number, and one whose minutes do not fit in 16 bits.
pub open spec fn time_of(text: Seq<char>) -> Result<nat, ScheduleError> {
    if text.len() == 0 {
        Err(ScheduleError::MissingTime)
    } else {
        let colon = first_colon(text);
        if colon == text.len() {
            match number_of(text) {
                Some(hours) if hours * 60 <= u16::MAX => Ok(hours * 60),
                _ => Err(ScheduleError::InvalidTime),
            }
        } else {
            match (number_of(text.take(colon)), number_of(text.skip(colon + 1))) {
                (Some(hours), Some(minutes)) if hours * 60 + minutes <= u16::MAX => Ok(
                    hours * 60 + minutes,
                ),
                _ => Err(ScheduleError::InvalidTime),
            }
        }
    }
}

/// How far the reading of a length has come: the minutes of the parts
/// read so far, and the digits read since the last unit.
pub struct Reading {
    pub minutes: nat,
    pub pending: Seq<char>,
}

/// The minutes that one of the unit `unit` is worth: 60 for `h`, 1 for
/// `m`.
pub open spec fn unit_minutes(unit: char) -> nat {
    if unit == 'h' {
        60
    } else {
        1
    }
}

/// The reading after one more character. A digit joins the pending
/// digits. A unit, `h` or `m`, turns the pending digits into minutes,
/// which needs them to be a number, and the sum to fit in 16 bits. Any
/// other character ends the reading without a result.
pub open spec fn read_on(so_far: Reading, c: char) -> Option<Reading> {
    if is_digit(c) {
        Some(Reading { minutes: so_far.minutes, pending: so_far.pending.push(c) })
    } else if c == 'h' || c == 'm' {
        match number_of(so_far.pending) {
            Some(n) if so_far.minutes + n * unit_minutes(c) <= u16::MAX => Some(
                Reading {
                    minutes: so_far.minutes + n * unit_minutes(c),
                    pending: Seq::empty(),
                },
            ),
            _ => None,
        }
    } else {
        None
    }
}

/// The reading at the end of `text`, read from the left.
pub open spec fn reading_of(text: Seq<char>) -> Option<Reading>
    decreases text.len(),
{
    if text.len() == 0 {
        Some(Reading { minutes: 0, pending: Seq::empty() })
    } else {
        match reading_of(text.drop_last()) {
            Some(so_far) => read_on(so_far, text.last()),
            None => None,
        }
    }
}

/// The minutes that `text` stands for as a length.
///
/// A length is a run of parts, each a number and a unit: `1h30m` is 90
/// minutes, and so is `90m`. Digits at the end that no unit follows are
/// left out of the sum: `1h30` is 60 minutes, and the empty text is 0.
/// A text with any other character, with a unit that no digit precedes,
/// or with a sum that does not fit in 16 bits is an invalid length.
pub open spec fn duration_of(text: Seq<char>) -> Result<nat, ScheduleError> {
    match reading_of(text) {
        Some(reading) => Ok(reading.minutes),
        None => Err(ScheduleError::InvalidLength),
    }
}

/// A run of digits is worth at least as much as any run that begins it.
proof fn lemma_decimal_value_grows(digits: Seq<char>, k: int)
    requires
        0 <= k <= digits.len(),
    ensures
        decimal_value(digits.take(k)) <= decimal_value(digits),
    decreases digits.len() - k,
{
    if k == digits.len() {
        assert(digits.take(k) =~= digits);
    } else {
        lemma_decimal_value_grows(digits, k + 1);
        assert(digits.take(k + 1).drop_last() =~= digits.take(k));
    }
}

/// Reads the number that `chars[from..to]` writes.
fn parse_number(chars: &Vec<char>, from: usize, to: usize) -> (number: Option<u16>)
    requires
        from <= to <= chars.len(),
    ensures
        match number {
            Some(n) => number_of(chars@.subrange(from as int, to as int)) == Some(n as nat),
            None => number_of(chars@.subrange(from as int, to as int)) is None,
        },
{
    let ghost text = chars@.subrange(from as int, to as int);
    let first: usize = if from < to && chars[from] == '+' {
        from + 1
    } else {
        from
    };
    let ghost digits = chars@.subrange(first as int, to as int);
    assert(digits =~= unsigned_part(text));
    if first == to {
        return None;
    }
    let mut value: u16 = 0;
    let mut k: usize = first;
    while k < to
        invariant
            first <= k <= to <= chars.len(),
            first < to,
            text == chars@.subrange(from as int, to as int),
            digits == chars@.subrange(first as int, to as int),
            digits == unsigned_part(text),
            all_digits(digits.take(k - first)),
            value == decimal_value(digits.take(k - first)),
        decreases to - k,
    {
        let c = chars[k];
        let ghost upto = digits.take(k - first + 1);
        proof {
            assert(upto.drop_last() =~= digits.take(k - first));
            assert(upto.last() == c);
        }
        if !(c >= '0' && c <= '9') {
            assert(!is_digit(digits[k - first]));
            return None;
        }
        let d: u16 = (c as u32 - '0' as u32) as u16;
        if value > (u16::MAX - d) / 10 {
            proof {
                assert(decimal_value(upto) == value * 10 + d);
                lemma_decimal_value_grows(digits, k - first + 1);
            }
            return None;
        }
        value = value * 10 + d;
        assert(all_digits(upto)) by {
            assert forall|i: int| 0 <= i < upto.len() implies is_digit(#[trigger] upto[i]) by {
                if i < upto.len() - 1 {
                    assert(upto[i] == digits.take(k - first)[i]);
                }
            }
        }
        k += 1;
    }
    assert(digits.take(k - first) =~= digits);
    Some(value)
}

/// Where no `:` stands before `colon`, and one stands there or the text
/// ends there, `colon` is the place of the first.
proof fn lemma_first_colon(text: Seq<char>, colon: int)
    requires
        0 <= colon <= text.len(),
        forall|i: int| 0 <= i < colon ==> text[i] != ':',
        colon < text.len() ==> text[colon] == ':',
    ensures
        first_colon(text) == colon,
    decreases colon,
{
    if colon > 0 {
        let rest = text.skip(1);
        assert forall|i: int| 0 <= i < colon - 1 implies rest[i] != ':' by {
            assert(rest[i] == text[i + 1]);
        }
        lemma_first_colon(rest, colon - 1);
    }
}

/// A reading that has ended without a result stays so, whatever follows.
proof fn lemma_reading_ended(text: Seq<char>, k: int)
    requires
        0 <= k <= text.len(),
        reading_of(text.take(k)) is None,
    ensures
        reading_of(text) is None,
    decreases text.len() - k,
{
    if k == text.len() {
        assert(text.take(k) =~= text);
    } else {
        assert(text.take(k + 1).drop_last() =~= text.take(k));
        lemma_reading_ended(text, k + 1);
    }
}

/// Reads a time of day, `H` or `H:MM`, as minutes since midnight.
///
/// The result is [`time_of`] of the text: `9` is 540 and `9:30` is 570.
/// Fails with `MissingTime` on the empty text and with `InvalidTime` on
/// every other text that is no time, among them a time past 65535
/// minutes.
pub fn parse_time(time: &str) -> (minutes: Result<u16, ScheduleError>)
    ensures
        match minutes {
            Ok(m) => time_of(time@) == Ok::<nat, ScheduleError>(m as nat),
            Err(e) => time_of(time@) == Err::<nat, ScheduleError>(e),
        },
{
    let chars = chars_of(time);
    if chars.len() == 0 {
        return Err(ScheduleError::MissingTime);
    }
    let mut colon: usize = 0;
    while colon < chars.len() && chars[colon] != ':'
        invariant
            colon <= chars.len(),
            forall|i: int| 0 <= i < colon ==> chars@[i] != ':',
        decreases chars.len() - colon,
    {
        colon += 1;
    }
    proof {
        lemma_first_colon(chars@, colon as int);
    }
    if colon == chars.len() {
        assert(chars@.subrange(0, colon as int) =~= chars@);
        match parse_number(&chars, 0, colon) {
            Some(hours) if hours <= u16::MAX / 60 => Ok(hours * 60),
            _ => Err(ScheduleError::InvalidTime),
        }
    } else {
        let hours = parse_number(&chars, 0, colon);
        let past = parse_number(&chars, colon + 1, chars.len());
        match (hours, past) {
            (Some(hours), Some(past)) => {
                let sum: u32 = hours as u32 * 60 + past as u32;
                if sum <= u16::MAX as u32 {
                    Ok(sum as u16)
                } else {
                    Err(ScheduleError::InvalidTime)
                }
            },
            _ => Err(ScheduleError::InvalidTime),
        }
    }
}

/// Reads a length, a run of `<digits>h` and `<digits>m` parts, as
/// minutes.
///
/// The result is [`duration_of`] of the text: `1h30m` and `90m` are 90,
/// `2h` is 120. Digits at the end that no unit follows are left out, so
/// that `1h30` is 60 and the empty text is 0. Fails with `InvalidLength`
/// on every text that is no length, among them a length past 65535
/// minutes.
pub fn parse_length(length: &str) -> (minutes: Result<u16, ScheduleError>)
    ensures
        match minutes {
            Ok(m) => duration_of(length@) == Ok::<nat, ScheduleError>(m as nat),
            Err(e) => duration_of(length@) == Err::<nat, ScheduleError>(e),
        },
{
    let chars = chars_of(length);
    let mut total: u16 = 0;
    let mut pending_from: usize = 0;
    let mut k: usize = 0;
    assert(chars@.subrange(0, 0) =~= Seq::<char>::empty());
    while k < chars.len()
        invariant
            chars@ == length@,
            pending_from <= k <= chars.len(),
            reading_of(chars@.take(k as int)) == Some(
                Reading {
                    minutes: total as nat,
                    pending: chars@.subrange(pending_from as int, k as int),
                },
            ),
        decreases chars.len() - k,
    {
        let c = chars[k];
        let ghost upto = chars@.take(k + 1);
        proof {
            assert(upto.drop_last() =~= chars@.take(k as int));
            assert(upto.last() == c);
        }
        if c >= '0' && c <= '9' {
            assert(chars@.subrange(pending_from as int, k as int).push(c) =~= chars@.subrange(
                pending_from as int,
                k + 1,
            ));
        } else if c == 'h' || c == 'm' {
            let unit: u32 = if c == 'h' {
                60
            } else {
                1
            };
            let sum: u32 = match parse_number(&chars, pending_from, k) {
                Some(n) => total as u32 + n as u32 * unit,
                None => {
                    proof {
                        lemma_reading_ended(chars@, k + 1);
                    }
                    return Err(ScheduleError::InvalidLength);
                },
            };
            if sum > u16::MAX as u32 {
                proof {
                    lemma_reading_ended(chars@, k + 1);
                }
                return Err(ScheduleError::InvalidLength);
            }
            total = sum as u16;
            pending_from = k + 1;
            assert(chars@.subrange(pending_from as int, k + 1) =~= Seq::<char>::empty());
        } else {
            proof {
                lemma_reading_ended(chars@, k + 1);
            }
            return Err(ScheduleError::InvalidLength);
        }
        k += 1;
    }
    assert(chars@.take(k as int) =~= chars@);
    Ok(total)
}

} // verus!
