use crate::error::ScheduleError;
use crate::text::chars_of;
use vstd::prelude::*;

verus! {

/// A day of the week.
#[derive(Clone, Copy, Debug, PartialEq, Eq, Structural)]
pub enum Day {
    Monday,
    Tuesday,
    Wednesday,
    Thursday,
    Friday,
    Saturday,
    Sunday,
}

impl Day {
    /// The place of the day in the week, counted from Monday as 0.
    pub open spec fn index(self) -> nat {
        match self {
            Day::Monday => 0,
            Day::Tuesday => 1,
            Day::Wednesday => 2,
            Day::Thursday => 3,
            Day::Friday => 4,
            Day::Saturday => 5,
            Day::Sunday => 6,
        }
    }

    /// The place of the day in the week, counted from Monday as 0.
    pub fn ordinal(self) -> (n: u8)
        ensures
            n == self.index(),
    {
        match self {
            Day::Monday => 0,
            Day::Tuesday => 1,
            Day::Wednesday => 2,
            Day::Thursday => 3,
            Day::Friday => 4,
            Day::Saturday => 5,
            Day::Sunday => 6,
        }
    }
}

/// `c` with an ASCII capital letter turned into its small letter; every
/// other character stays as it is.
pub open spec fn ascii_lower(c: char) -> char {
    if 'A' <= c && c <= 'Z' {
        ((c as u8) + 32) as u8 as char
    } else {
        c
    }
}

/// `text` with each of its characters through [`ascii_lower`].
pub open spec fn lowered(text: Seq<char>) -> Seq<char> {
    text.map_values(|c: char| ascii_lower(c))
}

/// The English name of `day`, in small letters.
pub open spec fn name_of(day: Day) -> Seq<char> {
    match day {
        Day::Monday => "monday"@,
        Day::Tuesday => "tuesday"@,
        Day::Wednesday => "wednesday"@,
        Day::Thursday => "thursday"@,
        Day::Friday => "friday"@,
        Day::Saturday => "saturday"@,
        Day::Sunday => "sunday"@,
    }
}

/// The day that `text` names: the one whose name is `text` in small
/// letters, whatever the case of the letters of `text`. A text with
/// anything before, after or in place of such a name names no day.
pub open spec fn day_named(text: Seq<char>) -> Option<Day> {
    let low = lowered(text);
    if low == name_of(Day::Monday) {
        Some(Day::Monday)
    } else if low == name_of(Day::Tuesday) {
        Some(Day::Tuesday)
    } else if low == name_of(Day::Wednesday) {
        Some(Day::Wednesday)
    } else if low == name_of(Day::Thursday) {
        Some(Day::Thursday)
    } else if low == name_of(Day::Friday) {
        Some(Day::Friday)
    } else if low == name_of(Day::Saturday) {
        Some(Day::Saturday)
    } else if low == name_of(Day::Sunday) {
        Some(Day::Sunday)
    } else {
        None
    }
}

/// Two texts are the same but for the case of their ASCII letters.
pub open spec fn same_but_for_case(a: Seq<char>, b: Seq<char>) -> bool {
    &&& a.len() == b.len()
    &&& forall|i: int| 0 <= i < a.len() ==> ascii_lower(#[trigger] a[i]) == ascii_lower(b[i])
}

/// The case of letters does not matter to the name of a day: two texts
/// that differ in nothing else name the same day, or both name none.
pub proof fn lemma_day_named_ignores_case(a: Seq<char>, b: Seq<char>)
    requires
        same_but_for_case(a, b),
    ensures
        day_named(a) == day_named(b),
{
    assert(lowered(a) =~= lowered(b));
}

/// `c` with an ASCII capital letter turned into its small letter.
fn to_ascii_lower(c: char) -> (low: char)
    ensures
        low == ascii_lower(c),
{
    if c >= 'A' && c <= 'Z' {
        ((c as u8) + 32) as char
    } else {
        c
    }
}

/// Whether `low` holds the characters of `name`.
fn spells(low: &Vec<char>, name: &str) -> (yes: bool)
    ensures
        yes == (low@ == name@),
{
    let wanted = chars_of(name);
    if low.len() != wanted.len() {
        return false;
    }
    let mut k: usize = 0;
    while k < low.len()
        invariant
            k <= low.len(),
            low.len() == wanted.len(),
            wanted@ == name@,
            forall|i: int| 0 <= i < k ==> low@[i] == wanted@[i],
        decreases low.len() - k,
    {
        if low[k] != wanted[k] {
            return false;
        }
        k += 1;
    }
    assert(low@ =~= name@);
    true
}

impl Day {
    /// The day that `s` names, by [`day_named`]: the name of a day of the
    /// week in any mix of capital and small letters.
    pub fn from_str(s: &str) -> (day: Result<Day, ()>)
        ensures
            match day {
                Ok(d) => day_named(s@) == Some(d),
                Err(_) => day_named(s@) is None,
            },
    {
        let chars = chars_of(s);
        let mut low: Vec<char> = Vec::new();
        let mut k: usize = 0;
        while k < chars.len()
            invariant
                k <= chars.len(),
                chars@ == s@,
                low@ == lowered(s@.take(k as int)),
            decreases chars.len() - k,
        {
            low.push(to_ascii_lower(chars[k]));
            assert(low@ =~= lowered(s@.take(k + 1)));
            k += 1;
        }
        assert(s@.take(k as int) =~= s@);
        if spells(&low, "monday") {
            Ok(Day::Monday)
        } else if spells(&low, "tuesday") {
            Ok(Day::Tuesday)
        } else if spells(&low, "wednesday") {
            Ok(Day::Wednesday)
        } else if spells(&low, "thursday") {
            Ok(Day::Thursday)
        } else if spells(&low, "friday") {
            Ok(Day::Friday)
        } else if spells(&low, "saturday") {
            Ok(Day::Saturday)
        } else if spells(&low, "sunday") {
            Ok(Day::Sunday)
        } else {
            Err(())
        }
    }
}

/// Reads the name of a day of the week, in any mix of capital and small
/// letters. Fails with `InvalidDay` on every other text, the empty one
/// among them.
pub fn parse_day(day: &str) -> (named: Result<Day, ScheduleError>)
    ensures
        match named {
            Ok(d) => day_named(day@) == Some(d),
            Err(e) => day_named(day@) is None && e == ScheduleError::InvalidDay,
        },
{
    match Day::from_str(day) {
        Ok(d) => Ok(d),
        Err(_) => Err(ScheduleError::InvalidDay),
    }
}

} // verus!
