use vstd::prelude::*;

verus! {

/// Why a schedule could not be read or laid out. Every failure is final:
/// nothing is produced for a schedule with an error in it.
#[derive(Clone, Copy, Debug, PartialEq, Eq, Structural)]
pub enum ScheduleError {
    /// A day is missing, or is not the name of a day of the week.
    InvalidDay,
    /// No time of day was given, neither for the slot nor for its entry.
    MissingTime,
    /// A time of day is not of the form `H` or `H:MM`, or is too large.
    InvalidTime,
    /// A length is not a run of `<digits>h` and `<digits>m` parts, or is
    /// too long.
    InvalidLength,
    /// A slot falls on a day that the grid has no column for.
    UnsupportedDay,
    /// An event names a category that the schedule does not hold.
    InconsistentCategoryIndex,
}

impl ScheduleError {
    /// The one line that tells a user of the error.
    pub open spec fn message_text(self) -> Seq<char> {
        match self {
            ScheduleError::InvalidDay => "Invalid or missing day"@,
            ScheduleError::MissingTime => "Missing time"@,
            ScheduleError::InvalidTime => "Invalid time - should be hh:mm"@,
            ScheduleError::InvalidLength => "Invalid length"@,
            ScheduleError::UnsupportedDay => "Web output is weekdays only"@,
            ScheduleError::InconsistentCategoryIndex => "No such category"@,
        }
    }

    /// The one line that tells a user of the error.
    pub fn message(&self) -> (text: &'static str)
        ensures
            text@ == self.message_text(),
    {
        match self {
            ScheduleError::InvalidDay => "Invalid or missing day",
            ScheduleError::MissingTime => "Missing time",
            ScheduleError::InvalidTime => "Invalid time - should be hh:mm",
            ScheduleError::InvalidLength => "Invalid length",
            ScheduleError::UnsupportedDay => "Web output is weekdays only",
            ScheduleError::InconsistentCategoryIndex => "No such category",
        }
    }
}

} // verus!
