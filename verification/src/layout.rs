use crate::day::Day;
use crate::error::ScheduleError;
use crate::schedule::TimeSlot;
use vstd::prelude::*;

verus! {

/// The minute of the day at which the grid begins: 06:00.
pub const GRID_START_MINUTE: u16 = 360;

/// The minutes that one row of the grid stands for.
pub const ROW_MINUTES: u16 = 60;

/// The column of Monday. Column 1 holds the time axis.
pub const FIRST_DAY_COLUMN: u8 = 2;

/// The row of the grid's first hour. Row 1 holds the header.
pub const FIRST_HOUR_ROW: i32 = 2;

/// Which days of the week the grid has a column for.
#[derive(Clone, Copy, Debug, PartialEq, Eq, Structural)]
pub enum WeekSpan {
    /// Monday to Friday.
    Weekdays,
    /// Monday to Sunday.
    FullWeek,
}

impl WeekSpan {
    /// The number of day columns.
    pub open spec fn days(self) -> nat {
        match self {
            WeekSpan::Weekdays => 5,
            WeekSpan::FullWeek => 7,
        }
    }

    /// Whether the grid has a column for `day`.
    pub open spec fn supports(self, day: Day) -> bool {
        day.index() < self.days()
    }

    /// Whether the grid has a column for `day`.
    pub fn has_column_for(self, day: Day) -> (yes: bool)
        ensures
            yes == self.supports(day),
    {
        match self {
            WeekSpan::Weekdays => day.ordinal() < 5,
            WeekSpan::FullWeek => true,
        }
    }
}

/// Where a slot stands in the grid.
///
/// The two percentages are multiples of a third of a percent, since a
/// minute is a sixtieth of a row; they are held as counts of thirds, so
/// that no rounding takes place.
#[derive(Clone, Copy, Debug, PartialEq, Eq, Structural)]
pub struct SlotLayout {
    /// The grid column of the slot's day.
    pub column: u8,
    /// The grid row of the hour in which the slot starts.
    pub row: i32,
    /// How far below the top of that row the slot starts, in thirds of a
    /// percent of the row's height.
    pub top_thirds: u16,
    /// The slot's height, in thirds of a percent of a row's height.
    pub height_thirds: u32,
}

/// The grid column of `day`: 2 for Monday, one more for each later day.
pub open spec fn column_of(day: Day) -> int {
    FIRST_DAY_COLUMN + day.index()
}

/// The grid row of the hour that holds `start_minute`: the whole hours
/// between 06:00 and the start, rounded down, and 2 more.
pub open spec fn row_of(start_minute: int) -> int {
    (start_minute - GRID_START_MINUTE) / (ROW_MINUTES as int) + FIRST_HOUR_ROW
}

/// The part of an hour by which `start_minute` lies past the top of its
/// row, as thirds of a percent: a minute is 5 thirds of a percent.
pub open spec fn top_thirds_of(start_minute: int) -> int {
    ((start_minute - GRID_START_MINUTE) % (ROW_MINUTES as int)) * 5
}

/// The height of `duration_minutes` as thirds of a percent of a row, so
/// that 60 minutes are 100 percent.
pub open spec fn height_thirds_of(duration_minutes: int) -> int {
    duration_minutes * 5
}

/// The place of `slot` in a grid of the given span, if the span has a
/// column for its day.
pub open spec fn layout_of(slot: TimeSlot, span: WeekSpan) -> Result<SlotLayout, ScheduleError> {
    if span.supports(slot.day) {
        Ok(
            SlotLayout {
                column: column_of(slot.day) as u8,
                row: row_of(slot.start_minute as int) as i32,
                top_thirds: top_thirds_of(slot.start_minute as int) as u16,
                height_thirds: height_thirds_of(slot.duration_minutes as int) as u32,
            },
        )
    } else {
        Err(ScheduleError::UnsupportedDay)
    }
}

/// A row and an offset stand for one start and no other: the offset lies
/// within the row, below 100 percent, and the rows above the start, at
/// 300 thirds of a percent each, with the offset make up the 5 thirds of
/// every minute since 06:00. This holds of a start before 06:00 too, whose
/// row lies above the first.
pub proof fn lemma_row_and_offset(start_minute: int)
    ensures
        0 <= top_thirds_of(start_minute) < 300,
        (row_of(start_minute) - FIRST_HOUR_ROW) * 300 + top_thirds_of(start_minute) == (start_minute
            - GRID_START_MINUTE) * 5,
{
}

/// Lays out one slot. Fails with `UnsupportedDay` exactly when the span
/// has no column for the slot's day.
pub fn slot_layout(slot: TimeSlot, span: WeekSpan) -> (placed: Result<SlotLayout, ScheduleError>)
    ensures
        placed == layout_of(slot, span),
        placed matches Ok(l) ==> {
            &&& l.column == column_of(slot.day)
            &&& l.row == row_of(slot.start_minute as int)
            &&& l.top_thirds == top_thirds_of(slot.start_minute as int)
            &&& l.height_thirds == height_thirds_of(slot.duration_minutes as int)
        },
{
    if !span.has_column_for(slot.day) {
        return Err(ScheduleError::UnsupportedDay);
    }
    let column: u8 = FIRST_DAY_COLUMN + slot.day.ordinal();
    let start: i32 = slot.start_minute as i32 - GRID_START_MINUTE as i32;
    let span_minutes: i32 = ROW_MINUTES as i32;
    let (hours, past): (i32, i32) = if start >= 0 {
        (start / span_minutes, start % span_minutes)
    } else if (-start) % span_minutes == 0 {
        (-((-start) / span_minutes), 0)
    } else {
        (-((-start) / span_minutes) - 1, span_minutes - (-start) % span_minutes)
    };
    assert(hours == (slot.start_minute - 360) / 60 && past == (slot.start_minute - 360) % 60);
    let top_thirds: u16 = (past * 5) as u16;
    let height_thirds: u32 = slot.duration_minutes as u32 * 5;
    Ok(SlotLayout { column, row: hours + FIRST_HOUR_ROW, top_thirds, height_thirds })
}

} // verus!
