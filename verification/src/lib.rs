//! A week's schedule, read from a loosely written document and laid out
//! as a grid of hours and days in an HTML page.
//!
//! [`normalize`] turns a document, with its entries, their slots and the
//! categories it declares, into a [`Schedule`]. [`generate_html`] lays
//! each slot of a schedule out in the grid and fills a template with the
//! style rules and the markup that show it.

pub mod category;
pub mod day;
pub mod error;
pub mod html;
pub mod layout;
pub mod schedule;
pub mod text;
pub mod time;

pub use category::{Category, Colour, Registry};
pub use day::{parse_day, Day};
pub use error::ScheduleError;
pub use html::generate_html;
pub use layout::{slot_layout, SlotLayout, WeekSpan};
pub use schedule::{
    entry_slots, merge, normalize, parse_slot, Event, RawDocument, RawEntry, Schedule, SlotFields,
    TimeSlot,
};
pub use text::substitute;
pub use time::{parse_length, parse_time};
