use crate::category::{
    lemma_registry_of_well_formed, lemma_resolved, models_of, none_name, registry_of, resolved,
    well_formed, Category, CategoryModel, Registry,
};
use crate::day::{day_named, parse_day, Day};
use crate::error::ScheduleError;
use crate::time::{duration_of, parse_length, parse_time, time_of};
use vstd::prelude::*;
use vstd::string::*;

verus! {

/// One occurrence of an event: a day, the minute of the day at which it
/// starts, and how many minutes it lasts.
#[derive(Clone, Copy, Debug, PartialEq, Eq, Structural)]
pub struct TimeSlot {
    pub day: Day,
    /// Minutes since midnight.
    pub start_minute: u16,
    pub duration_minutes: u16,
}

/// A titled event of one category, with the slots at which it takes
/// place. It is shown in its category's colour.
#[derive(Clone, Debug, PartialEq, Eq)]
pub struct Event {
    pub title: String,
    /// The place of the event's category among the schedule's categories.
    pub category: usize,
    pub slots: Vec<TimeSlot>,
}

/// What an [`Event`] holds, as plain values.
pub struct EventModel {
    pub title: Seq<char>,
    pub category: nat,
    pub slots: Seq<TimeSlot>,
}

impl View for Event {
    type V = EventModel;

    open spec fn view(&self) -> EventModel {
        EventModel { title: self.title@, category: self.category as nat, slots: self.slots@ }
    }
}

/// A week's schedule: the categories in the order in which they were
/// first seen, and the events in the order of the input.
#[derive(Clone, Debug, PartialEq, Eq)]
pub struct Schedule {
    pub categories: Vec<Category>,
    pub events: Vec<Event>,
}

/// What a [`Schedule`] holds, as plain values.
pub struct ScheduleModel {
    pub categories: Seq<CategoryModel>,
    pub events: Seq<EventModel>,
}

impl View for Schedule {
    type V = ScheduleModel;

    open spec fn view(&self) -> ScheduleModel {
        ScheduleModel {
            categories: models_of(self.categories@),
            events: self.events@.map_values(|e: Event| e@),
        }
    }
}

/// What holds of a schedule that was read from a document: its categories
/// have distinct names and `None` is among them, and every event has a
/// category of the schedule and at least one slot.
pub open spec fn consistent(schedule: ScheduleModel) -> bool {
    &&& well_formed(schedule.categories)
    &&& forall|i: int|
        0 <= i < schedule.events.len() ==> {
            &&& (#[trigger] schedule.events[i]).category < schedule.categories.len()
            &&& schedule.events[i].slots.len() > 0
        }
}

/// The day, the time and the length of a slot as a document writes
/// them. Each may be left out.
#[derive(Clone, Debug, PartialEq, Eq)]
pub struct SlotFields {
    pub day: Option<String>,
    pub time: Option<String>,
    pub length: Option<String>,
}

/// What [`SlotFields`] hold, as plain values.
pub struct SlotFieldsModel {
    pub day: Option<Seq<char>>,
    pub time: Option<Seq<char>>,
    pub length: Option<Seq<char>>,
}

/// The characters of a text that may be left out.
pub open spec fn text_of(field: Option<String>) -> Option<Seq<char>> {
    match field {
        Some(text) => Some(text@),
        None => None,
    }
}

impl View for SlotFields {
    type V = SlotFieldsModel;

    open spec fn view(&self) -> SlotFieldsModel {
        SlotFieldsModel {
            day: text_of(self.day),
            time: text_of(self.time),
            length: text_of(self.length),
        }
    }
}

/// One entry of a document's schedule: a title, the name of a category
/// if it has one, the day, time and length of the entry itself, and the
/// list of its slots if it has one.
#[derive(Clone, Debug, PartialEq, Eq)]
pub struct RawEntry {
    pub title: String,
    pub category: Option<String>,
    /// What the entry itself says of day, time and length. A slot of
    /// `when` falls back on it for what the slot leaves out.
    pub defaults: SlotFields,
    pub when: Option<Vec<SlotFields>>,
}

/// What a [`RawEntry`] holds, as plain values.
pub struct RawEntryModel {
    pub title: Seq<char>,
    pub category: Option<Seq<char>>,
    pub defaults: SlotFieldsModel,
    pub when: Option<Seq<SlotFieldsModel>>,
}

impl View for RawEntry {
    type V = RawEntryModel;

    open spec fn view(&self) -> RawEntryModel {
        RawEntryModel {
            title: self.title@,
            category: text_of(self.category),
            defaults: self.defaults@,
            when: match self.when {
                Some(list) => Some(list@.map_values(|f: SlotFields| f@)),
                None => None,
            },
        }
    }
}

/// A schedule as a document writes it: the categories that it declares
/// and its entries, both in the order of the document.
#[derive(Clone, Debug, PartialEq, Eq)]
pub struct RawDocument {
    pub categories: Vec<Category>,
    pub entries: Vec<RawEntry>,
}

/// What a [`RawDocument`] holds, as plain values.
pub struct RawDocumentModel {
    pub categories: Seq<CategoryModel>,
    pub entries: Seq<RawEntryModel>,
}

impl View for RawDocument {
    type V = RawDocumentModel;

    open spec fn view(&self) -> RawDocumentModel {
        RawDocumentModel {
            categories: models_of(self.categories@),
            entries: self.entries@.map_values(|e: RawEntry| e@),
        }
    }
}

/// One field of a slot over the same field of its entry: what the slot
/// says, and what the entry says where the slot says nothing.
pub open spec fn layered(default: Option<Seq<char>>, over: Option<Seq<char>>) -> Option<Seq<char>> {
    match over {
        Some(_) => over,
        None => default,
    }
}

/// The fields of a slot over those of its entry, field by field.
pub open spec fn merged(defaults: SlotFieldsModel, overrides: SlotFieldsModel) -> SlotFieldsModel {
    SlotFieldsModel {
        day: layered(defaults.day, overrides.day),
        time: layered(defaults.time, overrides.time),
        length: layered(defaults.length, overrides.length),
    }
}

/// The text of a field: the empty text where the field is left out.
pub open spec fn written(field: Option<Seq<char>>) -> Seq<char> {
    match field {
        Some(text) => text,
        None => Seq::empty(),
    }
}

/// The slot that the fields stand for. The day is read first, then the
/// time, then the length, and the first that fails gives the error: a day
/// that is left out is invalid, a time that is left out is missing, and a
/// length that is left out is 0 minutes.
pub open spec fn slot_of(fields: SlotFieldsModel) -> Result<TimeSlot, ScheduleError> {
    match day_named(written(fields.day)) {
        None => Err(ScheduleError::InvalidDay),
        Some(day) => match time_of(written(fields.time)) {
            Err(e) => Err(e),
            Ok(start) => match duration_of(written(fields.length)) {
                Err(e) => Err(e),
                Ok(minutes) => Ok(
                    TimeSlot {
                        day,
                        start_minute: start as u16,
                        duration_minutes: minutes as u16,
                    },
                ),
            },
        },
    }
}

/// The slots that a run of fields stands for, or the error of the first
/// that has one.
pub open spec fn slots_of(fields: Seq<SlotFieldsModel>) -> Result<Seq<TimeSlot>, ScheduleError>
    decreases fields.len(),
{
    if fields.len() == 0 {
        Ok(Seq::empty())
    } else {
        match slots_of(fields.drop_last()) {
            Err(e) => Err(e),
            Ok(earlier) => match slot_of(fields.last()) {
                Err(e) => Err(e),
                Ok(slot) => Ok(earlier.push(slot)),
            },
        }
    }
}

/// The fields of each slot of an entry. An entry with a list of slots has
/// one for each member of the list, merged over the entry's own fields.
/// An entry without a list, or with an empty one, has the one slot of its
/// own fields.
pub open spec fn effective_fields(entry: RawEntryModel) -> Seq<SlotFieldsModel> {
    match entry.when {
        Some(list) if list.len() > 0 => list.map_values(
            |over: SlotFieldsModel| merged(entry.defaults, over),
        ),
        _ => seq![entry.defaults],
    }
}

/// The schedule after the entries were read, one after the other, into a
/// schedule that begins with the given categories and no event. Each
/// entry has its category resolved, which may register a new one, and
/// then its slots read. The first entry with an error ends the reading.
pub open spec fn with_entries(
    categories: Seq<CategoryModel>,
    entries: Seq<RawEntryModel>,
) -> Result<ScheduleModel, ScheduleError>
    decreases entries.len(),
{
    if entries.len() == 0 {
        Ok(ScheduleModel { categories, events: Seq::empty() })
    } else {
        match with_entries(categories, entries.drop_last()) {
            Err(e) => Err(e),
            Ok(earlier) => {
                let entry = entries.last();
                let (known, id) = resolved(earlier.categories, entry.category);
                match slots_of(effective_fields(entry)) {
                    Err(e) => Err(e),
                    Ok(slots) => Ok(
                        ScheduleModel {
                            categories: known,
                            events: earlier.events.push(
                                EventModel { title: entry.title, category: id as nat, slots },
                            ),
                        },
                    ),
                }
            },
        }
    }
}

/// The schedule that a document stands for: its declared categories are
/// registered first, then its entries are read in order.
pub open spec fn normalized(document: RawDocumentModel) -> Result<ScheduleModel, ScheduleError> {
    with_entries(registry_of(document.categories), document.entries)
}

/// A run of fields that can be read gives as many slots as it has
/// members.
proof fn lemma_slots_of_len(fields: Seq<SlotFieldsModel>)
    ensures
        slots_of(fields) matches Ok(slots) ==> slots.len() == fields.len(),
    decreases fields.len(),
{
    if fields.len() > 0 {
        lemma_slots_of_len(fields.drop_last());
    }
}

/// Reading entries into a well-formed registry gives a consistent
/// schedule, with one event for each entry.
pub proof fn lemma_with_entries_consistent(
    categories: Seq<CategoryModel>,
    entries: Seq<RawEntryModel>,
)
    requires
        well_formed(categories),
    ensures
        with_entries(categories, entries) matches Ok(schedule) ==> consistent(schedule)
            && schedule.events.len() == entries.len(),
    decreases entries.len(),
{
    if entries.len() > 0 {
        lemma_with_entries_consistent(categories, entries.drop_last());
        match with_entries(categories, entries.drop_last()) {
            Err(_) => {},
            Ok(earlier) => {
                let entry = entries.last();
                lemma_resolved(earlier.categories, entry.category, none_name());
                lemma_slots_of_len(effective_fields(entry));
                match with_entries(categories, entries) {
                    Err(_) => {},
                    Ok(schedule) => {
                        assert forall|i: int| 0 <= i < schedule.events.len() implies {
                            &&& (#[trigger] schedule.events[i]).category
                                < schedule.categories.len()
                            &&& schedule.events[i].slots.len() > 0
                        } by {
                            if i < earlier.events.len() {
                                assert(schedule.events[i] == earlier.events[i]);
                            }
                        }
                    },
                }
            },
        }
    }
}

/// Every document that can be read gives a consistent schedule: its
/// categories have distinct names, `None` is among them, and every event
/// has a category of the schedule and at least one slot.
pub proof fn lemma_normalized_consistent(document: RawDocumentModel)
    ensures
        normalized(document) matches Ok(schedule) ==> consistent(schedule),
{
    lemma_registry_of_well_formed(document.categories);
    lemma_with_entries_consistent(registry_of(document.categories), document.entries);
}

/// A copy of a text that may be left out.
fn copy_of(field: &Option<String>) -> (copy: Option<String>)
    ensures
        text_of(copy) == text_of(*field),
{
    match field {
        Some(text) => Some(text.clone()),
        None => None,
    }
}

/// The fields of a slot over those of its entry: each field is the
/// slot's where the slot has it, and the entry's where it has not.
pub fn merge(defaults: &SlotFields, overrides: &SlotFields) -> (effective: SlotFields)
    ensures
        effective@ == merged(defaults@, overrides@),
{
    SlotFields {
        day: if overrides.day.is_some() {
            copy_of(&overrides.day)
        } else {
            copy_of(&defaults.day)
        },
        time: if overrides.time.is_some() {
            copy_of(&overrides.time)
        } else {
            copy_of(&defaults.time)
        },
        length: if overrides.length.is_some() {
            copy_of(&overrides.length)
        } else {
            copy_of(&defaults.length)
        },
    }
}

/// The text of a field, empty where the field is left out.
fn text_in(field: &Option<String>) -> (text: &str)
    ensures
        text@ == written(text_of(*field)),
{
    match field {
        Some(text) => text.as_str(),
        None => {
            proof {
                reveal_strlit("");
            }
            let text = "";
            assert(text@ =~= Seq::<char>::empty());
            text
        },
    }
}

/// Reads the slot that the fields stand for, as [`slot_of`] gives it.
pub fn parse_slot(fields: &SlotFields) -> (slot: Result<TimeSlot, ScheduleError>)
    ensures
        slot == slot_of(fields@),
{
    let day = match parse_day(text_in(&fields.day)) {
        Ok(day) => day,
        Err(e) => {
            return Err(e);
        },
    };
    let start_minute = match parse_time(text_in(&fields.time)) {
        Ok(minutes) => minutes,
        Err(e) => {
            return Err(e);
        },
    };
    let duration_minutes = match parse_length(text_in(&fields.length)) {
        Ok(minutes) => minutes,
        Err(e) => {
            return Err(e);
        },
    };
    Ok(TimeSlot { day, start_minute, duration_minutes })
}

/// Once a run of fields has an error, every longer run has the same.
proof fn lemma_slots_of_error(fields: Seq<SlotFieldsModel>, k: int)
    requires
        0 <= k <= fields.len(),
        slots_of(fields.take(k)) is Err,
    ensures
        slots_of(fields) == slots_of(fields.take(k)),
    decreases fields.len() - k,
{
    if k == fields.len() {
        assert(fields.take(k) =~= fields);
    } else {
        assert(fields.take(k + 1).drop_last() =~= fields.take(k));
        lemma_slots_of_error(fields, k + 1);
    }
}

/// Once a run of entries has an error, every longer run has the same.
proof fn lemma_with_entries_error(
    categories: Seq<CategoryModel>,
    entries: Seq<RawEntryModel>,
    k: int,
)
    requires
        0 <= k <= entries.len(),
        with_entries(categories, entries.take(k)) is Err,
    ensures
        with_entries(categories, entries) == with_entries(categories, entries.take(k)),
    decreases entries.len() - k,
{
    if k == entries.len() {
        assert(entries.take(k) =~= entries);
    } else {
        assert(entries.take(k + 1).drop_last() =~= entries.take(k));
        lemma_with_entries_error(categories, entries, k + 1);
    }
}

/// Reads the slots of one entry: one for each member of its list, each
/// merged over the entry's own fields, or the one slot of its own fields
/// where it has no list or an empty one. Fails with the error of the
/// first slot that cannot be read.
pub fn entry_slots(entry: &RawEntry) -> (slots: Result<Vec<TimeSlot>, ScheduleError>)
    ensures
        match slots {
            Ok(read) => slots_of(effective_fields(entry@)) == Ok::<Seq<TimeSlot>, ScheduleError>(
                read@,
            ) && read.len() > 0,
            Err(e) => slots_of(effective_fields(entry@)) == Err::<Seq<TimeSlot>, ScheduleError>(e),
        },
{
    let ghost fields = effective_fields(entry@);
    let mut read: Vec<TimeSlot> = Vec::new();
    match &entry.when {
        Some(list) => {
            if list.len() > 0 {
                let mut k: usize = 0;
                while k < list.len()
                    invariant
                        k <= list.len(),
                        list.len() > 0,
                        entry.when == Some(*list),
                        fields == effective_fields(entry@),
                        fields.len() == list.len(),
                        read.len() == k,
                        slots_of(fields.take(k as int)) == Ok::<Seq<TimeSlot>, ScheduleError>(
                            read@,
                        ),
                    decreases list.len() - k,
                {
                    let effective = merge(&entry.defaults, &list[k]);
                    proof {
                        let upto = fields.take(k + 1);
                        assert(upto.drop_last() =~= fields.take(k as int));
                        assert(upto.last() == effective@);
                    }
                    match parse_slot(&effective) {
                        Ok(slot) => {
                            read.push(slot);
                        },
                        Err(e) => {
                            proof {
                                lemma_slots_of_error(fields, k + 1);
                            }
                            return Err(e);
                        },
                    }
                    k += 1;
                }
                assert(fields.take(k as int) =~= fields);
                return Ok(read);
            }
        },
        None => {},
    }
    assert(fields =~= seq![entry@.defaults]);
    assert(fields.drop_last() =~= Seq::<SlotFieldsModel>::empty());
    assert(slots_of(fields.drop_last()) == Ok::<Seq<TimeSlot>, ScheduleError>(Seq::empty()));
    assert(fields.last() == entry@.defaults);
    match parse_slot(&entry.defaults) {
        Ok(slot) => {
            read.push(slot);
            assert(read@ =~= Seq::<TimeSlot>::empty().push(slot));
            Ok(read)
        },
        Err(e) => Err(e),
    }
}

/// Reads a document into its schedule, as [`normalized`] gives it.
///
/// The declared categories are registered first; where they do not hold
/// `None`, it is put before them. Then each entry gives one event, with
/// its category resolved and its slots read. The schedule that comes out
/// is consistent.
///
/// Fails with the error of the first slot that cannot be read:
/// `InvalidDay`, `MissingTime`, `InvalidTime` or `InvalidLength`.
pub fn normalize(document: &RawDocument) -> (schedule: Result<Schedule, ScheduleError>)
    ensures
        match schedule {
            Ok(read) => normalized(document@) == Ok::<ScheduleModel, ScheduleError>(read@)
                && consistent(read@),
            Err(e) => normalized(document@) == Err::<ScheduleModel, ScheduleError>(e),
        },
{
    let ghost entries = document@.entries;
    let mut registry = Registry::from_declarations(&document.categories);
    let ghost first = registry@;
    let mut events: Vec<Event> = Vec::new();
    let mut k: usize = 0;
    assert(events@.map_values(|e: Event| e@) =~= Seq::<EventModel>::empty());
    while k < document.entries.len()
        invariant
            k <= document.entries.len(),
            entries == document@.entries,
            first == registry_of(document@.categories),
            with_entries(first, entries.take(k as int)) == Ok::<ScheduleModel, ScheduleError>(
                ScheduleModel {
                    categories: registry@,
                    events: events@.map_values(|e: Event| e@),
                },
            ),
        decreases document.entries.len() - k,
    {
        let entry = &document.entries[k];
        proof {
            let upto = entries.take(k + 1);
            assert(upto.drop_last() =~= entries.take(k as int));
            assert(upto.last() == entry@);
        }
        let id = match &entry.category {
            Some(name) => registry.resolve(Some(name.as_str())),
            None => registry.resolve(None),
        };
        let slots = match entry_slots(entry) {
            Ok(slots) => slots,
            Err(e) => {
                proof {
                    lemma_with_entries_error(first, entries, k + 1);
                }
                return Err(e);
            },
        };
        let ghost earlier = events@.map_values(|e: Event| e@);
        let event = Event { title: entry.title.clone(), category: id, slots };
        events.push(event);
        assert(events@.map_values(|e: Event| e@) =~= earlier.push(event@));
        k += 1;
    }
    proof {
        assert(entries.take(k as int) =~= entries);
        lemma_normalized_consistent(document@);
    }
    Ok(Schedule { categories: registry.into_categories(), events })
}

} // verus!
