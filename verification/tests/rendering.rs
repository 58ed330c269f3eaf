use timetable::{
    generate_html, normalize, slot_layout, substitute, Category, Colour, Day, Event, RawDocument,
    RawEntry, Schedule, ScheduleError, SlotFields, SlotLayout, TimeSlot, WeekSpan,
};

fn slot(day: Day, start_minute: u16, duration_minutes: u16) -> TimeSlot {
    TimeSlot { day, start_minute, duration_minutes }
}

fn category(name: &str, r: u8, g: u8, b: u8) -> Category {
    Category { name: String::from(name), colour: Colour { r, g, b } }
}

fn event(title: &str, category: usize, slots: Vec<TimeSlot>) -> Event {
    Event { title: String::from(title), category, slots }
}

fn one_slot_schedule(s: TimeSlot) -> Schedule {
    Schedule { categories: vec![category("None", 200, 200, 200)], events: vec![event("E", 0, vec![s])] }
}

#[test]
fn monday_nine_for_an_hour_in_the_five_day_grid() {
    assert_eq!(
        slot_layout(slot(Day::Monday, 540, 60), WeekSpan::Weekdays),
        Ok(SlotLayout { column: 2, row: 5, top_thirds: 0, height_thirds: 300 })
    );
    let doc = generate_html("%%STYLE%%", &one_slot_schedule(slot(Day::Monday, 540, 60)), WeekSpan::Weekdays)
        .unwrap();
    assert!(doc.contains("    grid-column: 2;\n"));
    assert!(doc.contains("    grid-row: 5;\n"));
    assert!(doc.contains("    top: 0%;\n"));
    assert!(doc.contains("    height: calc(100% - 8px);\n"));
}

#[test]
fn saturday_has_no_column_in_the_five_day_grid() {
    assert_eq!(
        slot_layout(slot(Day::Saturday, 540, 60), WeekSpan::Weekdays),
        Err(ScheduleError::UnsupportedDay)
    );
    assert_eq!(
        slot_layout(slot(Day::Sunday, 540, 60), WeekSpan::Weekdays),
        Err(ScheduleError::UnsupportedDay)
    );
    assert_eq!(
        generate_html("%%STYLE%%%%HTML%%", &one_slot_schedule(slot(Day::Saturday, 540, 60)), WeekSpan::Weekdays),
        Err(ScheduleError::UnsupportedDay)
    );
}

#[test]
fn each_day_has_its_column() {
    let days = [
        Day::Monday,
        Day::Tuesday,
        Day::Wednesday,
        Day::Thursday,
        Day::Friday,
        Day::Saturday,
        Day::Sunday,
    ];
    for (i, day) in days.iter().enumerate() {
        let placed = slot_layout(slot(*day, 360, 0), WeekSpan::FullWeek).unwrap();
        assert_eq!(placed.column as usize, i + 2);
        let on_weekdays = slot_layout(slot(*day, 360, 0), WeekSpan::Weekdays);
        if i < 5 {
            assert_eq!(on_weekdays, Ok(placed));
        } else {
            assert_eq!(on_weekdays, Err(ScheduleError::UnsupportedDay));
        }
    }
}

#[test]
fn rows_and_offsets_follow_the_start() {
    let at = |start: u16| slot_layout(slot(Day::Monday, start, 0), WeekSpan::Weekdays).unwrap();
    assert_eq!((at(360).row, at(360).top_thirds), (2, 0));
    assert_eq!((at(419).row, at(419).top_thirds), (2, 295));
    assert_eq!((at(420).row, at(420).top_thirds), (3, 0));
    assert_eq!((at(570).row, at(570).top_thirds), (5, 150));
    assert_eq!((at(1439).row, at(1439).top_thirds), (19, 295));
    assert_eq!((at(65535).row, at(65535).top_thirds), (1088, 75));
}

#[test]
fn starts_before_six_lie_above_the_first_hour() {
    let at = |start: u16| slot_layout(slot(Day::Monday, start, 0), WeekSpan::Weekdays).unwrap();
    assert_eq!((at(359).row, at(359).top_thirds), (1, 295));
    assert_eq!((at(330).row, at(330).top_thirds), (1, 150));
    assert_eq!((at(300).row, at(300).top_thirds), (1, 0));
    assert_eq!((at(299).row, at(299).top_thirds), (0, 295));
    assert_eq!((at(240).row, at(240).top_thirds), (0, 0));
    assert_eq!((at(1).row, at(1).top_thirds), (-4, 5));
    assert_eq!((at(0).row, at(0).top_thirds), (-4, 0));
}

#[test]
fn height_is_five_thirds_of_a_percent_for_each_minute() {
    let of = |minutes: u16| {
        slot_layout(slot(Day::Monday, 360, minutes), WeekSpan::Weekdays).unwrap().height_thirds
    };
    assert_eq!(of(0), 0);
    assert_eq!(of(1), 5);
    assert_eq!(of(30), 150);
    assert_eq!(of(60), 300);
    assert_eq!(of(90), 450);
    assert_eq!(of(65535), 327675);
}

#[test]
fn whole_document_of_one_event() {
    let schedule = Schedule {
        categories: vec![category("None", 200, 200, 200), category("Work", 10, 20, 30)],
        events: vec![event("Standup", 1, vec![slot(Day::Monday, 540, 30)])],
    };
    let doc = generate_html(
        "<style>\n%%STYLE%%</style>\n<main>\n%%HTML%%</main>\n",
        &schedule,
        WeekSpan::Weekdays,
    );
    let expected = "<style>\n\
.cat-0 {\n    background-color: rgb(200, 200, 200);\n}\n\n\
.cat-1 {\n    background-color: rgb(10, 20, 30);\n}\n\n\
.event-1 {\n    grid-column: 2;\n    grid-row: 5;\n    top: 0%;\n    height: calc(50% - 8px);\n}\n\n\
</style>\n<main>\n\
<div class=\"cat-1 event event-1\">\n    Standup\n</div>\n\
</main>\n";
    assert_eq!(doc, Ok(String::from(expected)));
}

#[test]
fn slots_are_numbered_across_events() {
    let schedule = Schedule {
        categories: vec![category("None", 200, 200, 200)],
        events: vec![
            event("A", 0, vec![slot(Day::Monday, 360, 60), slot(Day::Tuesday, 400, 20)]),
            event("B", 0, vec![]),
            event("C", 0, vec![slot(Day::Friday, 300, 50)]),
        ],
    };
    let doc = generate_html("%%HTML%%|%%STYLE%%", &schedule, WeekSpan::Weekdays);
    let expected = "<div class=\"cat-0 event event-1\">\n    A\n</div>\n\
<div class=\"cat-0 event event-2\">\n    A\n</div>\n\
<div class=\"cat-0 event event-3\">\n    C\n</div>\n\
|.cat-0 {\n    background-color: rgb(200, 200, 200);\n}\n\n\
.event-1 {\n    grid-column: 2;\n    grid-row: 2;\n    top: 0%;\n    height: calc(100% - 8px);\n}\n\n\
.event-2 {\n    grid-column: 3;\n    grid-row: 2;\n    top: 66.6667%;\n    height: calc(33.3333% - 8px);\n}\n\n\
.event-3 {\n    grid-column: 6;\n    grid-row: 1;\n    top: 0%;\n    height: calc(83.3333% - 8px);\n}\n\n";
    assert_eq!(doc, Ok(String::from(expected)));
}

#[test]
fn rows_above_the_grid_are_written_with_a_sign() {
    let doc = generate_html("%%STYLE%%", &one_slot_schedule(slot(Day::Monday, 0, 1)), WeekSpan::Weekdays)
        .unwrap();
    assert!(doc.contains("    grid-row: -4;\n"));
    assert!(doc.contains("    height: calc(1.6667% - 8px);\n"));
    let doc = generate_html("%%STYLE%%", &one_slot_schedule(slot(Day::Monday, 240, 2)), WeekSpan::Weekdays)
        .unwrap();
    assert!(doc.contains("    grid-row: 0;\n"));
    assert!(doc.contains("    height: calc(3.3333% - 8px);\n"));
}

#[test]
fn seven_day_grid_shows_the_weekend() {
    let doc = generate_html("%%STYLE%%", &one_slot_schedule(slot(Day::Sunday, 540, 60)), WeekSpan::FullWeek)
        .unwrap();
    assert!(doc.contains("    grid-column: 8;\n"));
}

#[test]
fn missing_markers_are_passed_over() {
    let schedule = one_slot_schedule(slot(Day::Monday, 540, 60));
    assert_eq!(
        generate_html("no marker here", &schedule, WeekSpan::Weekdays),
        Ok(String::from("no marker here"))
    );
    assert_eq!(
        generate_html("%%HTML%%", &schedule, WeekSpan::Weekdays),
        Ok(String::from("<div class=\"cat-0 event event-1\">\n    E\n</div>\n"))
    );
    assert_eq!(generate_html("", &schedule, WeekSpan::Weekdays), Ok(String::new()));
}

#[test]
fn every_occurrence_of_a_marker_is_replaced() {
    let schedule = Schedule { categories: vec![], events: vec![event("T", 0, vec![])] };
    assert_eq!(
        generate_html("a%%STYLE%%b%%HTML%%c%%STYLE%%d%%HTML%%e", &schedule, WeekSpan::Weekdays),
        Ok(String::from("abcde"))
    );
}

#[test]
fn titles_are_not_escaped_nor_searched_for_the_style_marker() {
    let schedule = Schedule {
        categories: vec![category("None", 200, 200, 200)],
        events: vec![event("<b>%%STYLE%%</b> & %%HTML%%", 0, vec![slot(Day::Monday, 360, 60)])],
    };
    assert_eq!(
        generate_html("%%HTML%%", &schedule, WeekSpan::Weekdays),
        Ok(String::from(
            "<div class=\"cat-0 event event-1\">\n    <b>%%STYLE%%</b> & %%HTML%%\n</div>\n"
        ))
    );
}

#[test]
fn event_of_an_unknown_category_is_inconsistent() {
    let schedule = Schedule {
        categories: vec![category("None", 200, 200, 200)],
        events: vec![event("E", 1, vec![slot(Day::Monday, 540, 60)])],
    };
    assert_eq!(
        generate_html("%%STYLE%%", &schedule, WeekSpan::Weekdays),
        Err(ScheduleError::InconsistentCategoryIndex)
    );
}

#[test]
fn first_slot_with_an_error_gives_the_error() {
    let schedule = Schedule {
        categories: vec![category("None", 200, 200, 200)],
        events: vec![
            event("A", 0, vec![slot(Day::Monday, 540, 60), slot(Day::Sunday, 540, 60)]),
            event("B", 7, vec![slot(Day::Monday, 540, 60)]),
        ],
    };
    assert_eq!(
        generate_html("%%STYLE%%", &schedule, WeekSpan::Weekdays),
        Err(ScheduleError::UnsupportedDay)
    );
    assert_eq!(
        generate_html("%%STYLE%%", &schedule, WeekSpan::FullWeek),
        Err(ScheduleError::InconsistentCategoryIndex)
    );
    let both = Schedule {
        categories: vec![],
        events: vec![event("A", 0, vec![slot(Day::Sunday, 540, 60)])],
    };
    assert_eq!(
        generate_html("%%STYLE%%", &both, WeekSpan::Weekdays),
        Err(ScheduleError::InconsistentCategoryIndex)
    );
}

#[test]
fn rendering_twice_gives_the_same_document() {
    let schedule = Schedule {
        categories: vec![category("None", 200, 200, 200), category("Work", 10, 20, 30)],
        events: vec![
            event("Standup", 1, vec![slot(Day::Monday, 540, 30), slot(Day::Tuesday, 545, 25)]),
            event("Lunch", 0, vec![slot(Day::Friday, 720, 45)]),
        ],
    };
    let template = "<style>%%STYLE%%</style><body>%%HTML%%</body>";
    let first = generate_html(template, &schedule, WeekSpan::Weekdays);
    let second = generate_html(template, &schedule, WeekSpan::Weekdays);
    assert!(first.is_ok());
    assert_eq!(first, second);
}

#[test]
fn document_to_page_end_to_end() {
    let document = RawDocument {
        categories: vec![category("Work", 10, 20, 30)],
        entries: vec![RawEntry {
            title: String::from("Standup"),
            category: Some(String::from("Work")),
            defaults: SlotFields {
                day: Some(String::from("Monday")),
                time: Some(String::from("9:00")),
                length: Some(String::from("30m")),
            },
            when: None,
        }],
    };
    let schedule = normalize(&document).unwrap();
    let doc = generate_html("<style>%%STYLE%%</style>%%HTML%%", &schedule, WeekSpan::Weekdays).unwrap();
    assert_eq!(doc.matches(".event-").count(), 1);
    assert!(doc.contains(".event-1 {\n    grid-column: 2;\n    grid-row: 5;\n"));
    assert_eq!(doc.matches("<div").count(), 1);
    assert!(doc.contains("<div class=\"cat-1 event event-1\">\n    Standup\n</div>\n"));
    assert!(doc.contains(".cat-1 {\n    background-color: rgb(10, 20, 30);\n}\n"));
    assert!(!doc.contains("%%STYLE%%"));
    assert!(!doc.contains("%%HTML%%"));
}

#[test]
fn substitute_replaces_from_the_left_without_overlap() {
    assert_eq!(substitute("aaaa", "aa", "b"), "bb");
    assert_eq!(substitute("aaa", "aa", "b"), "ba");
    assert_eq!(substitute("xaax", "aa", ""), "xx");
    assert_eq!(substitute("abc", "abc", "abcabc"), "abcabc");
    assert_eq!(substitute("a-b-c", "-", "--"), "a--b--c");
}

#[test]
fn substitute_leaves_a_text_without_the_marker() {
    assert_eq!(substitute("hello", "xyz", "!"), "hello");
    assert_eq!(substitute("", "xyz", "!"), "");
    assert_eq!(substitute("xy", "xyz", "!"), "xy");
    assert_eq!(substitute("hello", "", "!"), "hello");
}

#[test]
fn substitute_counts_characters_not_bytes() {
    assert_eq!(substitute("né%%X%%é", "%%X%%", "ü"), "néüé");
    assert_eq!(substitute("日本語", "本", "-"), "日-語");
}
