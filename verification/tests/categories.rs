use timetable::{Category, Colour, Registry};

fn declared(name: &str, r: u8, g: u8, b: u8) -> Category {
    Category { name: String::from(name), colour: Colour { r, g, b } }
}

#[test]
fn none_comes_first_where_it_is_not_declared() {
    let registry = Registry::from_declarations(&vec![declared("Work", 10, 20, 30)]);
    assert_eq!(
        registry.into_categories(),
        vec![declared("None", 200, 200, 200), declared("Work", 10, 20, 30)]
    );
}

#[test]
fn empty_registry_holds_none_alone() {
    let registry = Registry::from_declarations(&vec![]);
    assert_eq!(registry.into_categories(), vec![declared("None", 200, 200, 200)]);
}

#[test]
fn declared_none_keeps_its_place_and_colour() {
    let mut registry = Registry::from_declarations(&vec![
        declared("Work", 10, 20, 30),
        declared("None", 1, 2, 3),
        declared("Play", 4, 5, 6),
    ]);
    assert_eq!(registry.resolve(None), 1);
    assert_eq!(
        registry.into_categories(),
        vec![declared("Work", 10, 20, 30), declared("None", 1, 2, 3), declared("Play", 4, 5, 6)]
    );
}

#[test]
fn later_declaration_of_a_name_gives_the_colour() {
    let mut registry = Registry::from_declarations(&vec![
        declared("Work", 10, 20, 30),
        declared("Play", 4, 5, 6),
        declared("Work", 7, 8, 9),
    ]);
    assert_eq!(registry.resolve(Some("Work")), 1);
    assert_eq!(registry.resolve(Some("Play")), 2);
    assert_eq!(
        registry.into_categories(),
        vec![declared("None", 200, 200, 200), declared("Work", 7, 8, 9), declared("Play", 4, 5, 6)]
    );
}

#[test]
fn unseen_name_resolves_to_the_same_id_twice() {
    let mut registry = Registry::from_declarations(&vec![declared("Work", 10, 20, 30)]);
    let first = registry.resolve(Some("Sport"));
    let second = registry.resolve(Some("Sport"));
    assert_eq!(first, 2);
    assert_eq!(second, first);
    assert_eq!(
        registry.into_categories(),
        vec![
            declared("None", 200, 200, 200),
            declared("Work", 10, 20, 30),
            declared("Sport", 50, 50, 50)
        ]
    );
}

#[test]
fn absent_category_resolves_to_none() {
    let mut registry = Registry::from_declarations(&vec![declared("Work", 10, 20, 30)]);
    assert_eq!(registry.resolve(None), 0);
    assert_eq!(registry.resolve(Some("Sport")), 2);
    assert_eq!(registry.resolve(None), 0);
    assert_eq!(registry.resolve(Some("None")), 0);
    assert_eq!(registry.into_categories().len(), 3);
}

#[test]
fn declared_name_resolves_to_its_place() {
    let mut registry = Registry::from_declarations(&vec![
        declared("Work", 10, 20, 30),
        declared("Play", 4, 5, 6),
    ]);
    assert_eq!(registry.resolve(Some("Play")), 2);
    assert_eq!(registry.resolve(Some("Work")), 1);
    assert_eq!(registry.into_categories().len(), 3);
}

#[test]
fn names_are_told_apart_by_case() {
    let mut registry = Registry::from_declarations(&vec![declared("Work", 10, 20, 30)]);
    assert_eq!(registry.resolve(Some("work")), 2);
    assert_eq!(registry.resolve(Some("none")), 3);
    assert_eq!(registry.resolve(Some("")), 4);
    assert_eq!(registry.resolve(Some("Work")), 1);
}
