use langs_in_rust::languages::{by_status, Language};

fn language(name: &str, stars: u64, active: bool) -> Language {
    Language {
        name: name.to_owned(),
        url: format!("https://github.com/example/{name}"),
        description: None,
        stars,
        active,
    }
}

fn names(list: &[&Language]) -> Vec<String> {
    list.iter().map(|l| l.name.clone()).collect()
}

#[test]
fn splits_and_sorts_by_stars() {
    let languages = vec![
        language("few", 1, true),
        language("dormant", 500, false),
        language("many", 10, true),
    ];

    let (active, inactive) = by_status(&languages);

    assert_eq!(names(&active), ["many", "few"]);
    assert_eq!(names(&inactive), ["dormant"]);
}

#[test]
fn keeps_file_order_for_ties() {
    let languages = vec![
        language("first", 7, true),
        language("second", 7, true),
        language("third", 7, true),
    ];

    let (active, _) = by_status(&languages);

    assert_eq!(names(&active), ["first", "second", "third"]);
}

#[test]
fn empty_list_gives_empty_halves() {
    let (active, inactive) = by_status(&[]);
    assert!(active.is_empty());
    assert!(inactive.is_empty());
}

#[test]
fn ties_and_ranks_mix() {
    let languages = vec![
        language("a", 3, false),
        language("b", 9, false),
        language("c", 3, false),
        language("d", 9, true),
        language("e", 0, false),
        language("f", 9, false),
    ];

    let (active, inactive) = by_status(&languages);

    assert_eq!(names(&active), ["d"]);
    assert_eq!(names(&inactive), ["b", "f", "a", "c", "e"]);
}
