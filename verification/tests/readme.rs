use langs_in_rust::languages::Language;
use langs_in_rust::readme::{render, row, thousands, FOOTER, HEADER};

fn language(name: &str, description: Option<&str>, stars: u64, active: bool) -> Language {
    Language {
        name: name.to_owned(),
        url: format!("https://github.com/example/{name}"),
        description: description.map(str::to_owned),
        stars,
        active,
    }
}

#[test]
fn groups_digits_in_threes() {
    assert_eq!(thousands(0), "0");
    assert_eq!(thousands(7), "7");
    assert_eq!(thousands(999), "999");
    assert_eq!(thousands(1_000), "1,000");
    assert_eq!(thousands(101_364), "101,364");
    assert_eq!(thousands(1_234_567), "1,234,567");
}

#[test]
fn groups_the_largest_count() {
    assert_eq!(thousands(u64::MAX), "18,446,744,073,709,551,615");
    assert_eq!(thousands(10), "10");
    assert_eq!(thousands(100_000), "100,000");
}

#[test]
fn renders_a_row_per_language() {
    assert_eq!(
        row(&language(
            "Rust",
            Some("Empowering everyone."),
            100_852,
            true
        )),
        "| [Rust] | 100,852 | ☀️ Active | Empowering everyone. |\n"
    );
    assert_eq!(
        row(&language("Move", None, 2_284, false)),
        "| [Move] | 2,284 | 🌙 Inactive | None |\n"
    );
}

#[test]
fn puts_active_languages_first_and_links_last() {
    let languages = vec![
        language("Dormant", Some("Asleep."), 9_000, false),
        language("Lively", Some("Awake."), 10, true),
    ];

    let rendered = render(&languages);
    let table = rendered
        .strip_prefix(HEADER)
        .expect("the header comes first")
        .strip_suffix(
            "[Dormant]: https://github.com/example/Dormant\n\
             [Lively]: https://github.com/example/Lively\n",
        )
        .expect("the links come last, in file order");

    assert_eq!(
        table,
        format!(
            "| [Lively] | 10 | ☀️ Active | Awake. |\n\
             | [Dormant] | 9,000 | 🌙 Inactive | Asleep. |\n\
             {FOOTER}"
        )
    );
}

#[test]
fn renders_an_empty_list() {
    assert_eq!(render(&[]), format!("{HEADER}{FOOTER}"));
}

#[test]
fn separators_only_group_the_digits() {
    for n in [0u64, 5, 42, 999, 1_000, 65_536, 7_000_001, 123_456_789_012, u64::MAX] {
        assert_eq!(thousands(n).replace(',', ""), n.to_string());
    }
}

#[test]
fn every_language_gets_one_row_and_one_link() {
    let languages = vec![
        language("A", None, 5, true),
        language("B", Some("b"), 5, false),
        language("C", None, 50, true),
    ];
    let rendered = render(&languages);
    for l in &languages {
        assert_eq!(rendered.matches(&format!("| [{}] |", l.name)).count(), 1);
        assert_eq!(rendered.matches(&format!("[{}]: {}\n", l.name, l.url)).count(), 1);
    }
    let c = rendered.find("| [C] |").unwrap();
    let a = rendered.find("| [A] |").unwrap();
    let b = rendered.find("| [B] |").unwrap();
    assert!(c < a && a < b);
}

#[test]
fn reordering_the_list_keeps_the_table() {
    let languages = vec![
        language("A", None, 5, true),
        language("B", Some("b"), 7, false),
        language("C", None, 50, true),
    ];
    let reordered = vec![languages[2].clone(), languages[0].clone(), languages[1].clone()];
    let first = render(&languages);
    let second = render(&reordered);
    let table = |s: &str| s[..s.find(FOOTER).unwrap() + FOOTER.len()].to_owned();
    assert_eq!(table(&first), table(&second));
    assert!(second.ends_with(
        "[C]: https://github.com/example/C\n\
         [A]: https://github.com/example/A\n\
         [B]: https://github.com/example/B\n"
    ));
}
