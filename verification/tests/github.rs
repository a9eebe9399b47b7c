use chrono::{DateTime, TimeDelta, Utc};
use langs_in_rust::github::{
    api_url, authorization, is_active, is_active_at, is_github, updated_at, Refresh, Repository,
    Step, Timestamp, ACTIVE_FOR_SECS, MIN_SECS,
};
use langs_in_rust::languages::Language;

fn timestamp(t: DateTime<Utc>) -> Timestamp {
    Timestamp { secs: t.timestamp(), nanos: t.timestamp_subsec_nanos() }
}

fn active_for() -> TimeDelta {
    TimeDelta::seconds(ACTIVE_FOR_SECS)
}

fn language(name: &str, url: &str, stars: u64, active: bool) -> Language {
    Language {
        name: name.to_owned(),
        url: url.to_owned(),
        description: None,
        stars,
        active,
    }
}

#[test]
fn builds_api_urls() {
    assert_eq!(
        api_url("https://github.com/rust-lang/rust"),
        "https://api.github.com/repos/rust-lang/rust"
    );
}

#[test]
fn recognizes_github_urls() {
    assert!(is_github("https://github.com/rust-lang/rust"));
    assert!(!is_github("https://gitlab.com/example/language"));
}

#[test]
fn a_recent_push_is_active() {
    assert!(is_active(timestamp(Utc::now() - TimeDelta::weeks(1))));
    assert!(is_active(timestamp(Utc::now() - active_for() + TimeDelta::days(1))));
}

#[test]
fn an_old_push_is_inactive() {
    assert!(!is_active(timestamp(Utc::now() - active_for() - TimeDelta::days(1))));
    assert!(!is_active(timestamp(Utc::now() - TimeDelta::weeks(52))));
}

#[test]
fn active_for_is_twenty_four_weeks() {
    assert_eq!(TimeDelta::seconds(ACTIVE_FOR_SECS), TimeDelta::weeks(24));
}

#[test]
fn activity_boundary_is_inclusive() {
    let pushed = Timestamp { secs: 1_000_000, nanos: 500 };
    let edge = Timestamp { secs: 1_000_000 + ACTIVE_FOR_SECS, nanos: 500 };
    let past = Timestamp { secs: 1_000_000 + ACTIVE_FOR_SECS, nanos: 501 };
    assert!(is_active_at(pushed, edge));
    assert!(!is_active_at(pushed, past));
    assert!(is_active_at(pushed, pushed));
}

#[test]
fn activity_from_a_leap_second_counts_from_the_next_second() {
    // 23:59:60.5 on some day: 24 weeks later is 23:59:59.5, where the window ends.
    let pushed = Timestamp { secs: 86_399, nanos: 1_500_000_000 };
    let edge = Timestamp { secs: 86_399 + ACTIVE_FOR_SECS, nanos: 500_000_000 };
    let past = Timestamp { secs: 86_399 + ACTIVE_FOR_SECS, nanos: 500_000_001 };
    assert!(is_active_at(pushed, edge));
    assert!(!is_active_at(pushed, past));
}

#[test]
fn activity_matches_chrono_arithmetic() {
    let pushed = Utc::now() - TimeDelta::weeks(30);
    for offset in [-2i64, -1, 0, 1, 2] {
        let now = pushed + active_for() + TimeDelta::nanoseconds(offset);
        assert_eq!(
            is_active_at(timestamp(pushed), timestamp(now)),
            pushed + active_for() >= now
        );
    }
}

#[test]
fn other_hosts_keep_their_url() {
    assert!(!is_github("https://gitlab.com/example/language"));
    assert_eq!(
        api_url("https://gitlab.com/example/language"),
        "https://gitlab.com/example/language"
    );
}

#[test]
fn every_occurrence_is_rewritten() {
    assert_eq!(
        api_url("https://github.com/github.com"),
        "https://api.github.com/repos/api.github.com/repos"
    );
    assert!(is_github("github.com"));
    assert!(!is_github("github.co"));
    assert!(!is_github(""));
}

#[test]
fn builds_authorization_header() {
    assert_eq!(authorization("abc123"), "token abc123");
    assert_eq!(authorization(""), "token ");
}

#[test]
fn update_keeps_name_and_url() {
    let old = language("Rust", "https://github.com/rust-lang/rust", 1, false);
    let pushed = Timestamp { secs: 1_000, nanos: 0 };
    let repository = Repository {
        description: Some("Empowering everyone.".to_owned()),
        stargazers_count: 100_852,
        pushed_at: pushed,
    };
    let now = Timestamp { secs: 2_000, nanos: 0 };
    let entry = updated_at(old, repository, now);
    assert_eq!(entry.name, "Rust");
    assert_eq!(entry.url, "https://github.com/rust-lang/rust");
    assert_eq!(entry.description.as_deref(), Some("Empowering everyone."));
    assert_eq!(entry.stars, 100_852);
    assert!(entry.active);
}

#[test]
fn refresh_skips_other_hosts_and_keeps_failed_lookups() {
    let languages = vec![
        language("Rust", "https://github.com/rust-lang/rust", 1, false),
        language("Elsewhere", "https://gitlab.com/example/language", 7, true),
        language("Flaky", "https://github.com/example/flaky", 3, true),
    ];
    let mut refresh = Refresh::new(languages.clone());

    match refresh.next_step() {
        Some(Step::Fetch { name, url }) => {
            assert_eq!(name, "Rust");
            assert_eq!(url, "https://api.github.com/repos/rust-lang/rust");
        }
        _ => panic!("expected a lookup for Rust"),
    }
    refresh.advance(Some(Repository {
        description: Some("Empowering everyone.".to_owned()),
        stargazers_count: 100_852,
        pushed_at: Timestamp { secs: Utc::now().timestamp(), nanos: 0 },
    }));

    match refresh.next_step() {
        Some(Step::Skip { name }) => assert_eq!(name, "Elsewhere"),
        _ => panic!("expected Elsewhere to be skipped"),
    }
    refresh.advance(None);

    match refresh.next_step() {
        Some(Step::Fetch { name, .. }) => assert_eq!(name, "Flaky"),
        _ => panic!("expected a lookup for Flaky"),
    }
    refresh.advance(None);

    assert!(refresh.next_step().is_none());
    let refreshed = refresh.finish();
    assert_eq!(refreshed.len(), 3);
    assert_eq!(refreshed[0].name, "Rust");
    assert_eq!(refreshed[0].stars, 100_852);
    assert!(refreshed[0].active);
    assert_eq!(refreshed[1], languages[1]);
    assert_eq!(refreshed[2], languages[2]);
}

#[test]
fn refresh_of_nothing_is_done_at_once() {
    let refresh = Refresh::new(Vec::new());
    assert!(refresh.next_step().is_none());
    assert!(refresh.finish().is_empty());
}

#[test]
fn the_earliest_moment_can_be_judged() {
    assert!(DateTime::from_timestamp(MIN_SECS, 0).is_some());
    assert!(DateTime::from_timestamp(MIN_SECS - 1, 0).is_none());
    let earliest = Timestamp { secs: MIN_SECS, nanos: 0 };
    assert!(is_active_at(earliest, earliest));
    assert!(!is_active_at(earliest, Timestamp { secs: 0, nanos: 0 }));
}
