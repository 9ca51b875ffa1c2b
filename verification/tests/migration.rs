//! The batch rebuild of the compacted history from a legacy observation log.

use uptime::client::CheckState;
use uptime::db::Check;
use uptime::migrate::migrate_checks;

fn check(website: &str, time: i64, state: CheckState) -> Check {
    Check { id: 0, request_time: time, website: website.to_owned(), result: state }
}

#[test]
fn migrating_nothing_yields_nothing() {
    let runs = migrate_checks(Vec::new(), 60);
    assert_eq!(runs.len(), 0);
}

#[test]
fn migration_replays_the_append_rule_in_time_order() {
    // interleaved and out of order across websites
    let log = vec![
        check("a", 60_000, CheckState::Healthy),
        check("b", 0, CheckState::Healthy),
        check("a", 0, CheckState::Healthy),
        check("b", 60_000, CheckState::Unhealthy),
        check("a", 120_000, CheckState::Unhealthy),
    ];
    let runs = migrate_checks(log, 60);
    let shape: Vec<(&str, CheckState, i64, i64)> = runs
        .iter()
        .map(|r| {
            (
                r.website.as_str(),
                r.result,
                r.request_time_range_start,
                r.request_time_range_end,
            )
        })
        .collect();
    assert_eq!(
        shape,
        vec![
            ("b", CheckState::Healthy, 0, 0),
            ("a", CheckState::Healthy, 0, 60_000),
            ("b", CheckState::Unhealthy, 60_000, 60_000),
            ("a", CheckState::Unhealthy, 120_000, 120_000),
        ]
    );
}

#[test]
fn migration_merges_one_website_into_one_run() {
    let log = vec![
        check("example", 240_000, CheckState::Healthy),
        check("example", 0, CheckState::Healthy),
        check("example", 120_000, CheckState::Healthy),
        check("example", 60_000, CheckState::Healthy),
        check("example", 180_000, CheckState::Healthy),
    ];
    let runs = migrate_checks(log, 60);
    assert_eq!(runs.len(), 1);
    assert_eq!(runs[0].request_time_range_start, 0);
    assert_eq!(runs[0].request_time_range_end, 240_000);
}

#[test]
fn migration_keeps_relative_order_of_equal_times() {
    // two observations of one website at the same instant: the earlier log
    // entry is replayed first, so the later one decides the final state
    let log = vec![
        check("a", 0, CheckState::Healthy),
        check("a", 0, CheckState::Unhealthy),
    ];
    let runs = migrate_checks(log, 60);
    assert_eq!(runs.len(), 2);
    assert_eq!(runs[0].result, CheckState::Healthy);
    assert_eq!(runs[1].result, CheckState::Unhealthy);
}
