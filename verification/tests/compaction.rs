//! The compaction rule: merging, splitting, the threshold, and the append
//! decision.

use uptime::client::{CheckResult, CheckState};
use uptime::db::{
    compute_threshold, insert_single_result_series, insert_single_result_series_in_memory,
    ArithmeticError, CheckSeries, SeriesAction,
};

fn series(website: &str, state: CheckState, start: i64, end: i64) -> CheckSeries {
    CheckSeries {
        id: 0,
        request_time_range_start: start,
        request_time_range_end: end,
        website: website.to_owned(),
        result: state,
    }
}

fn append(
    table: &mut Vec<CheckSeries>,
    cache: &mut Vec<(String, usize)>,
    interval_seconds: u64,
    website: &str,
    time: i64,
    state: CheckState,
) {
    insert_single_result_series_in_memory(
        table,
        cache,
        interval_seconds,
        website,
        &CheckResult { time, state },
    );
}

#[test]
fn threshold_is_five_intervals_in_millis() {
    assert_eq!(compute_threshold(60), Ok(300_000));
    assert_eq!(compute_threshold(0), Ok(0));
    assert_eq!(compute_threshold(1), Ok(5000));
}

#[test]
fn threshold_overflow_is_an_error_not_a_crash() {
    assert_eq!(compute_threshold(u64::MAX), Err(ArithmeticError));
    assert_eq!(compute_threshold(i64::MAX as u64), Err(ArithmeticError));
    // the largest interval whose threshold still fits
    assert!(compute_threshold(i64::MAX as u64 / 5000).is_ok());
    assert_eq!(compute_threshold(i64::MAX as u64 / 5000 + 1), Err(ArithmeticError));
}

#[test]
fn append_decision_fails_only_on_threshold_overflow() {
    let obs = CheckResult { time: 7, state: CheckState::Healthy };
    assert_eq!(
        insert_single_result_series(None, u64::MAX, &obs),
        Err(ArithmeticError)
    );
    assert_eq!(
        insert_single_result_series(None, 60, &obs),
        Ok(SeriesAction::InsertNew { time: 7, state: CheckState::Healthy })
    );
}

#[test]
fn append_decision_extends_on_same_state_within_threshold() {
    let latest = series("a", CheckState::Healthy, 0, 60_000);
    let obs = CheckResult { time: 120_000, state: CheckState::Healthy };
    assert_eq!(
        insert_single_result_series(Some(&latest), 60, &obs),
        Ok(SeriesAction::ExtendLatest { id: 0, new_end: 120_000 })
    );
}

#[test]
fn append_decision_splits_on_state_change_regardless_of_gap() {
    let latest = series("a", CheckState::Healthy, 0, 60_000);
    // one millisecond later, but the state differs: always a new run
    let obs = CheckResult { time: 60_001, state: CheckState::Unhealthy };
    assert_eq!(
        insert_single_result_series(Some(&latest), 60, &obs),
        Ok(SeriesAction::InsertNew { time: 60_001, state: CheckState::Unhealthy })
    );
}

#[test]
fn append_decision_splits_when_merge_bound_fails() {
    // the open run ends far beyond the observation time plus the threshold,
    // so even a same-state observation opens a new run
    let latest = series("a", CheckState::Healthy, 0, 1_000_000);
    let obs = CheckResult { time: 0, state: CheckState::Healthy };
    assert_eq!(
        insert_single_result_series(Some(&latest), 60, &obs),
        Ok(SeriesAction::InsertNew { time: 0, state: CheckState::Healthy })
    );
}

#[test]
fn same_state_observations_merge_into_one_run() {
    let mut table = Vec::new();
    let mut cache = Vec::new();
    for time in [0, 60_000, 120_000, 180_000, 240_000] {
        append(&mut table, &mut cache, 60, "example", time, CheckState::Healthy);
    }
    assert_eq!(table.len(), 1);
    assert_eq!(table[0].request_time_range_start, 0);
    assert_eq!(table[0].request_time_range_end, 240_000);
    assert_eq!(table[0].website, "example");
    assert_eq!(table[0].result, CheckState::Healthy);
}

#[test]
fn state_change_starts_a_new_run() {
    let mut table = Vec::new();
    let mut cache = Vec::new();
    append(&mut table, &mut cache, 60, "example", 0, CheckState::Healthy);
    // a tiny gap, but the state differs: a boundary appears regardless
    append(&mut table, &mut cache, 60, "example", 1, CheckState::Unhealthy);
    assert_eq!(table.len(), 2);
    assert_eq!(table[0].request_time_range_end, 0);
    assert_eq!(table[1].request_time_range_start, 1);
    assert_eq!(table[1].request_time_range_end, 1);
    assert_eq!(table[1].result, CheckState::Unhealthy);
}

#[test]
fn websites_compact_independently() {
    let mut table = Vec::new();
    let mut cache = Vec::new();
    append(&mut table, &mut cache, 60, "a", 0, CheckState::Healthy);
    append(&mut table, &mut cache, 60, "b", 0, CheckState::Healthy);
    append(&mut table, &mut cache, 60, "a", 60_000, CheckState::Healthy);
    append(&mut table, &mut cache, 60, "b", 60_000, CheckState::Unhealthy);
    assert_eq!(table.len(), 3);
    assert_eq!((table[0].website.as_str(), table[0].request_time_range_end), ("a", 60_000));
    assert_eq!((table[1].website.as_str(), table[1].request_time_range_end), ("b", 0));
    assert_eq!((table[2].website.as_str(), table[2].request_time_range_end), ("b", 60_000));
}

#[test]
fn zero_interval_makes_the_merge_bound_strict() {
    // with a zero threshold the bound `end < time + threshold` fails for an
    // observation at the very end of the open run, even with equal states
    let mut table = Vec::new();
    let mut cache = Vec::new();
    append(&mut table, &mut cache, 0, "example", 5, CheckState::Healthy);
    append(&mut table, &mut cache, 0, "example", 5, CheckState::Healthy);
    assert_eq!(table.len(), 2);
    // a later observation still extends: its time lies beyond the run's end
    append(&mut table, &mut cache, 0, "example", 6, CheckState::Healthy);
    assert_eq!(table.len(), 2);
    assert_eq!(table[1].request_time_range_end, 6);
}

#[test]
fn runs_of_one_website_never_overlap() {
    let mut table = Vec::new();
    let mut cache = Vec::new();
    let states = [
        CheckState::Healthy,
        CheckState::Healthy,
        CheckState::Unhealthy,
        CheckState::Healthy,
        CheckState::Unhealthy,
        CheckState::Unhealthy,
        CheckState::Healthy,
    ];
    for (i, state) in states.iter().enumerate() {
        append(&mut table, &mut cache, 60, "example", (i as i64) * 60_000, *state);
    }
    for i in 0..table.len() {
        for j in 0..table.len() {
            if i != j && table[i].website == table[j].website {
                assert!(
                    table[i].request_time_range_end < table[j].request_time_range_start
                        || table[j].request_time_range_end < table[i].request_time_range_start
                );
            }
        }
    }
}
