//! Downsampling into display buckets and the per-website status summary.

use uptime::client::CheckState;
use uptime::db::CheckSeries;
use uptime::fmt::format_ok_ratio;
use uptime::web::{checks_to_classes, compute_status, range_disjoint, BarClass, BAR_ELEMS};

fn series(website: &str, state: CheckState, start: i64, end: i64) -> CheckSeries {
    CheckSeries {
        id: 0,
        request_time_range_start: start,
        request_time_range_end: end,
        website: website.to_owned(),
        result: state,
    }
}

/// Ten alternating runs of equal width, with gaps between them.
fn alternating_runs() -> Vec<CheckSeries> {
    (0..10)
        .map(|k| {
            let state = if k % 2 == 0 { CheckState::Healthy } else { CheckState::Unhealthy };
            series("example", state, 20 * k, 20 * k + 10)
        })
        .collect()
}

#[test]
fn empty_run_list_gives_all_unknown_buckets() {
    let bar = checks_to_classes(&Vec::new(), 5);
    assert_eq!(bar.elems.len(), 5);
    assert!(bar.elems.iter().all(|c| *c == BarClass::Unknown));
    assert_eq!(bar.first_time, None);
    assert_eq!(bar.last_time, None);
}

#[test]
fn single_run_fills_every_bucket() {
    let runs = vec![series("example", CheckState::Healthy, 5, 5)];
    // a zero-width span: every bucket carries the one classification
    let bar = checks_to_classes(&runs, 3);
    assert_eq!(bar.elems.len(), 3);
    assert!(bar.elems.iter().all(|c| *c == BarClass::Green));
    assert_eq!(bar.first_time, Some(5));
    assert_eq!(bar.last_time, Some(5));
}

#[test]
fn buckets_aligned_to_run_edges_alternate_without_orange() {
    // ten alternating runs into ten buckets: boundaries coincide with run
    // edges, so each bucket sees one state only
    let bar = checks_to_classes(&alternating_runs(), 10);
    assert_eq!(bar.elems.len(), 10);
    for (i, class) in bar.elems.iter().enumerate() {
        let expected = if i % 2 == 0 { BarClass::Green } else { BarClass::Red };
        assert_eq!(*class, expected, "bucket {i}");
    }
    assert_eq!(bar.first_time, Some(0));
    assert_eq!(bar.last_time, Some(190));
}

#[test]
fn buckets_straddling_both_states_are_orange() {
    // ten alternating runs into five buckets: every bucket straddles one
    // healthy and one unhealthy run, so all are mixed
    let bar = checks_to_classes(&alternating_runs(), 5);
    assert_eq!(bar.elems.len(), 5);
    assert!(bar.elems.iter().all(|c| *c == BarClass::Orange));
}

#[test]
fn gaps_between_far_apart_runs_show_as_unknown() {
    let runs = vec![
        series("example", CheckState::Healthy, 0, 10),
        series("example", CheckState::Unhealthy, 990, 1000),
    ];
    let bar = checks_to_classes(&runs, 10);
    assert_eq!(bar.elems[0], BarClass::Green);
    assert_eq!(bar.elems[9], BarClass::Red);
    for i in 1..9 {
        assert_eq!(bar.elems[i], BarClass::Unknown, "bucket {i}");
    }
}

#[test]
fn a_run_on_a_shared_boundary_lands_in_both_buckets() {
    // span [0, 100], two buckets [0, 50] and [50, 100]: the one-point run at
    // 50 colors both, since bucket ranges are closed and share the boundary
    let runs = vec![
        series("example", CheckState::Healthy, 0, 10),
        series("example", CheckState::Unhealthy, 50, 50),
        series("example", CheckState::Healthy, 90, 100),
    ];
    let bar = checks_to_classes(&runs, 2);
    assert_eq!(bar.elems, vec![BarClass::Orange, BarClass::Orange]);
}

#[test]
fn migrated_log_feeds_the_dashboard() {
    let log = vec![
        uptime::db::Check {
            id: 0,
            request_time: 60_000,
            website: "example".to_owned(),
            result: CheckState::Unhealthy,
        },
        uptime::db::Check {
            id: 0,
            request_time: 0,
            website: "example".to_owned(),
            result: CheckState::Healthy,
        },
    ];
    let runs = uptime::migrate::migrate_checks(log, 60);
    let status = compute_status(runs);
    assert_eq!(status.len(), 1);
    assert_eq!(status[0].total_requests, 2);
    assert_eq!(status[0].ok_ratio, "50.00%");
    assert_eq!(status[0].last_ok, Some(0));
}

#[test]
fn bucket_classes_render_to_style_classes() {
    assert_eq!(BarClass::Green.as_class(), "check-result-green");
    assert_eq!(BarClass::Orange.as_class(), "check-result-orange");
    assert_eq!(BarClass::Red.as_class(), "check-result-red");
    assert_eq!(BarClass::Unknown.as_class(), "check-result-unknown");
}

#[test]
fn disjoint_ranges_are_detected_symmetrically() {
    assert!(range_disjoint(0, 10, 11, 20));
    assert!(range_disjoint(11, 20, 0, 10));
    assert!(!range_disjoint(0, 10, 10, 20));
    assert!(!range_disjoint(0, 10, 5, 7));
}

#[test]
fn ratio_renders_with_two_decimals_and_percent() {
    assert_eq!(format_ok_ratio(1, 2), "50.00%");
    assert_eq!(format_ok_ratio(1, 3), "33.33%");
    assert_eq!(format_ok_ratio(2, 3), "66.67%");
    assert_eq!(format_ok_ratio(1, 8), "12.50%");
    assert_eq!(format_ok_ratio(0, 5), "0.00%");
    assert_eq!(format_ok_ratio(5, 5), "100.00%");
    // no runs at all: the ratio is defined as zero
    assert_eq!(format_ok_ratio(0, 0), "0.00%");
}

#[test]
fn status_for_the_example_scenario() {
    // one healthy run compacted from five observations, then one unhealthy
    // observation that opened a new run
    let runs = vec![
        series("example", CheckState::Healthy, 0, 240_000),
        series("example", CheckState::Unhealthy, 300_000, 300_000),
    ];
    let status = compute_status(runs);
    assert_eq!(status.len(), 1);
    let st = &status[0];
    assert_eq!(st.website, "example");
    assert_eq!(st.total_requests, 2);
    assert_eq!(st.count_ok, 1);
    assert_eq!(st.ok_ratio, "50.00%");
    assert_eq!(st.last_ok, Some(240_000));
    assert_eq!(st.bar_info.elems.len(), BAR_ELEMS);
    assert_eq!(st.bar_info.first_time, Some(0));
    assert_eq!(st.bar_info.last_time, Some(300_000));
}

#[test]
fn status_of_no_runs_is_empty() {
    let status = compute_status(Vec::new());
    assert_eq!(status.len(), 0);
}

#[test]
fn status_groups_websites_in_first_occurrence_order() {
    let runs = vec![
        series("b", CheckState::Healthy, 0, 10),
        series("a", CheckState::Unhealthy, 0, 10),
        series("b", CheckState::Unhealthy, 20, 30),
    ];
    let status = compute_status(runs);
    assert_eq!(status.len(), 2);
    assert_eq!(status[0].website, "b");
    assert_eq!(status[0].total_requests, 2);
    assert_eq!(status[0].count_ok, 1);
    assert_eq!(status[0].last_ok, Some(10));
    assert_eq!(status[1].website, "a");
    assert_eq!(status[1].total_requests, 1);
    assert_eq!(status[1].count_ok, 0);
    assert_eq!(status[1].ok_ratio, "0.00%");
    assert_eq!(status[1].last_ok, None);
}

#[test]
fn status_sorts_runs_before_downsampling() {
    // runs arrive unordered; the summary still spans the true range
    let runs = vec![
        series("example", CheckState::Unhealthy, 990, 1000),
        series("example", CheckState::Healthy, 0, 10),
    ];
    let status = compute_status(runs);
    assert_eq!(status.len(), 1);
    assert_eq!(status[0].bar_info.first_time, Some(0));
    assert_eq!(status[0].bar_info.last_time, Some(1000));
    assert_eq!(status[0].last_ok, Some(10));
}
