//! Classification of probe outcomes and the small configuration helpers.

use uptime::client::{classify_status, CheckState};
use uptime::config::default_db_url;

#[test]
fn success_statuses_are_healthy() {
    assert_eq!(classify_status(Some(200)), CheckState::Healthy);
    assert_eq!(classify_status(Some(204)), CheckState::Healthy);
    assert_eq!(classify_status(Some(299)), CheckState::Healthy);
}

#[test]
fn other_statuses_are_unhealthy() {
    assert_eq!(classify_status(Some(199)), CheckState::Unhealthy);
    assert_eq!(classify_status(Some(300)), CheckState::Unhealthy);
    assert_eq!(classify_status(Some(404)), CheckState::Unhealthy);
    assert_eq!(classify_status(Some(500)), CheckState::Unhealthy);
}

#[test]
fn transport_failure_is_a_normal_unhealthy_observation() {
    assert_eq!(classify_status(None), CheckState::Unhealthy);
}

#[test]
fn states_persist_under_stable_tags() {
    assert_eq!(CheckState::Healthy.as_tag(), "ok");
    assert_eq!(CheckState::Unhealthy.as_tag(), "not_ok");
}

#[test]
fn the_default_storage_location() {
    assert_eq!(default_db_url(), "uptime.db");
}
