//! Observations: one timestamped health reading per website per probe tick.

use vstd::prelude::*;

verus! {

/// Health of one website at one instant: a closed two-valued tag, kept as a
/// sum type (not a boolean) so that a further state can be added without a
/// storage-format break.
#[derive(Debug, PartialEq, Eq, Structural, Clone, Copy)]
pub enum CheckState {
    Healthy,
    Unhealthy,
}

impl CheckState {
    /// The stable tag under which this state is persisted.
    pub fn as_tag(&self) -> (r: &'static str)
        ensures
            *self == CheckState::Healthy ==> r@ == "ok"@,
            *self == CheckState::Unhealthy ==> r@ == "not_ok"@,
    {
        match self {
            CheckState::Healthy => "ok",
            CheckState::Unhealthy => "not_ok",
        }
    }
}

/// One health observation: the instant a probe was made (milliseconds since
/// the Unix epoch) and the state it saw.
#[derive(Debug, Clone, Copy)]
pub struct CheckResult {
    pub time: i64,
    pub state: CheckState,
}

/// How a probe outcome is classified: a response whose status lies in the
/// success range is healthy; any other status, or no response at all
/// (a transport failure), is unhealthy.
pub open spec fn classify_status_spec(status: Option<u16>) -> CheckState {
    match status {
        Option::Some(s) => if 200 <= s && s < 300 {
            CheckState::Healthy
        } else {
            CheckState::Unhealthy
        },
        Option::None => CheckState::Unhealthy,
    }
}

/// Classifies the outcome of one probe. `status` is the response status if
/// a response arrived, `None` on a transport failure. A failed probe is a
/// normal observation, never an error: it never aborts a tick.
pub fn classify_status(status: Option<u16>) -> (r: CheckState)
    ensures
        r == classify_status_spec(status),
{
    match status {
        Some(s) => {
            if 200 <= s && s < 300 {
                CheckState::Healthy
            } else {
                CheckState::Unhealthy
            }
        },
        None => CheckState::Unhealthy,
    }
}

} // verus!
