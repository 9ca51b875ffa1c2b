//! The compacted availability history and the rule that appends to it.
//!
//! A run (`CheckSeries`) stands for a maximal consecutive stretch of
//! same-state observations of one website. Appending an observation either
//! extends the website's most recent run or seals it and opens a new one;
//! the decision is the merge policy `merge_extends`. The same rule drives
//! both the per-tick append and the batch rebuild in `migrate`.

use vstd::prelude::*;

use crate::client::{CheckResult, CheckState};

verus! {

/// One legacy flat-log entry: a persisted observation, as the storage layer
/// hands it back. Times are milliseconds since the Unix epoch.
#[derive(Debug)]
pub struct Check {
    pub id: i32,
    pub request_time: i64,
    pub website: String,
    pub result: CheckState,
}

/// One compacted history entry: a run of same-state observations of one
/// website, spanning the closed time range `[range_start, range_end]`.
/// Times are milliseconds since the Unix epoch.
#[derive(Debug)]
pub struct CheckSeries {
    pub id: i32,
    pub request_time_range_start: i64,
    pub request_time_range_end: i64,
    pub website: String,
    pub result: CheckState,
}

/// Mathematical image of a `Check`: what the logic reads of it. The storage
/// row id is bookkeeping and not part of the model.
pub struct CheckView {
    pub time: int,
    pub website: Seq<char>,
    pub state: CheckState,
}

/// Mathematical image of a `CheckSeries`.
pub struct SeriesView {
    pub start: int,
    pub end: int,
    pub website: Seq<char>,
    pub state: CheckState,
}

impl View for Check {
    type V = CheckView;

    open spec fn view(&self) -> CheckView {
        CheckView {
            time: self.request_time as int,
            website: self.website@,
            state: self.result,
        }
    }
}

impl View for CheckSeries {
    type V = SeriesView;

    open spec fn view(&self) -> SeriesView {
        SeriesView {
            start: self.request_time_range_start as int,
            end: self.request_time_range_end as int,
            website: self.website@,
            state: self.result,
        }
    }
}

/// The images of a sequence of runs.
pub open spec fn series_views(s: Seq<CheckSeries>) -> Seq<SeriesView> {
    s.map_values(|c: CheckSeries| c@)
}

/// The images of a sequence of observations.
pub open spec fn check_views(s: Seq<Check>) -> Seq<CheckView> {
    s.map_values(|c: Check| c@)
}

/// Failure of the merge-threshold computation: the configured interval is so
/// large that five intervals do not fit the millisecond time type. A
/// recoverable error value, never a crash.
#[derive(Debug, PartialEq, Eq, Structural, Clone, Copy)]
pub struct ArithmeticError;

/// The merge threshold in milliseconds: five polling intervals.
pub open spec fn threshold_millis(interval_seconds: u64) -> int {
    interval_seconds * 5000
}

/// Computes the merge threshold for the configured polling interval,
/// failing exactly when it does not fit the millisecond time type.
pub fn compute_threshold(interval_seconds: u64) -> (r: Result<i64, ArithmeticError>)
    ensures
        r is Ok <==> threshold_millis(interval_seconds) <= i64::MAX,
        r is Ok ==> r->Ok_0 == threshold_millis(interval_seconds),
{
    if interval_seconds <= 0x7fff_ffff_ffff_ffffu64 / 5000 {
        Ok((interval_seconds * 5000) as i64)
    } else {
        Err(ArithmeticError)
    }
}

/// The merge policy: an observation extends a website's open run when the
/// states match and the run's end lies strictly before the observation time
/// plus the threshold. Since per-website observations arrive in
/// non-decreasing time order, the time bound holds whenever the threshold is
/// positive, so the policy is deliberately permissive. A stricter reading
/// would bound the gap between the run's end and the observation time by the
/// threshold instead; switching to it is a product decision, kept localized
/// by naming the policy here rather than spelling the comparison out at each
/// call site.
pub open spec fn merge_extends(
    latest_end: int,
    latest_state: CheckState,
    time: int,
    state: CheckState,
    threshold: int,
) -> bool {
    latest_state == state && latest_end < time + threshold
}

/// Evaluates the merge policy on machine integers, with the comparison taken
/// over the unbounded integers (a sum beyond the time type's range can only
/// make the bound hold).
fn merge_extends_exec(
    latest_end: i64,
    latest_state: CheckState,
    time: i64,
    state: CheckState,
    threshold: i64,
) -> (r: bool)
    requires
        threshold >= 0,
    ensures
        r == merge_extends(latest_end as int, latest_state, time as int, state, threshold as int),
{
    if latest_state == state {
        if time > i64::MAX - threshold {
            true
        } else {
            latest_end < time + threshold
        }
    } else {
        false
    }
}

/// What the storage layer must do with one observation: exactly one run is
/// either updated or inserted, never both.
#[derive(Debug, PartialEq, Eq, Structural, Clone, Copy)]
pub enum SeriesAction {
    /// Set the end of the run with this storage id to the observation time.
    ExtendLatest { id: i32, new_end: i64 },
    /// Insert a fresh run spanning `[time, time]` with this state.
    InsertNew { time: i64, state: CheckState },
}

/// Decides how one website's compacted history changes for one new
/// observation: the pure core of the append operation. `latest` is the
/// website's run with the greatest end time, if any; the lookup and the
/// write that applies the returned action must form one atomic unit per
/// website. Fails with `ArithmeticError` exactly when the merge threshold
/// cannot be computed.
pub fn insert_single_result_series(
    latest: Option<&CheckSeries>,
    interval_seconds: u64,
    check: &CheckResult,
) -> (r: Result<SeriesAction, ArithmeticError>)
    ensures
        r is Ok <==> threshold_millis(interval_seconds) <= i64::MAX,
        r is Ok ==> r->Ok_0 == (match latest {
            Option::Some(l) => if merge_extends(
                l@.end,
                l@.state,
                check.time as int,
                check.state,
                threshold_millis(interval_seconds),
            ) {
                (SeriesAction::ExtendLatest { id: l.id, new_end: check.time })
            } else {
                (SeriesAction::InsertNew { time: check.time, state: check.state })
            },
            Option::None => (SeriesAction::InsertNew { time: check.time, state: check.state }),
        }),
{
    let threshold = match compute_threshold(interval_seconds) {
        Ok(t) => t,
        Err(e) => {
            return Err(e);
        },
    };
    match latest {
        Some(l) => {
            if merge_extends_exec(
                l.request_time_range_end,
                l.result,
                check.time,
                check.state,
                threshold,
            ) {
                Ok(SeriesAction::ExtendLatest { id: l.id, new_end: check.time })
            } else {
                Ok(SeriesAction::InsertNew { time: check.time, state: check.state })
            }
        },
        None => Ok(SeriesAction::InsertNew { time: check.time, state: check.state }),
    }
}

/// Index of the most recent run of `website` in `table`, or -1 when the
/// website has none. Runs are only ever appended or extended in place, so a
/// website's most recent run is its last occurrence.
pub open spec fn latest_index_for(table: Seq<SeriesView>, website: Seq<char>) -> int
    decreases table.len(),
{
    if table.len() == 0 {
        -1
    } else if table.last().website == website {
        table.len() - 1
    } else {
        latest_index_for(table.drop_last(), website)
    }
}

/// What `latest_index_for` returns: the last position holding the website,
/// or -1 when there is none.
pub proof fn lemma_latest_index_for(table: Seq<SeriesView>, website: Seq<char>)
    ensures
        -1 <= latest_index_for(table, website) < table.len(),
        latest_index_for(table, website) >= 0 ==> table[latest_index_for(table, website)].website
            == website,
        forall|k: int|
            latest_index_for(table, website) < k < table.len() ==> #[trigger] table[k].website
                != website,
    decreases table.len(),
{
    if table.len() > 0 && table.last().website != website {
        lemma_latest_index_for(table.drop_last(), website);
        let j = latest_index_for(table, website);
        assert forall|k: int| j < k < table.len() implies #[trigger] table[k].website != website by {
            if k < table.len() - 1 {
                assert(table.drop_last()[k] == table[k]);
            }
        }
    }
}

/// Appending a run moves the latest index of its website to the end and
/// leaves every other website's latest index unchanged.
pub proof fn lemma_latest_index_push(table: Seq<SeriesView>, v: SeriesView, website: Seq<char>)
    ensures
        v.website == website ==> latest_index_for(table.push(v), website) == table.len(),
        v.website != website ==> latest_index_for(table.push(v), website) == latest_index_for(
            table,
            website,
        ),
{
    assert(table.push(v).drop_last() =~= table);
}

/// Updating a run without changing its website leaves every latest index
/// unchanged.
pub proof fn lemma_latest_index_update(
    table: Seq<SeriesView>,
    j: int,
    v: SeriesView,
    website: Seq<char>,
)
    requires
        0 <= j < table.len(),
        v.website == table[j].website,
    ensures
        latest_index_for(table.update(j, v), website) == latest_index_for(table, website),
    decreases table.len(),
{
    let upd = table.update(j, v);
    if table.len() > 0 {
        if j == table.len() - 1 {
            assert(upd.last() == v);
            assert(upd.drop_last() =~= table.drop_last());
        } else {
            assert(upd.last() == table.last());
            assert(upd.drop_last() =~= table.drop_last().update(j, v));
            lemma_latest_index_update(table.drop_last(), j, v, website);
        }
    }
}

/// One append of one observation to the whole compacted history: extend the
/// website's most recent run when the merge policy allows it, else open a
/// fresh run at the end. This is the single compaction rule; both the
/// per-tick append and the batch rebuild follow it.
pub open spec fn step_spec(
    table: Seq<SeriesView>,
    interval_seconds: u64,
    website: Seq<char>,
    time: int,
    state: CheckState,
) -> Seq<SeriesView> {
    let j = latest_index_for(table, website);
    if j >= 0 && merge_extends(
        table[j].end,
        table[j].state,
        time,
        state,
        threshold_millis(interval_seconds),
    ) {
        table.update(j, SeriesView { end: time, ..table[j] })
    } else {
        table.push(SeriesView { start: time, end: time, website, state })
    }
}

/// Well-formedness of the compacted history: every run is a closed interval,
/// and one website's runs appear in time order, each ending strictly before
/// the next begins.
pub open spec fn wf_table(table: Seq<SeriesView>) -> bool {
    &&& forall|i: int| 0 <= i < table.len() ==> #[trigger] table[i].start <= table[i].end
    &&& forall|i: int, j: int|
        #![trigger table[i], table[j]]
        0 <= i < j < table.len() && table[i].website == table[j].website ==> table[i].end
            < table[j].start
}

/// Non-overlap law: in a well-formed history, any two distinct runs of one
/// website cover disjoint closed time ranges.
pub proof fn lemma_nonoverlap(table: Seq<SeriesView>, i: int, j: int)
    requires
        wf_table(table),
        0 <= i < table.len(),
        0 <= j < table.len(),
        i != j,
        table[i].website == table[j].website,
    ensures
        table[i].end < table[j].start || table[j].end < table[i].start,
{
}

/// Split law: an observation whose state differs from the open run's state
/// always opens a fresh one-point run, regardless of the time gap.
pub proof fn lemma_split_on_state_change(
    table: Seq<SeriesView>,
    interval_seconds: u64,
    website: Seq<char>,
    time: int,
    state: CheckState,
)
    requires
        latest_index_for(table, website) >= 0,
        table[latest_index_for(table, website)].state != state,
    ensures
        step_spec(table, interval_seconds, website, time, state) == table.push(
            SeriesView { start: time, end: time, website, state },
        ),
{
}

/// One append keeps the history well formed, provided the observation comes
/// strictly after the website's open run ended (per-website observations are
/// delivered in increasing time order, one per tick).
pub proof fn lemma_step_preserves_wf(
    table: Seq<SeriesView>,
    interval_seconds: u64,
    website: Seq<char>,
    time: int,
    state: CheckState,
)
    requires
        wf_table(table),
        latest_index_for(table, website) >= 0 ==> time > table[latest_index_for(
            table,
            website,
        )].end,
    ensures
        wf_table(step_spec(table, interval_seconds, website, time, state)),
{
    lemma_latest_index_for(table, website);
    let j = latest_index_for(table, website);
    let out = step_spec(table, interval_seconds, website, time, state);
    if j >= 0 && merge_extends(
        table[j].end,
        table[j].state,
        time,
        state,
        threshold_millis(interval_seconds),
    ) {
        assert forall|a: int, b: int|
            #![trigger out[a], out[b]]
            0 <= a < b < out.len() && out[a].website == out[b].website implies out[a].end
            < out[b].start by {
            if b == j {
                assert(table[a].end < table[b].start);
            }
        }
    } else {
        assert forall|a: int, b: int|
            #![trigger out[a], out[b]]
            0 <= a < b < out.len() && out[a].website == out[b].website implies out[a].end
            < out[b].start by {
            if b == table.len() {
                // a is an existing run of the same website, so a <= j and its
                // end lies before the open run's end, which lies before time
                assert(a <= j);
                if a < j {
                    assert(table[a].end < table[j].start);
                }
            }
        }
    }
}

/// Compaction of a whole observation stream: the append rule replayed over
/// the observations in delivery order, starting from an empty history.
pub open spec fn replay(obs: Seq<CheckView>, interval_seconds: u64) -> Seq<SeriesView>
    decreases obs.len(),
{
    if obs.len() == 0 {
        Seq::empty()
    } else {
        step_spec(
            replay(obs.drop_last(), interval_seconds),
            interval_seconds,
            obs.last().website,
            obs.last().time,
            obs.last().state,
        )
    }
}

/// Index of the most recent observation of `website`, or -1 when it has none.
pub open spec fn last_obs_for(obs: Seq<CheckView>, website: Seq<char>) -> int
    decreases obs.len(),
{
    if obs.len() == 0 {
        -1
    } else if obs.last().website == website {
        obs.len() - 1
    } else {
        last_obs_for(obs.drop_last(), website)
    }
}

/// What `last_obs_for` returns: the last position holding the website, or -1.
pub proof fn lemma_last_obs_for(obs: Seq<CheckView>, website: Seq<char>)
    ensures
        -1 <= last_obs_for(obs, website) < obs.len(),
        last_obs_for(obs, website) >= 0 ==> obs[last_obs_for(obs, website)].website == website,
    decreases obs.len(),
{
    if obs.len() > 0 && obs.last().website != website {
        lemma_last_obs_for(obs.drop_last(), website);
    }
}

/// Non-overlap law for a whole stream: replaying observations whose
/// per-website times strictly increase yields a well-formed history, and
/// each website's open run ends at its most recent observation time.
pub proof fn lemma_replay_wf(obs: Seq<CheckView>, interval_seconds: u64)
    requires
        forall|i: int, j: int|
            #![trigger obs[i], obs[j]]
            0 <= i < j < obs.len() && obs[i].website == obs[j].website ==> obs[i].time
                < obs[j].time,
    ensures
        wf_table(replay(obs, interval_seconds)),
        forall|w: Seq<char>|
            #![trigger latest_index_for(replay(obs, interval_seconds), w)]
            #![trigger last_obs_for(obs, w)]
            (latest_index_for(replay(obs, interval_seconds), w) >= 0 <==> last_obs_for(obs, w)
                >= 0) && (last_obs_for(obs, w) >= 0 ==> replay(
                obs,
                interval_seconds,
            )[latest_index_for(replay(obs, interval_seconds), w)].end == obs[last_obs_for(
                obs,
                w,
            )].time),
    decreases obs.len(),
{
    if obs.len() > 0 {
        let prefix = obs.drop_last();
        let o = obs.last();
        lemma_replay_wf(prefix, interval_seconds);
        let table = replay(prefix, interval_seconds);
        let out = replay(obs, interval_seconds);
        let j = latest_index_for(table, o.website);
        lemma_latest_index_for(table, o.website);
        lemma_last_obs_for(prefix, o.website);
        if j >= 0 {
            // the open run ends at the website's most recent prior
            // observation, which lies strictly before this one
            let p = last_obs_for(prefix, o.website);
            assert(obs[p].time < o.time);
        }
        lemma_step_preserves_wf(table, interval_seconds, o.website, o.time, o.state);
        assert forall|w: Seq<char>|
            (latest_index_for(out, w) >= 0 <==> last_obs_for(obs, w) >= 0) && (last_obs_for(obs, w)
                >= 0 ==> out[latest_index_for(out, w)].end == obs[last_obs_for(obs, w)].time) by {
            lemma_latest_index_for(table, w);
            lemma_last_obs_for(prefix, w);
            if j >= 0 && merge_extends(
                table[j].end,
                table[j].state,
                o.time,
                o.state,
                threshold_millis(interval_seconds),
            ) {
                lemma_latest_index_update(
                    table,
                    j,
                    SeriesView { end: o.time, ..table[j] },
                    w,
                );
            } else {
                lemma_latest_index_push(
                    table,
                    SeriesView { start: o.time, end: o.time, website: o.website, state: o.state },
                    w,
                );
            }
        }
    }
}

/// Merge law: same-website, same-state observations delivered in
/// non-decreasing time order, all within the merge threshold of each other,
/// compact to exactly one run spanning their first and last times.
pub proof fn lemma_merge_single_run(obs: Seq<CheckView>, interval_seconds: u64)
    requires
        obs.len() > 0,
        interval_seconds >= 1,
        forall|i: int| 0 <= i < obs.len() ==> #[trigger] obs[i].website == obs[0].website,
        forall|i: int| 0 <= i < obs.len() ==> #[trigger] obs[i].state == obs[0].state,
        forall|i: int, j: int|
            #![trigger obs[i], obs[j]]
            0 <= i < j < obs.len() ==> obs[i].time <= obs[j].time && obs[j].time - obs[i].time
                <= threshold_millis(interval_seconds),
    ensures
        replay(obs, interval_seconds) =~= seq![
            SeriesView {
                start: obs[0].time,
                end: obs[obs.len() - 1].time,
                website: obs[0].website,
                state: obs[0].state,
            },
        ],
    decreases obs.len(),
{
    if obs.len() == 1 {
        assert(replay(obs.drop_last(), interval_seconds) =~= Seq::<SeriesView>::empty());
    } else {
        let prefix = obs.drop_last();
        lemma_merge_single_run(prefix, interval_seconds);
        let table = replay(prefix, interval_seconds);
        let o = obs.last();
        assert(latest_index_for(table, o.website) == 0);
        assert(table[0].end == obs[obs.len() - 2].time);
        assert(threshold_millis(interval_seconds) >= 5000);
        assert(merge_extends(
            table[0].end,
            table[0].state,
            o.time,
            o.state,
            threshold_millis(interval_seconds),
        ));
    }
}

/// The cache entry for each website points at the website's most recent run,
/// keys are unique, and every website that has a run is cached. A plain
/// vector of pairs stands in for a hash map here so that the cache's
/// contents stay visible to the verifier.
pub open spec fn cache_wf(cache: Seq<(String, usize)>, table: Seq<SeriesView>) -> bool {
    &&& forall|k1: int, k2: int|
        0 <= k1 < k2 < cache.len() ==> #[trigger] cache[k1].0@ != #[trigger] cache[k2].0@
    &&& forall|k: int|
        0 <= k < cache.len() ==> #[trigger] cache[k].1 == latest_index_for(table, cache[k].0@)
    &&& forall|w: Seq<char>|
        latest_index_for(table, w) >= 0 ==> exists|k: int|
            0 <= k < cache.len() && #[trigger] cache[k].0@ == w
}

/// Position of a website's cache entry, if it has one.
fn cache_find(cache: &Vec<(String, usize)>, website: &String) -> (r: Option<usize>)
    ensures
        match r {
            Option::Some(k) => 0 <= k < cache@.len() && cache@[k as int].0@ == website@,
            Option::None => forall|k: int|
                0 <= k < cache@.len() ==> #[trigger] cache@[k].0@ != website@,
        },
{
    let mut i: usize = 0;
    while i < cache.len()
        invariant
            0 <= i <= cache@.len(),
            forall|k: int| 0 <= k < i ==> #[trigger] cache@[k].0@ != website@,
        decreases cache@.len() - i,
    {
        if cache[i].0 == *website {
            return Some(i);
        }
        i = i + 1;
    }
    None
}

/// Appends one observation to the in-memory history, following the
/// compaction rule: the single step of the batch rebuild. The caller keeps
/// `latest_cache` across calls so that the whole rebuild stays linear in the
/// number of observations.
pub fn insert_single_result_series_in_memory(
    table: &mut Vec<CheckSeries>,
    latest_cache: &mut Vec<(String, usize)>,
    interval_seconds: u64,
    website: &str,
    check: &CheckResult,
)
    requires
        threshold_millis(interval_seconds) <= i64::MAX,
        cache_wf(old(latest_cache)@, series_views(old(table)@)),
    ensures
        series_views(final(table)@) == step_spec(
            series_views(old(table)@),
            interval_seconds,
            website@,
            check.time as int,
            check.state,
        ),
        cache_wf(final(latest_cache)@, series_views(final(table)@)),
{
    let ghost old_views = series_views(old(table)@);
    let w: String = website.to_owned();
    let threshold = match compute_threshold(interval_seconds) {
        Ok(t) => t,
        Err(_) => {
            // unreachable: the threshold fits by precondition
            proof {
                assert(false);
            }
            0
        },
    };
    let cache_pos = cache_find(latest_cache, &w);
    proof {
        lemma_latest_index_for(old_views, website@);
    }
    let latest_idx: Option<usize> = match cache_pos {
        Some(k) => Some(latest_cache[k].1),
        None => None,
    };
    match latest_idx {
        Some(idx) => {
            proof {
                assert(idx == latest_index_for(old_views, website@));
                assert(old_views[idx as int] == table@[idx as int]@);
            }
            let extend = merge_extends_exec(
                table[idx].request_time_range_end,
                table[idx].result,
                check.time,
                check.state,
                threshold,
            );
            if extend {
                table[idx].request_time_range_end = check.time;
                proof {
                    let j = latest_index_for(old_views, website@);
                    assert(series_views(table@) =~= old_views.update(
                        j,
                        SeriesView { end: check.time as int, ..old_views[j] },
                    ));
                    lemma_cache_still_wf_after_update(
                        latest_cache@,
                        old_views,
                        j,
                        SeriesView { end: check.time as int, ..old_views[j] },
                    );
                }
            } else {
                push_new_run(table, latest_cache, website, &w, check);
            }
        },
        None => {
            push_new_run(table, latest_cache, website, &w, check);
        },
    }
}

/// Seals the website's open run (if any) by opening a fresh run at the end
/// of the table, and points the cache at it.
fn push_new_run(
    table: &mut Vec<CheckSeries>,
    latest_cache: &mut Vec<(String, usize)>,
    website: &str,
    w: &String,
    check: &CheckResult,
)
    requires
        cache_wf(old(latest_cache)@, series_views(old(table)@)),
        w@ == website@,
    ensures
        series_views(final(table)@) == series_views(old(table)@).push(
            SeriesView {
                start: check.time as int,
                end: check.time as int,
                website: website@,
                state: check.state,
            },
        ),
        cache_wf(final(latest_cache)@, series_views(final(table)@)),
{
    let ghost old_views = series_views(old(table)@);
    let ghost v = SeriesView {
        start: check.time as int,
        end: check.time as int,
        website: website@,
        state: check.state,
    };
    let idx = table.len();
    table.push(
        CheckSeries {
            id: 0,
            request_time_range_start: check.time,
            request_time_range_end: check.time,
            website: website.to_owned(),
            result: check.state,
        },
    );
    proof {
        assert(series_views(table@) =~= old_views.push(v));
    }
    let cache_pos = cache_find(latest_cache, w);
    match cache_pos {
        Some(k) => {
            latest_cache.remove(k);
        },
        None => {},
    }
    let ghost base = latest_cache@;
    latest_cache.push((website.to_owned(), idx));
    proof {
        lemma_cache_wf_after_push(
            old(latest_cache)@,
            base,
            latest_cache@,
            cache_pos,
            old_views,
            v,
            idx as int,
        );
    }
}

/// Extending a run in place (same website) keeps the cache well formed.
proof fn lemma_cache_still_wf_after_update(
    cache: Seq<(String, usize)>,
    table: Seq<SeriesView>,
    j: int,
    v: SeriesView,
)
    requires
        cache_wf(cache, table),
        0 <= j < table.len(),
        v.website == table[j].website,
    ensures
        cache_wf(cache, table.update(j, v)),
{
    let upd = table.update(j, v);
    assert forall|k: int| 0 <= k < cache.len() implies #[trigger] cache[k].1 == latest_index_for(
        upd,
        cache[k].0@,
    ) by {
        lemma_latest_index_update(table, j, v, cache[k].0@);
    }
    assert forall|w: Seq<char>| latest_index_for(upd, w) >= 0 implies exists|k: int|
        0 <= k < cache.len() && #[trigger] cache[k].0@ == w by {
        lemma_latest_index_update(table, j, v, w);
    }
}

/// Opening a fresh run and repointing its website's cache entry at it keeps
/// the cache well formed.
proof fn lemma_cache_wf_after_push(
    old_cache: Seq<(String, usize)>,
    base: Seq<(String, usize)>,
    new_cache: Seq<(String, usize)>,
    removed: Option<usize>,
    table: Seq<SeriesView>,
    v: SeriesView,
    idx: int,
)
    requires
        cache_wf(old_cache, table),
        idx == table.len(),
        match removed {
            Option::Some(k) => 0 <= k < old_cache.len() && old_cache[k as int].0@ == v.website
                && base == old_cache.remove(k as int),
            Option::None => base == old_cache && (forall|k: int|
                0 <= k < old_cache.len() ==> #[trigger] old_cache[k].0@ != v.website),
        },
        new_cache == base.push(new_cache.last()),
        new_cache.last().0@ == v.website,
        new_cache.last().1 == idx,
    ensures
        cache_wf(new_cache, table.push(v)),
{
    let big = table.push(v);
    // every base entry is an old entry with a different website than v
    assert forall|k: int| 0 <= k < base.len() implies (#[trigger] base[k].0@ != v.website
        && base[k].1 == latest_index_for(table, base[k].0@)) by {
        match removed {
            Option::Some(r) => {
                if k < r {
                    assert(base[k] == old_cache[k]);
                } else {
                    assert(base[k] == old_cache[k + 1]);
                }
            },
            Option::None => {},
        }
    }
    assert forall|k: int| 0 <= k < new_cache.len() implies #[trigger] new_cache[k].1
        == latest_index_for(big, new_cache[k].0@) by {
        lemma_latest_index_push(table, v, new_cache[k].0@);
    }
    assert forall|k1: int, k2: int| 0 <= k1 < k2 < new_cache.len() implies #[trigger] new_cache[k1].0@
        != #[trigger] new_cache[k2].0@ by {
        match removed {
            Option::Some(r) => {
                if k2 < new_cache.len() - 1 {
                    let m1 = if k1 < r { k1 } else { k1 + 1 };
                    let m2 = if k2 < r { k2 } else { k2 + 1 };
                    assert(old_cache[m1].0@ != old_cache[m2].0@);
                }
            },
            Option::None => {},
        }
    }
    assert forall|w: Seq<char>| latest_index_for(big, w) >= 0 implies exists|k: int|
        0 <= k < new_cache.len() && #[trigger] new_cache[k].0@ == w by {
        lemma_latest_index_push(table, v, w);
        if w == v.website {
            assert(new_cache[new_cache.len() - 1].0@ == w);
        } else {
            assert(latest_index_for(table, w) >= 0);
            let k0 = choose|k: int| 0 <= k < old_cache.len() && #[trigger] old_cache[k].0@ == w;
            match removed {
                Option::Some(r) => {
                    let m = if k0 < r {
                        k0
                    } else {
                        k0 - 1
                    };
                    assert(old_cache[r as int].0@ == v.website);
                    assert(k0 != r);
                    assert(new_cache[m].0@ == w);
                },
                Option::None => {
                    assert(new_cache[k0].0@ == w);
                },
            }
        }
    }
}

} // verus!

