//! One-time batch rebuild of the compacted history from a legacy flat
//! observation log: sort the observations by time (keeping each website's
//! relative order) and replay the append rule over them in memory. Loading
//! the legacy rows and committing the produced runs in one all-or-nothing
//! transaction belong to the storage layer around this library.

use vstd::prelude::*;

use crate::client::CheckResult;
use crate::db::{
    cache_wf, check_views, replay, series_views, step_spec, threshold_millis, Check, CheckSeries,
};

verus! {

/// Where a new observation lands in a time-sorted list: after every element
/// whose time is not greater, so that elements with equal times keep their
/// relative order.
pub open spec fn insert_pos(s: Seq<crate::db::CheckView>, time: int) -> int
    decreases s.len(),
{
    if s.len() == 0 {
        0
    } else if s.last().time <= time {
        s.len() as int
    } else {
        insert_pos(s.drop_last(), time)
    }
}

/// Stable insertion of one observation into a time-sorted list.
pub open spec fn stable_insert(
    s: Seq<crate::db::CheckView>,
    c: crate::db::CheckView,
) -> Seq<crate::db::CheckView> {
    s.insert(insert_pos(s, c.time), c)
}

/// Stable sort by time: observations are inserted one after the other, each
/// after all elements with equal or lesser time, so the global order is
/// non-decreasing in time and each website's relative order is kept.
pub open spec fn stable_sort_by_time(s: Seq<crate::db::CheckView>) -> Seq<crate::db::CheckView>
    decreases s.len(),
{
    if s.len() == 0 {
        Seq::empty()
    } else {
        stable_insert(stable_sort_by_time(s.drop_last()), s.last())
    }
}

/// Non-decreasing in time.
pub open spec fn sorted_by_time(s: Seq<crate::db::CheckView>) -> bool {
    forall|i: int, j: int| #![trigger s[i], s[j]] 0 <= i < j < s.len() ==> s[i].time <= s[j].time
}

/// `insert_pos` splits a sorted list: everything before the position is not
/// later than the new time, everything from it on is strictly later.
pub proof fn lemma_insert_pos(s: Seq<crate::db::CheckView>, time: int)
    ensures
        0 <= insert_pos(s, time) <= s.len(),
        forall|k: int| insert_pos(s, time) <= k < s.len() ==> #[trigger] s[k].time > time,
        sorted_by_time(s) ==> forall|k: int|
            0 <= k < insert_pos(s, time) ==> #[trigger] s[k].time <= time,
    decreases s.len(),
{
    if s.len() > 0 {
        lemma_insert_pos(s.drop_last(), time);
        let p = insert_pos(s, time);
        if s.last().time <= time {
            if sorted_by_time(s) {
                assert forall|k: int| 0 <= k < p implies #[trigger] s[k].time <= time by {
                    if k < s.len() - 1 {
                        assert(s[k].time <= s[s.len() - 1].time);
                    }
                }
            }
        } else {
            assert forall|k: int| p <= k < s.len() implies #[trigger] s[k].time > time by {
                if k < s.len() - 1 {
                    assert(s.drop_last()[k] == s[k]);
                }
            }
            if sorted_by_time(s) {
                assert forall|i: int, j: int|
                    #![trigger s.drop_last()[i], s.drop_last()[j]]
                    0 <= i < j < s.drop_last().len() implies s.drop_last()[i].time
                    <= s.drop_last()[j].time by {
                    assert(s.drop_last()[i] == s[i]);
                    assert(s.drop_last()[j] == s[j]);
                }
                assert forall|k: int| 0 <= k < p implies #[trigger] s[k].time <= time by {
                    assert(s.drop_last()[k] == s[k]);
                }
            }
        }
    }
}

/// Stable insertion keeps a sorted list sorted.
pub proof fn lemma_stable_insert_sorted(s: Seq<crate::db::CheckView>, c: crate::db::CheckView)
    requires
        sorted_by_time(s),
    ensures
        sorted_by_time(stable_insert(s, c)),
{
    lemma_insert_pos(s, c.time);
    let p = insert_pos(s, c.time);
    let out = stable_insert(s, c);
    assert forall|i: int, j: int|
        #![trigger out[i], out[j]]
        0 <= i < j < out.len() implies out[i].time <= out[j].time by {
        let oi = if i < p {
            s[i]
        } else if i == p {
            c
        } else {
            s[i - 1]
        };
        let oj = if j < p {
            s[j]
        } else if j == p {
            c
        } else {
            s[j - 1]
        };
        assert(out[i] == oi);
        assert(out[j] == oj);
    }
}

/// Inserting an element anywhere adds exactly that element.
proof fn lemma_insert_to_multiset(s: Seq<crate::db::CheckView>, p: int, c: crate::db::CheckView)
    requires
        0 <= p <= s.len(),
    ensures
        s.insert(p, c).to_multiset() == s.to_multiset().insert(c),
{
    broadcast use vstd::seq_lib::group_to_multiset_ensures;
    broadcast use vstd::multiset::group_multiset_axioms;

    let t = s.insert(p, c);
    assert(s =~= s.subrange(0, p) + s.subrange(p, s.len() as int));
    vstd::seq_lib::lemma_multiset_commutative(s.subrange(0, p), s.subrange(p, s.len() as int));
    vstd::seq_lib::lemma_multiset_commutative(
        s.subrange(0, p).push(c),
        s.subrange(p, s.len() as int),
    );
    assert(t.to_multiset() =~= s.to_multiset().insert(c));
}

/// The sorted log holds exactly the observations of the input, no more and
/// no fewer: the stable sort is a permutation.
pub proof fn lemma_stable_sort_permutes(s: Seq<crate::db::CheckView>)
    ensures
        stable_sort_by_time(s).to_multiset() == s.to_multiset(),
    decreases s.len(),
{
    broadcast use vstd::seq_lib::group_to_multiset_ensures;

    if s.len() > 0 {
        let sorted = stable_sort_by_time(s.drop_last());
        lemma_stable_sort_permutes(s.drop_last());
        lemma_insert_pos(sorted, s.last().time);
        lemma_insert_to_multiset(sorted, insert_pos(sorted, s.last().time), s.last());
        assert(s =~= s.drop_last().push(s.last()));
    }
}

/// The stable sort is sorted.
pub proof fn lemma_stable_sort_sorted(s: Seq<crate::db::CheckView>)
    ensures
        sorted_by_time(stable_sort_by_time(s)),
    decreases s.len(),
{
    if s.len() > 0 {
        lemma_stable_sort_sorted(s.drop_last());
        lemma_stable_insert_sorted(stable_sort_by_time(s.drop_last()), s.last());
    }
}

/// No website is observed twice at the same instant.
pub open spec fn distinct_times_per_website(obs: Seq<crate::db::CheckView>) -> bool {
    forall|i: int, j: int|
        #![trigger obs[i], obs[j]]
        0 <= i < obs.len() && 0 <= j < obs.len() && i != j && obs[i].website == obs[j].website
            ==> obs[i].time != obs[j].time
}

/// A sequence with two distinct positions holding one value counts it at
/// least twice.
proof fn lemma_two_positions_count(s: Seq<crate::db::CheckView>, i: int, j: int)
    requires
        0 <= i < s.len(),
        0 <= j < s.len(),
        i != j,
        s[i] == s[j],
    ensures
        s.to_multiset().count(s[i]) >= 2,
{
    broadcast use vstd::seq_lib::group_to_multiset_ensures;
    broadcast use vstd::multiset::group_multiset_axioms;

    let lo = if i < j {
        i
    } else {
        j
    };
    let hi = if i < j {
        j
    } else {
        i
    };
    let rest = s.remove(lo);
    assert(rest[hi - 1] == s[hi]);
    assert(rest.contains(s[i]));
    assert(rest.to_multiset() =~= s.to_multiset().remove(s[lo]));
    assert(rest.to_multiset().count(s[i]) > 0);
    assert(s.to_multiset().count(s[i]) == rest.to_multiset().count(s[i]) + 1);
}

/// Conversely, a value counted at least twice sits at two distinct positions.
proof fn lemma_count_two_positions(s: Seq<crate::db::CheckView>, v: crate::db::CheckView)
    requires
        s.to_multiset().count(v) >= 2,
    ensures
        exists|i: int, j: int|
            #![trigger s[i], s[j]]
            0 <= i < s.len() && 0 <= j < s.len() && i != j && s[i] == v && s[j] == v,
{
    broadcast use vstd::seq_lib::group_to_multiset_ensures;
    broadcast use vstd::multiset::group_multiset_axioms;

    assert(s.contains(v));
    let i = choose|i: int| 0 <= i < s.len() && s[i] == v;
    let rest = s.remove(i);
    assert(rest.to_multiset() =~= s.to_multiset().remove(s[i]));
    assert(rest.to_multiset().count(v) >= 1);
    assert(rest.contains(v));
    let k = choose|k: int| 0 <= k < rest.len() && rest[k] == v;
    let j = if k < i {
        k
    } else {
        k + 1
    };
    assert(s[j] == rest[k]);
    assert(s[i] == v && s[j] == v && i != j);
}

/// Distinctness of per-website observation times survives any permutation.
proof fn lemma_distinct_times_permuted(
    s1: Seq<crate::db::CheckView>,
    s2: Seq<crate::db::CheckView>,
)
    requires
        s1.to_multiset() == s2.to_multiset(),
        distinct_times_per_website(s1),
    ensures
        distinct_times_per_website(s2),
{
    broadcast use vstd::seq_lib::group_to_multiset_ensures;
    broadcast use vstd::multiset::group_multiset_axioms;

    assert forall|i: int, j: int|
        #![trigger s2[i], s2[j]]
        0 <= i < s2.len() && 0 <= j < s2.len() && i != j && s2[i].website == s2[j].website implies
        s2[i].time != s2[j].time by {
        if s2[i].time == s2[j].time {
            let a = s2[i];
            let b = s2[j];
            if a == b {
                lemma_two_positions_count(s2, i, j);
                lemma_count_two_positions(s1, a);
                let (i1, j1) = choose|i1: int, j1: int|
                    #![trigger s1[i1], s1[j1]]
                    0 <= i1 < s1.len() && 0 <= j1 < s1.len() && i1 != j1 && s1[i1] == a
                        && s1[j1] == a;
                assert(s1[i1].time != s1[j1].time);
            } else {
                assert(s2.contains(a));
                assert(s2.contains(b));
                assert(s2.to_multiset().count(a) > 0);
                assert(s2.to_multiset().count(b) > 0);
                assert(s1.to_multiset().count(a) > 0);
                assert(s1.to_multiset().count(b) > 0);
                assert(s1.contains(a));
                assert(s1.contains(b));
                let i1 = choose|i1: int| 0 <= i1 < s1.len() && s1[i1] == a;
                let j1 = choose|j1: int| 0 <= j1 < s1.len() && s1[j1] == b;
                assert(s1[i1].time != s1[j1].time);
            }
        }
    }
}

/// Non-overlap after migration: when the legacy log never records one
/// website twice at the same instant, the rebuilt history is well formed —
/// every run a closed interval, and any two distinct runs of one website
/// disjoint.
pub proof fn lemma_migrate_wf(obs: Seq<crate::db::CheckView>, interval_seconds: u64)
    requires
        distinct_times_per_website(obs),
    ensures
        crate::db::wf_table(replay(stable_sort_by_time(obs), interval_seconds)),
{
    let sorted = stable_sort_by_time(obs);
    lemma_stable_sort_sorted(obs);
    lemma_stable_sort_permutes(obs);
    lemma_distinct_times_permuted(obs, sorted);
    assert forall|i: int, j: int|
        #![trigger sorted[i], sorted[j]]
        0 <= i < j < sorted.len() && sorted[i].website == sorted[j].website implies sorted[i].time
        < sorted[j].time by {
        assert(sorted[i].time <= sorted[j].time);
        assert(sorted[i].time != sorted[j].time);
    }
    crate::db::lemma_replay_wf(sorted, interval_seconds);
}

/// Sorts the legacy observations by time, keeping the relative order of
/// entries with equal times (and so each website's relative order).
pub fn sort_checks_by_time(checks: Vec<Check>) -> (r: Vec<Check>)
    ensures
        check_views(r@) == stable_sort_by_time(check_views(checks@)),
{
    let ghost orig = checks@;
    let mut rest = checks;
    let mut out: Vec<Check> = Vec::new();
    proof {
        assert(check_views(orig.take(0)) =~= Seq::<crate::db::CheckView>::empty());
        assert(check_views(out@) =~= stable_sort_by_time(check_views(orig.take(0))));
    }
    while rest.len() > 0
        invariant
            0 <= orig.len() - rest.len() <= orig.len(),
            rest@ == orig.skip(orig.len() - rest.len()),
            check_views(out@) == stable_sort_by_time(
                check_views(orig.take(orig.len() - rest.len())),
            ),
        decreases rest.len(),
    {
        let ghost done = orig.len() - rest@.len();
        let c = rest.remove(0);
        proof {
            assert(rest@ =~= orig.skip(done + 1));
            assert(c == orig[done]);
        }
        // find the stable insertion position: after every element whose time
        // is not greater than the new one
        proof {
            assert(check_views(out@).take(out@.len() as int) =~= check_views(out@));
        }
        let mut j: usize = out.len();
        while j > 0 && out[j - 1].request_time > c.request_time
            invariant
                0 <= j <= out@.len(),
                forall|k: int| j <= k < out@.len() ==> #[trigger] out@[k].request_time
                    > c.request_time,
                insert_pos(check_views(out@), c.request_time as int) == insert_pos(
                    check_views(out@).take(j as int),
                    c.request_time as int,
                ),
            decreases j,
        {
            proof {
                let v = check_views(out@);
                assert(v.take(j as int).drop_last() =~= v.take(j - 1));
                assert(v.take(j as int).last() == v[j - 1]);
            }
            j = j - 1;
        }
        proof {
            let v = check_views(out@);
            if j > 0 {
                assert(v.take(j as int).last() == v[j - 1]);
                assert(insert_pos(v.take(j as int), c.request_time as int) == j);
            } else {
                assert(v.take(0) =~= Seq::<crate::db::CheckView>::empty());
            }
            assert(insert_pos(v, c.request_time as int) == j);
        }
        let ghost pre = check_views(out@);
        out.insert(j, c);
        proof {
            assert(check_views(out@) =~= stable_insert(pre, c@));
            let upto = check_views(orig.take(done + 1));
            assert(upto.drop_last() =~= check_views(orig.take(done)));
            assert(upto.last() == c@);
            assert(check_views(out@) =~= stable_sort_by_time(upto));
        }
    }
    proof {
        assert(orig.take(orig.len() as int) =~= orig);
    }
    out
}

/// Rebuilds the whole compacted history from the legacy observation log:
/// sort by time (keeping per-website order), then replay the append rule
/// over every observation. Running it on an empty log yields an empty
/// history, so invoking the surrounding migration unconditionally on every
/// startup is safe.
pub fn migrate_checks(checks: Vec<Check>, interval_seconds: u64) -> (r: Vec<CheckSeries>)
    requires
        threshold_millis(interval_seconds) <= i64::MAX,
    ensures
        series_views(r@) == replay(stable_sort_by_time(check_views(checks@)), interval_seconds),
        checks@.len() == 0 ==> r@.len() == 0,
{
    let ghost sorted_views = stable_sort_by_time(check_views(checks@));
    let sorted = sort_checks_by_time(checks);
    let mut table: Vec<CheckSeries> = Vec::new();
    let mut latest_cache: Vec<(String, usize)> = Vec::new();
    let mut i: usize = 0;
    proof {
        assert(series_views(table@) =~= Seq::<crate::db::SeriesView>::empty());
        assert(replay(check_views(sorted@).take(0), interval_seconds) =~= Seq::<
            crate::db::SeriesView,
        >::empty());
    }
    while i < sorted.len()
        invariant
            0 <= i <= sorted@.len(),
            threshold_millis(interval_seconds) <= i64::MAX,
            check_views(sorted@) == sorted_views,
            series_views(table@) == replay(check_views(sorted@).take(i as int), interval_seconds),
            cache_wf(latest_cache@, series_views(table@)),
        decreases sorted@.len() - i,
    {
        let check = &sorted[i];
        let observation = CheckResult { time: check.request_time, state: check.result };
        insert_single_result_series_step(
            &mut table,
            &mut latest_cache,
            interval_seconds,
            check,
            observation,
        );
        proof {
            let v = check_views(sorted@);
            assert(v.take(i + 1).drop_last() =~= v.take(i as int));
            assert(v.take(i + 1).last() == v[i as int]);
        }
        i = i + 1;
    }
    proof {
        assert(check_views(sorted@).take(sorted@.len() as int) =~= check_views(sorted@));
    }
    table
}

/// One replay step: appends one legacy observation to the in-memory history.
fn insert_single_result_series_step(
    table: &mut Vec<CheckSeries>,
    latest_cache: &mut Vec<(String, usize)>,
    interval_seconds: u64,
    check: &Check,
    observation: CheckResult,
)
    requires
        threshold_millis(interval_seconds) <= i64::MAX,
        cache_wf(old(latest_cache)@, series_views(old(table)@)),
        observation.time == check.request_time,
        observation.state == check.result,
    ensures
        series_views(final(table)@) == step_spec(
            series_views(old(table)@),
            interval_seconds,
            check@.website,
            check@.time,
            check@.state,
        ),
        cache_wf(final(latest_cache)@, series_views(final(table)@)),
{
    crate::db::insert_single_result_series_in_memory(
        table,
        latest_cache,
        interval_seconds,
        check.website.as_str(),
        &observation,
    );
}

} // verus!
