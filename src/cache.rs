use vstd::prelude::*;
use crate::granularity::{granularity, granularity_spec};
use crate::intervals::{holds_point, holds_range, lemma_spans_canonical, span_holds, spans_wf, CoveredIntervals};
use crate::resample::{resample, resampled, slot_count};
use crate::store::{is_latest, ObservationStore};

verus! {

/// Why a query failed.
#[derive(Debug, Clone, Copy, PartialEq, Eq, Structural)]
pub enum QueryError {
    /// The range starts after it ends.
    InvalidRange,
    /// The provider could not be reached, or its answer could not be read.
    RemoteUnavailable,
    /// The provider answered, but its data does not cover the range.
    RangeUnavailable,
    /// The provider answered with no observations.
    EmptyPayload,
}

/// What a query needs next.
pub enum Step<T> {
    /// The query is answered, from what the cache holds.
    Done(Result<Vec<Option<T>>, QueryError>),
    /// These parts of the range have not been fetched: the provider's
    /// forecast is needed, to be handed to `complete_query`.
    Fetch(Vec<(i64, i64)>),
}

/// The series answered for `[start, end)` from the observations `m`, at
/// the spacing that the span calls for.
pub open spec fn answer<T>(m: Map<int, T>, start: int, end: int) -> Seq<Option<T>> {
    resampled(m, start, end, granularity_spec(end - start))
}

/// `m` after recording each observation of `obs` in turn: for a timestamp
/// that occurs more than once the last one wins.
pub open spec fn merged<T>(m: Map<int, T>, obs: Seq<(i64, T)>) -> Map<int, T>
    decreases obs.len(),
{
    if obs.len() == 0 {
        m
    } else {
        merged(m, obs.drop_last()).insert(obs.last().0 as int, obs.last().1)
    }
}

/// The earliest and the latest timestamp of a non-empty payload.
pub open spec fn fetched_span<T>(obs: Seq<(i64, T)>) -> (int, int)
    decreases obs.len(),
{
    if obs.len() <= 1 {
        (obs[0].0 as int, obs[0].0 as int)
    } else {
        let p = fetched_span(obs.drop_last());
        let t = obs.last().0 as int;
        (if t < p.0 { t } else { p.0 }, if t > p.1 { t } else { p.1 })
    }
}

/// Merging a payload leaves, at each of its timestamps, the value of the
/// last observation with that timestamp; the value held before is replaced.
pub proof fn lemma_merge_keeps_last_value<T>(m: Map<int, T>, obs: Seq<(i64, T)>, i: int)
    requires
        0 <= i < obs.len(),
        forall|j: int| i < j < obs.len() ==> (#[trigger] obs[j]).0 != obs[i].0,
    ensures
        merged(m, obs).contains_key(obs[i].0 as int),
        merged(m, obs)[obs[i].0 as int] == obs[i].1,
    decreases obs.len(),
{
    if i < obs.len() - 1 {
        let rest = obs.drop_last();
        assert forall|j: int| i < j < rest.len() implies (#[trigger] rest[j]).0 != rest[i].0 by {
            assert(rest[j] == obs[j]);
        }
        lemma_merge_keeps_last_value(m, rest, i);
        assert(obs.last() == obs[obs.len() - 1]);
    }
}

proof fn lemma_merged_payload_key<T>(m1: Map<int, T>, m2: Map<int, T>, obs: Seq<(i64, T)>, k: int)
    requires
        exists|i: int| 0 <= i < obs.len() && (#[trigger] obs[i]).0 == k,
    ensures
        merged(m1, obs).contains_key(k),
        merged(m2, obs).contains_key(k),
        merged(m1, obs)[k] == merged(m2, obs)[k],
    decreases obs.len(),
{
    let l = obs.last();
    if l.0 != k {
        let rest = obs.drop_last();
        let i = choose|i: int| 0 <= i < obs.len() && (#[trigger] obs[i]).0 == k;
        assert(rest[i].0 == k);
        lemma_merged_payload_key(m1, m2, rest, k);
    }
}

proof fn lemma_merged_other_key<T>(m: Map<int, T>, obs: Seq<(i64, T)>, k: int)
    requires
        forall|i: int| 0 <= i < obs.len() ==> (#[trigger] obs[i]).0 != k,
    ensures
        merged(m, obs).contains_key(k) == m.contains_key(k),
        m.contains_key(k) ==> merged(m, obs)[k] == m[k],
    decreases obs.len(),
{
    if obs.len() > 0 {
        let rest = obs.drop_last();
        assert forall|i: int| 0 <= i < rest.len() implies (#[trigger] rest[i]).0 != k by {
            assert(rest[i] == obs[i]);
        }
        lemma_merged_other_key(m, rest, k);
        assert(obs.last() == obs[obs.len() - 1]);
    }
}

/// Merging a payload a second time changes nothing: the observations are
/// those left by merging it once.
pub proof fn lemma_merge_idempotent<T>(m: Map<int, T>, obs: Seq<(i64, T)>)
    ensures
        merged(merged(m, obs), obs) == merged(m, obs),
{
    let once = merged(m, obs);
    let twice = merged(once, obs);
    assert forall|k: int| #[trigger] twice.contains_key(k) == once.contains_key(k)
        && (once.contains_key(k) ==> twice[k] == once[k]) by {
        if exists|i: int| 0 <= i < obs.len() && (#[trigger] obs[i]).0 == k {
            lemma_merged_payload_key(once, m, obs, k);
        } else {
            lemma_merged_other_key(once, obs, k);
        }
    }
    assert(twice =~= once);
}

/// Hourly resampling of observations three hours apart repeats each value
/// until the slot after the next observation: over `[t0, t0 + 25h)` there
/// are 25 slots, and slot `k` (at `t0 + (k + 1)h`) holds the observation at
/// `t0 + 3h * (k / 3)`, so the first three all hold the value at `t0`.
pub proof fn lemma_hourly_slots_hold_last_value<T>(m: Map<int, T>, t0: int)
    requires
        forall|q: int| 0 <= q <= 8 ==> #[trigger] m.contains_key(t0 + 10800 * q),
        forall|j: int| #[trigger] m.dom().contains(j) && t0 <= j < t0 + 90000 ==> (j - t0) % 10800 == 0,
    ensures
        answer(m, t0, t0 + 90000).len() == 25,
        forall|k: int| 0 <= k < 25 ==> #[trigger] answer(m, t0, t0 + 90000)[k] == Some(m[t0 + 10800 * (k / 3)]),
        answer(m, t0, t0 + 90000)[0] == Some(m[t0]),
        answer(m, t0, t0 + 90000)[1] == Some(m[t0]),
        answer(m, t0, t0 + 90000)[2] == Some(m[t0]),
{
    assert(granularity_spec(90000) == 3600);
    assert(slot_count(90000, 3600) == 25);
    assert forall|k: int| 0 <= k < 25 implies #[trigger] answer(m, t0, t0 + 90000)[k] == Some(m[t0 + 10800 * (k / 3)]) by {
        let t = t0 + (k + 1) * 3600;
        let q = k / 3;
        let c = t0 + 10800 * q;
        assert(0 <= q <= 8);
        assert(m.contains_key(c));
        assert(3 * q <= k);
        assert forall|j: int| #[trigger] m.dom().contains(j) && j < t implies j <= c by {
            if t0 <= j {
                let d = (j - t0) / 10800;
                assert(j - t0 == 10800 * d);
                assert(d <= q);
            }
        }
        assert(is_latest(m, t, c));
        let w = choose|w: int| #[trigger] is_latest(m, t, w);
        assert(w <= c && c <= w);
    }
    assert(0int / 3 == 0 && 1int / 3 == 0 && 2int / 3 == 0);
    assert(answer(m, t0, t0 + 90000)[0] == Some(m[t0 + 10800 * (0int / 3)]));
    assert(answer(m, t0, t0 + 90000)[1] == Some(m[t0 + 10800 * (1int / 3)]));
    assert(answer(m, t0, t0 + 90000)[2] == Some(m[t0 + 10800 * (2int / 3)]));
}

/// Forecast observations for one location, and the spans of time already
/// fetched from the provider.
pub struct RangeCache<T> {
    store: ObservationStore<T>,
    covered: CoveredIntervals,
}

/// Once a range has been fetched, no query inside it goes to the provider
/// again, however the ranges nest or repeat.
pub proof fn lemma_fetched_range_needs_no_fetch<T: Copy>(c: RangeCache<T>, start: int, end: int, s: int, e: int)
    requires
        holds_range(c.fetched(), start, end),
        start <= s,
        e <= end,
    ensures
        !c.needs_fetch(s, e),
{
    assert forall|x: int| s <= x < e implies #[trigger] holds_point(c.fetched(), x) by {
        assert(start <= x < end);
    }
}

/// Merging a fetched payload whose span was already fetched, as a
/// successful `complete_query` does, keeps the fetched spans as they were,
/// so no coverage entry is added or split; each of the payload's timestamps
/// holds the value of its last observation there, and every other
/// timestamp keeps its value.
pub proof fn lemma_refetch_is_idempotent<T: Copy>(c0: RangeCache<T>, c1: RangeCache<T>, obs: Seq<(i64, T)>)
    requires
        c0.wf(),
        c1.wf(),
        obs.len() > 0,
        holds_range(c0.fetched(), fetched_span(obs).0, fetched_span(obs).1),
        c1.observations() == merged(c0.observations(), obs),
        forall|x: int| #[trigger] holds_point(c1.fetched(), x) <==> (holds_point(c0.fetched(), x)
            || fetched_span(obs).0 <= x < fetched_span(obs).1),
    ensures
        c1.fetched() == c0.fetched(),
        forall|i: int| 0 <= i < obs.len() && (forall|j: int| i < j < obs.len() ==> (#[trigger] obs[j]).0 != obs[i].0)
            ==> c1.observations().contains_key(#[trigger] obs[i].0 as int) && c1.observations()[obs[i].0 as int] == obs[i].1,
        forall|k: int| (forall|i: int| 0 <= i < obs.len() ==> (#[trigger] obs[i]).0 != k) ==> (#[trigger] c1.observations().contains_key(k)
            == c0.observations().contains_key(k) && (c0.observations().contains_key(k) ==> c1.observations()[k] == c0.observations()[k])),
{
    assert forall|x: int| #[trigger] holds_point(c1.fetched(), x) == holds_point(c0.fetched(), x) by {
        if fetched_span(obs).0 <= x < fetched_span(obs).1 {
            assert(holds_point(c0.fetched(), x));
        }
    }
    lemma_spans_canonical(c1.fetched(), c0.fetched());
    assert forall|i: int| 0 <= i < obs.len() && (forall|j: int| i < j < obs.len() ==> (#[trigger] obs[j]).0 != obs[i].0)
        implies c1.observations().contains_key(#[trigger] obs[i].0 as int) && c1.observations()[obs[i].0 as int] == obs[i].1 by {
        lemma_merge_keeps_last_value(c0.observations(), obs, i);
    }
    assert forall|k: int| (forall|i: int| 0 <= i < obs.len() ==> (#[trigger] obs[i]).0 != k) implies (#[trigger] c1.observations().contains_key(k)
        == c0.observations().contains_key(k) && (c0.observations().contains_key(k) ==> c1.observations()[k] == c0.observations()[k])) by {
        lemma_merged_other_key(c0.observations(), obs, k);
    }
}

impl<T: Copy> RangeCache<T> {
    /// The observations held, by timestamp.
    pub closed spec fn observations(&self) -> Map<int, T> {
        self.store@
    }

    /// The fetched spans, sorted by start.
    pub closed spec fn fetched(&self) -> Seq<(i64, i64)> {
        self.covered@
    }

    /// The observation store keeps its own invariant.
    pub closed spec fn store_wf(&self) -> bool {
        self.store.wf()
    }

    /// The store is well formed and the fetched spans are minimal.
    pub open spec fn wf(&self) -> bool {
        self.store_wf() && spans_wf(self.fetched())
    }

    /// Whether a query of `[start, end)` has to go to the provider.
    pub open spec fn needs_fetch(&self, start: int, end: int) -> bool {
        start < end && !holds_range(self.fetched(), start, end)
    }

    /// An empty cache.
    pub fn new() -> (r: Self)
        ensures
            r.wf(),
            r.observations() == Map::<int, T>::empty(),
            r.fetched() == Seq::<(i64, i64)>::empty(),
    {
        RangeCache { store: ObservationStore::new(), covered: CoveredIntervals::new() }
    }

    /// Answers `[start, end)` from the cache, or says that the provider must
    /// be asked first.
    pub fn begin_query(&self, start: i64, end: i64) -> (r: Step<T>)
        requires
            self.wf(),
        ensures
            start > end ==> r matches Step::Done(Err(QueryError::InvalidRange)),
            (r is Fetch) <==> self.needs_fetch(start as int, end as int),
            r matches Step::Fetch(gaps) ==> {
                &&& forall|i: int| 0 <= i < gaps@.len() ==> (#[trigger] gaps@[i]).0 < gaps@[i].1
                &&& forall|i: int, j: int| 0 <= i < j < gaps@.len() ==> (#[trigger] gaps@[i]).1 < (#[trigger] gaps@[j]).0
                &&& forall|x: int| #[trigger] holds_point(gaps@, x)
                    <==> (start <= x < end && !holds_point(self.fetched(), x))
            },
            start <= end && !self.needs_fetch(start as int, end as int) ==> (r matches Step::Done(Ok(v))
                && v@ == answer(self.observations(), start as int, end as int)),
    {
        if start > end {
            return Step::Done(Err(QueryError::InvalidRange));
        }
        let gaps = self.covered.missing(start, end);
        if gaps.len() > 0 {
            proof {
                let x = gaps@[0].0 as int;
                assert(span_holds(gaps@[0], x));
                assert(holds_point(gaps@, x));
            }
            return Step::Fetch(gaps);
        }
        proof {
            assert forall|x: int| start <= x < end implies #[trigger] holds_point(self.fetched(), x) by {
                assert(!holds_point(gaps@, x));
            }
        }
        Step::Done(Ok(self.answer_from_store(start, end)))
    }

    fn answer_from_store(&self, start: i64, end: i64) -> (r: Vec<Option<T>>)
        requires
            self.wf(),
            start <= end,
        ensures
            r@ == answer(self.observations(), start as int, end as int),
    {
        let span: u64 = (end as i128 - start as i128) as u64;
        let g = granularity(span);
        resample(&self.store, start, end, g)
    }

    /// Finishes a query that needed the provider, given what the provider
    /// returned: its observations, or `Err` where the call failed. A failed
    /// or empty fetch leaves the cache as it was.
    pub fn complete_query(&mut self, start: i64, end: i64, fetched: Result<Vec<(i64, T)>, ()>) -> (r: Result<Vec<Option<T>>, QueryError>)
        requires
            old(self).wf(),
        ensures
            final(self).wf(),
            start > end ==> r == Err::<Vec<Option<T>>, QueryError>(QueryError::InvalidRange),
            start <= end && fetched is Err ==> r == Err::<Vec<Option<T>>, QueryError>(QueryError::RemoteUnavailable),
            start <= end && fetched is Ok && fetched->Ok_0@.len() == 0
                ==> r == Err::<Vec<Option<T>>, QueryError>(QueryError::EmptyPayload),
            !(start <= end && fetched is Ok && fetched->Ok_0@.len() > 0) ==> final(self).observations() == old(self).observations()
                && final(self).fetched() == old(self).fetched(),
            start <= end && fetched is Ok && fetched->Ok_0@.len() > 0 ==> {
                &&& final(self).observations() == merged(old(self).observations(), fetched->Ok_0@)
                &&& forall|x: int| #[trigger] holds_point(final(self).fetched(), x) <==> (holds_point(old(self).fetched(), x)
                    || fetched_span(fetched->Ok_0@).0 <= x < fetched_span(fetched->Ok_0@).1)
                &&& holds_range(old(self).fetched(), fetched_span(fetched->Ok_0@).0, fetched_span(fetched->Ok_0@).1)
                    ==> final(self).fetched() == old(self).fetched()
                &&& !final(self).needs_fetch(start as int, end as int) ==> (r matches Ok(v)
                    && v@ == answer(final(self).observations(), start as int, end as int))
                &&& final(self).needs_fetch(start as int, end as int)
                    ==> r == Err::<Vec<Option<T>>, QueryError>(QueryError::RangeUnavailable)
            },
    {
        if start > end {
            return Err(QueryError::InvalidRange);
        }
        let obs = match fetched {
            Err(_) => {
                return Err(QueryError::RemoteUnavailable);
            },
            Ok(obs) => obs,
        };
        let n = obs.len();
        if n == 0 {
            return Err(QueryError::EmptyPayload);
        }
        let ghost old_m = self.store@;
        let mut lo: i64 = obs[0].0;
        let mut hi: i64 = obs[0].0;
        let mut i: usize = 0;
        while i < n
            invariant
                n == obs@.len(),
                n > 0,
                i <= n,
                self.store.wf(),
                self.covered.wf(),
                self.covered@ == old(self).covered@,
                self.store@ == merged(old_m, obs@.subrange(0, i as int)),
                i == 0 ==> lo == obs@[0].0 && hi == obs@[0].0,
                i > 0 ==> (lo as int, hi as int) == fetched_span(obs@.subrange(0, i as int)),
            decreases n - i,
        {
            let (ts, v) = obs[i];
            self.store.insert(ts, v);
            if ts < lo {
                lo = ts;
            }
            if ts > hi {
                hi = ts;
            }
            proof {
                let pre = obs@.subrange(0, i + 1);
                assert(pre.drop_last() =~= obs@.subrange(0, i as int));
                assert(pre.last() == obs@[i as int]);
            }
            i = i + 1;
        }
        proof {
            assert(obs@.subrange(0, n as int) =~= obs@);
        }
        self.covered.insert(lo, hi);
        if !self.covered.covers(start, end) {
            return Err(QueryError::RangeUnavailable);
        }
        Ok(self.answer_from_store(start, end))
    }

    /// The fetched spans, sorted by start.
    pub fn fetched_spans(&self) -> (r: Vec<(i64, i64)>)
        requires
            self.wf(),
        ensures
            r@ == self.fetched(),
    {
        let n = self.covered.len();
        let mut out: Vec<(i64, i64)> = Vec::new();
        let mut i: usize = 0;
        while i < n
            invariant
                n == self.fetched().len(),
                i <= n,
                out@ == self.fetched().subrange(0, i as int),
            decreases n - i,
        {
            out.push(self.covered.span(i));
            proof {
                assert(out@ =~= self.fetched().subrange(0, i + 1));
            }
            i = i + 1;
        }
        proof {
            assert(out@ =~= self.fetched());
        }
        out
    }

    /// The observation recorded at exactly `ts`, if any.
    pub fn observation_at(&self, ts: i64) -> (r: Option<T>)
        requires
            self.wf(),
        ensures
            r == (if self.observations().contains_key(ts as int) {
                Some(self.observations()[ts as int])
            } else {
                None::<T>
            }),
    {
        self.store.get(ts)
    }
}

} // verus!
