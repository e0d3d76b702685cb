use vstd::prelude::*;
use crate::store::{is_latest, last_known, ObservationStore};

verus! {

/// How many slots a span of `span` seconds yields at spacing `g`: the span
/// divided by `g`, rounded up.
pub open spec fn slot_count(span: int, g: int) -> int {
    (span + g - 1) / g
}

/// The slots after `start`, at `start + g`, `start + 2g`, ..., one for each
/// step taken while the previous slot lies before `end`; each holds the value
/// of the last observation strictly before its timestamp.
pub open spec fn resampled<T>(m: Map<int, T>, start: int, end: int, g: int) -> Seq<Option<T>> {
    Seq::new(slot_count(end - start, g) as nat, |k: int| last_known(m, start + (k + 1) * g))
}

proof fn lemma_slot_count(span: int, g: int, n: int)
    requires
        g > 0,
        span >= 0,
        n >= 0,
        span <= n * g,
        n == 0 || (n - 1) * g < span,
    ensures
        slot_count(span, g) == n,
{
    if n == 0 {
        assert(span == 0);
        assert((g - 1) / g == 0) by (nonlinear_arith)
            requires
                g > 0,
        ;
    } else {
        assert(n * g <= span + g - 1 && span + g - 1 < (n + 1) * g) by (nonlinear_arith)
            requires
                g > 0,
                span <= n * g,
                (n - 1) * g < span,
        ;
        assert((span + g - 1) / g == n) by (nonlinear_arith)
            requires
                g > 0,
                n * g <= span + g - 1,
                span + g - 1 < (n + 1) * g,
        ;
    }
}

/// A slot whose timestamp is not after any observation has no value: a
/// missing lead-in is reported as `None`, not as a failure.
pub proof fn lemma_slot_before_first_observation_is_none<T>(m: Map<int, T>, start: int, end: int, g: int, k: int)
    requires
        g > 0,
        start <= end,
        0 <= k < slot_count(end - start, g),
        forall|j: int| #[trigger] m.dom().contains(j) ==> j >= start + (k + 1) * g,
    ensures
        resampled(m, start, end, g)[k] == None::<T>,
{
    let t = start + (k + 1) * g;
    assert forall|j: int| !is_latest(m, t, j) by {
        if is_latest(m, t, j) {
            assert(m.dom().contains(j));
        }
    }
}

/// Step-resamples the store over `[start, end)` at spacing `g`.
pub fn resample<T: Copy>(store: &ObservationStore<T>, start: i64, end: i64, g: i64) -> (r: Vec<Option<T>>)
    requires
        store.wf(),
        start <= end,
        g > 0,
    ensures
        r@ == resampled(store@, start as int, end as int, g as int),
{
    let mut out: Vec<Option<T>> = Vec::new();
    let mut i: i128 = start as i128;
    let ghost gi = g as int;
    proof {
        assert(0 * gi == 0);
    }
    while i < end as i128
        invariant
            store.wf(),
            g > 0,
            gi == g as int,
            start <= i <= end + gi,
            i == start + out@.len() * gi,
            out@.len() == 0 || i - gi < end,
            forall|k: int| 0 <= k < out@.len() ==> #[trigger] out@[k] == last_known(store@, start + (k + 1) * gi),
        decreases (end as int) + gi - (i as int),
    {
        proof {
            assert(start + (out@.len() + 1) * gi == i + gi) by (nonlinear_arith)
                requires
                    i == start + out@.len() * gi,
            ;
        }
        i = i + g as i128;
        let v = store.last_before(i);
        out.push(v);
    }
    proof {
        let n = out@.len() as int;
        assert(n == 0 || (n - 1) * gi < end - start) by (nonlinear_arith)
            requires
                i == start + n * gi,
                n == 0 || i - gi < end,
        ;
        lemma_slot_count(end - start, gi, out@.len() as int);
        assert(out@ =~= resampled(store@, start as int, end as int, gi));
    }
    out
}

} // verus!
