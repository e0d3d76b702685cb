use vstd::prelude::*;

verus! {

/// `k` is the greatest key of `m` that is less than `t`.
pub open spec fn is_latest<T>(m: Map<int, T>, t: int, k: int) -> bool {
    &&& m.dom().contains(k)
    &&& k < t
    &&& forall|j: int| #[trigger] m.dom().contains(j) && j < t ==> j <= k
}

/// The value of the latest observation strictly before `t`, if there is one.
pub open spec fn last_known<T>(m: Map<int, T>, t: int) -> Option<T> {
    if exists|k: int| is_latest(m, t, k) {
        Some(m[choose|k: int| is_latest(m, t, k)])
    } else {
        None
    }
}

/// Observations keyed by timestamp (seconds), kept sorted by timestamp.
pub struct ObservationStore<T> {
    obs: Vec<(i64, T)>,
    model: Ghost<Map<int, T>>,
}

impl<T> View for ObservationStore<T> {
    type V = Map<int, T>;

    closed spec fn view(&self) -> Map<int, T> {
        self.model@
    }
}

impl<T: Copy> ObservationStore<T> {
    /// Timestamps strictly increase along the vector, which holds exactly
    /// the entries of the model.
    pub closed spec fn wf(&self) -> bool {
        &&& forall|i: int, j: int|
            0 <= i < j < self.obs@.len() ==> (#[trigger] self.obs@[i]).0 < (#[trigger] self.obs@[j]).0
        &&& forall|i: int|
            0 <= i < self.obs@.len() ==> self.model@.contains_key((#[trigger] self.obs@[i]).0 as int)
                && self.model@[self.obs@[i].0 as int] == self.obs@[i].1
        &&& forall|k: int|
            #[trigger] self.model@.contains_key(k) ==> exists|i: int|
                0 <= i < self.obs@.len() && (#[trigger] self.obs@[i]).0 == k
    }

    /// An empty store.
    pub fn new() -> (r: Self)
        ensures
            r.wf(),
            r@ == Map::<int, T>::empty(),
    {
        ObservationStore { obs: Vec::new(), model: Ghost(Map::empty()) }
    }

    /// Records `value` at `ts`; a value already held there is replaced.
    pub fn insert(&mut self, ts: i64, value: T)
        requires
            old(self).wf(),
        ensures
            final(self).wf(),
            final(self)@ == old(self)@.insert(ts as int, value),
    {
        let n = self.obs.len();
        let mut p: usize = 0;
        while p < n && self.obs[p].0 < ts
            invariant
                n == self.obs@.len(),
                p <= n,
                forall|k: int| 0 <= k < p ==> (#[trigger] self.obs@[k]).0 < ts,
            decreases n - p,
        {
            p = p + 1;
        }
        let ghost old_obs = self.obs@;
        let ghost old_model = self.model@;
        if p < n && self.obs[p].0 == ts {
            self.obs.set(p, (ts, value));
            self.model = Ghost(old_model.insert(ts as int, value));
            proof {
                assert forall|k: int| #[trigger] self.model@.contains_key(k) implies exists|i: int|
                    0 <= i < self.obs@.len() && (#[trigger] self.obs@[i]).0 == k by {
                    if k != ts {
                        let i = choose|i: int| 0 <= i < old_obs.len() && (#[trigger] old_obs[i]).0 == k;
                        assert(self.obs@[i].0 == k);
                    } else {
                        assert(self.obs@[p as int].0 == k);
                    }
                }
                assert forall|i: int| 0 <= i < self.obs@.len() implies self.model@.contains_key((#[trigger] self.obs@[i]).0 as int)
                    && self.model@[self.obs@[i].0 as int] == self.obs@[i].1 by {
                    if i != p {
                        assert(old_obs[i].0 != ts);
                    }
                }
            }
        } else {
            self.obs.insert(p, (ts, value));
            self.model = Ghost(old_model.insert(ts as int, value));
            proof {
                assert(forall|k: int| 0 <= k < p ==> self.obs@[k] == old_obs[k]);
                assert(self.obs@[p as int] == (ts, value));
                assert(forall|k: int| p < k < self.obs@.len() ==> self.obs@[k] == old_obs[k - 1]);
                assert(p < n ==> ts < old_obs[p as int].0);
                assert forall|i: int, j: int| 0 <= i < j < self.obs@.len() implies
                    (#[trigger] self.obs@[i]).0 < (#[trigger] self.obs@[j]).0 by {
                    if j < p {
                    } else if j == p {
                    } else if i < p {
                        assert(old_obs[i].0 < old_obs[j - 1].0);
                    } else if i == p {
                        if j - 1 > p {
                            assert(old_obs[p as int].0 < old_obs[j - 1].0);
                        }
                    } else {
                        assert(old_obs[i - 1].0 < old_obs[j - 1].0);
                    }
                }
                assert forall|k: int| #[trigger] self.model@.contains_key(k) implies exists|i: int|
                    0 <= i < self.obs@.len() && (#[trigger] self.obs@[i]).0 == k by {
                    if k != ts {
                        let i = choose|i: int| 0 <= i < old_obs.len() && (#[trigger] old_obs[i]).0 == k;
                        if i < p {
                            assert(self.obs@[i].0 == k);
                        } else {
                            assert(self.obs@[i + 1].0 == k);
                        }
                    } else {
                        assert(self.obs@[p as int].0 == k);
                    }
                }
                assert forall|i: int| 0 <= i < self.obs@.len() implies self.model@.contains_key((#[trigger] self.obs@[i]).0 as int)
                    && self.model@[self.obs@[i].0 as int] == self.obs@[i].1 by {
                    if i < p {
                        assert(old_obs[i].0 != ts);
                    } else if i > p {
                        assert(old_obs[i - 1].0 != ts);
                        assert(old_model.contains_key(old_obs[i - 1].0 as int));
                    }
                }
            }
        }
    }

    /// The value recorded at exactly `ts`, if any.
    pub fn get(&self, ts: i64) -> (r: Option<T>)
        requires
            self.wf(),
        ensures
            r == (if self@.contains_key(ts as int) { Some(self@[ts as int]) } else { None::<T> }),
    {
        let n = self.obs.len();
        let mut i: usize = 0;
        while i < n
            invariant
                n == self.obs@.len(),
                i <= n,
                self.wf(),
                forall|k: int| 0 <= k < i ==> (#[trigger] self.obs@[k]).0 != ts,
            decreases n - i,
        {
            if self.obs[i].0 == ts {
                proof {
                    assert(self.model@.contains_key(self.obs@[i as int].0 as int));
                }
                return Some(self.obs[i].1);
            }
            i = i + 1;
        }
        proof {
            if self@.contains_key(ts as int) {
                let k = choose|k: int| 0 <= k < self.obs@.len() && (#[trigger] self.obs@[k]).0 == ts;
                assert(self.obs@[k].0 != ts);
            }
        }
        None
    }

    /// The value of the latest observation strictly before `t`, found by
    /// binary search. `t` may lie past the last representable second.
    pub fn last_before(&self, t: i128) -> (r: Option<T>)
        requires
            self.wf(),
        ensures
            r == last_known(self@, t as int),
    {
        let n = self.obs.len();
        let mut i: usize = 0;
        let mut hi: usize = n;
        while i < hi
            invariant
                self.wf(),
                n == self.obs@.len(),
                i <= hi <= n,
                forall|k: int| 0 <= k < i ==> (#[trigger] self.obs@[k]).0 < t,
                forall|k: int| hi <= k < n ==> (#[trigger] self.obs@[k]).0 >= t,
            decreases hi - i,
        {
            let mid = i + (hi - i) / 2;
            if (self.obs[mid].0 as i128) < t {
                proof {
                    assert forall|k: int| 0 <= k < mid + 1 implies (#[trigger] self.obs@[k]).0 < t by {
                        if k < mid {
                            assert(self.obs@[k].0 < self.obs@[mid as int].0);
                        }
                    }
                }
                i = mid + 1;
            } else {
                proof {
                    assert forall|k: int| mid <= k < n implies (#[trigger] self.obs@[k]).0 >= t by {
                        if k > mid {
                            assert(self.obs@[mid as int].0 < self.obs@[k].0);
                        }
                    }
                }
                hi = mid;
            }
        }
        proof {
            assert forall|j: int| #[trigger] self@.dom().contains(j) && j < t implies
                exists|k: int| 0 <= k < i && (#[trigger] self.obs@[k]).0 == j by {
                let k = choose|k: int| 0 <= k < self.obs@.len() && (#[trigger] self.obs@[k]).0 == j;
                assert(k < i);
            }
        }
        if i == 0 {
            proof {
                assert forall|k: int| !is_latest(self@, t as int, k) by {
                    if is_latest(self@, t as int, k) {
                        assert(self@.dom().contains(k) && k < t);
                    }
                }
            }
            None
        } else {
            let (k, v) = self.obs[i - 1];
            proof {
                assert(is_latest(self@, t as int, k as int)) by {
                    assert forall|j: int| #[trigger] self@.dom().contains(j) && j < t implies j <= k by {
                        let q = choose|q: int| 0 <= q < i && (#[trigger] self.obs@[q]).0 == j;
                        if q < i - 1 {
                            assert(self.obs@[q].0 < self.obs@[i - 1].0);
                        }
                    }
                }
                let c = choose|c: int| is_latest(self@, t as int, c);
                assert(c <= k && k <= c);
            }
            Some(v)
        }
    }
}

} // verus!
