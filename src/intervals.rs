use vstd::prelude::*;

verus! {

/// Whether the half-open span `sp` holds the point `x`.
pub open spec fn span_holds(sp: (i64, i64), x: int) -> bool {
    sp.0 <= x < sp.1
}

/// Whether some span of `s` holds the point `x`.
pub open spec fn holds_point(s: Seq<(i64, i64)>, x: int) -> bool {
    exists|i: int| 0 <= i < s.len() && #[trigger] span_holds(s[i], x)
}

/// Whether some span of `s` with index in `[lo, hi)` holds the point `x`.
pub open spec fn holds_in(s: Seq<(i64, i64)>, lo: int, hi: int, x: int) -> bool {
    exists|i: int| lo <= i < hi && #[trigger] span_holds(s[i], x)
}

/// Whether every point of `[a, b)` is held by some span of `s`.
pub open spec fn holds_range(s: Seq<(i64, i64)>, a: int, b: int) -> bool {
    forall|x: int| a <= x < b ==> #[trigger] holds_point(s, x)
}

/// Spans are non-empty, sorted by start, and separated by a gap: no two
/// of them overlap or touch.
pub open spec fn spans_wf(s: Seq<(i64, i64)>) -> bool {
    &&& forall|i: int| 0 <= i < s.len() ==> (#[trigger] s[i]).0 < s[i].1
    &&& forall|i: int, j: int| 0 <= i < j < s.len() ==> (#[trigger] s[i]).1 < (#[trigger] s[j]).0
}

proof fn lemma_first_span_bounds(s: Seq<(i64, i64)>, x: int)
    requires
        spans_wf(s),
        s.len() > 0,
    ensures
        x < s[0].0 ==> !holds_point(s, x),
        s[0].0 <= x < s[0].1 ==> holds_point(s, x),
        !holds_point(s, s[0].1 as int),
        holds_point(s, x) && x >= s[0].1 ==> holds_point(s.drop_first(), x),
        holds_point(s.drop_first(), x) ==> holds_point(s, x) && x > s[0].1,
{
    if s[0].0 <= x < s[0].1 {
        assert(span_holds(s[0], x));
    }
    if holds_point(s, x) {
        let k = choose|k: int| 0 <= k < s.len() && #[trigger] span_holds(s[k], x);
        if k > 0 {
            assert(s[0].1 < s[k].0);
            assert(span_holds(s.drop_first()[k - 1], x));
        }
    }
    if holds_point(s, s[0].1 as int) {
        let k = choose|k: int| 0 <= k < s.len() && #[trigger] span_holds(s[k], s[0].1 as int);
        if k > 0 {
            assert(s[0].1 < s[k].0);
        }
    }
    if holds_point(s.drop_first(), x) {
        let k = choose|k: int| 0 <= k < s.len() - 1 && #[trigger] span_holds(s.drop_first()[k], x);
        assert(s[0].1 < s[k + 1].0);
        assert(span_holds(s[k + 1], x));
    }
}

/// Two well-formed span lists that cover the same points are the same
/// list: the covered time has exactly one minimal representation, so
/// marking already covered time again cannot add or split entries.
pub proof fn lemma_spans_canonical(s1: Seq<(i64, i64)>, s2: Seq<(i64, i64)>)
    requires
        spans_wf(s1),
        spans_wf(s2),
        forall|x: int| #[trigger] holds_point(s1, x) == holds_point(s2, x),
    ensures
        s1 == s2,
    decreases s1.len(),
{
    if s1.len() == 0 || s2.len() == 0 {
        if s1.len() > 0 {
            lemma_first_span_bounds(s1, s1[0].0 as int);
            assert(!holds_point(s2, s1[0].0 as int));
        }
        if s2.len() > 0 {
            lemma_first_span_bounds(s2, s2[0].0 as int);
            assert(!holds_point(s1, s2[0].0 as int));
        }
        assert(s1 =~= s2);
    } else {
        let a1 = s1[0].0 as int;
        let a2 = s2[0].0 as int;
        let b1 = s1[0].1 as int;
        let b2 = s2[0].1 as int;
        lemma_first_span_bounds(s1, a2);
        lemma_first_span_bounds(s2, a1);
        lemma_first_span_bounds(s1, a1);
        lemma_first_span_bounds(s2, a2);
        assert(a1 == a2);
        lemma_first_span_bounds(s1, b2);
        lemma_first_span_bounds(s2, b1);
        assert(b1 == b2);
        let t1 = s1.drop_first();
        let t2 = s2.drop_first();
        assert forall|x: int| #[trigger] holds_point(t1, x) == holds_point(t2, x) by {
            lemma_first_span_bounds(s1, x);
            lemma_first_span_bounds(s2, x);
        }
        assert(spans_wf(t1)) by {
            assert forall|i: int, j: int| 0 <= i < j < t1.len() implies (#[trigger] t1[i]).1 < (#[trigger] t1[j]).0 by {
                assert(s1[i + 1].1 < s1[j + 1].0);
            }
        }
        assert(spans_wf(t2)) by {
            assert forall|i: int, j: int| 0 <= i < j < t2.len() implies (#[trigger] t2[i]).1 < (#[trigger] t2[j]).0 by {
                assert(s2[i + 1].1 < s2[j + 1].0);
            }
        }
        lemma_spans_canonical(t1, t2);
        assert(s1[0] == s2[0]);
        assert(s1 =~= s2) by {
            assert forall|i: int| 0 <= i < s1.len() implies s1[i] == s2[i] by {
                if i > 0 {
                    assert(s1[i] == t1[i - 1]);
                    assert(s2[i] == t2[i - 1]);
                }
            }
        }
    }
}

/// The time already fetched from the provider, as a minimal sorted list of
/// disjoint, non-adjacent half-open spans.
pub struct CoveredIntervals {
    spans: Vec<(i64, i64)>,
}

impl View for CoveredIntervals {
    type V = Seq<(i64, i64)>;

    closed spec fn view(&self) -> Seq<(i64, i64)> {
        self.spans@
    }
}

impl CoveredIntervals {
    /// The spans are minimal: see `spans_wf`.
    pub open spec fn wf(&self) -> bool {
        spans_wf(self@)
    }

    /// An empty set: nothing fetched yet.
    pub fn new() -> (r: Self)
        ensures
            r.wf(),
            r@ == Seq::<(i64, i64)>::empty(),
    {
        CoveredIntervals { spans: Vec::new() }
    }

    /// Number of stored spans.
    pub fn len(&self) -> (r: usize)
        ensures
            r == self@.len(),
    {
        self.spans.len()
    }

    /// The `i`-th span, in order of start.
    pub fn span(&self, i: usize) -> (r: (i64, i64))
        requires
            i < self@.len(),
        ensures
            r == self@[i as int],
    {
        self.spans[i]
    }

    /// Whether the whole of `[a, b)` has been fetched.
    pub fn covers(&self, a: i64, b: i64) -> (r: bool)
        requires
            self.wf(),
        ensures
            r == holds_range(self@, a as int, b as int),
    {
        if a >= b {
            return true;
        }
        let n = self.spans.len();
        let mut i: usize = 0;
        while i < n
            invariant
                n == self@.len(),
                i <= n,
                a < b,
                forall|k: int| 0 <= k < i ==> !(self@[k].0 <= a && b <= self@[k].1),
            decreases n - i,
        {
            let (lo, hi) = self.spans[i];
            if lo <= a && b <= hi {
                assert forall|x: int| a <= x < b implies #[trigger] holds_point(self@, x) by {
                    assert(span_holds(self@[i as int], x));
                }
                return true;
            }
            i = i + 1;
        }
        proof {
            if holds_point(self@, a as int) {
                let k = choose|k: int| 0 <= k < self@.len() && span_holds(self@[k], a as int);
                let e = self@[k].1 as int;
                assert(e < b);
                if holds_point(self@, e) {
                    let j = choose|j: int| 0 <= j < self@.len() && span_holds(self@[j], e);
                    if j < k {
                        assert(self@[j].1 < self@[k].0);
                    } else if j > k {
                        assert(self@[k].1 < self@[j].0);
                    }
                }
                assert(!holds_point(self@, e));
            }
        }
        false
    }

    /// The parts of `[a, b)` not yet fetched, as sorted, disjoint,
    /// non-empty spans.
    pub fn missing(&self, a: i64, b: i64) -> (r: Vec<(i64, i64)>)
        requires
            self.wf(),
        ensures
            forall|i: int| 0 <= i < r@.len() ==> (#[trigger] r@[i]).0 < r@[i].1,
            forall|i: int, j: int| 0 <= i < j < r@.len() ==> (#[trigger] r@[i]).1 < (#[trigger] r@[j]).0,
            forall|x: int| #[trigger] holds_point(r@, x) <==> (a <= x < b && !holds_point(self@, x)),
    {
        let mut out: Vec<(i64, i64)> = Vec::new();
        if a >= b {
            return out;
        }
        let n = self.spans.len();
        let mut c: i64 = a;
        let mut i: usize = 0;
        while i < n && c < b && self.spans[i].0 < b
            invariant
                n == self@.len(),
                i <= n,
                self.wf(),
                a <= c,
                a < b,
                forall|k: int| 0 <= k < out@.len() ==> (#[trigger] out@[k]).0 < out@[k].1,
                forall|k: int, j: int| 0 <= k < j < out@.len() ==> (#[trigger] out@[k]).1 < (#[trigger] out@[j]).0,
                forall|k: int| 0 <= k < out@.len() ==> (#[trigger] out@[k]).1 < c,
                forall|k: int| 0 <= k < out@.len() ==> (#[trigger] out@[k]).0 >= a,
                forall|k: int| 0 <= k < i ==> (#[trigger] self@[k]).1 <= c,
                forall|x: int| x >= c ==> !#[trigger] holds_point(out@, x),
                forall|x: int| a <= x < c ==> (#[trigger] holds_point(out@, x) <==> (x < b && !holds_point(self@, x))),
            decreases n - i,
        {
            let (s0, s1) = self.spans[i];
            let ghost old_out = out@;
            let ghost old_c = c;
            if s1 > c {
                if s0 > c {
                    out.push((c, s0));
                }
                c = s1;
            }
            proof {
                assert forall|x: int| x >= c implies !#[trigger] holds_point(out@, x) by {
                    if holds_point(out@, x) {
                        let k = choose|k: int| 0 <= k < out@.len() && #[trigger] span_holds(out@[k], x);
                        if k < old_out.len() {
                            assert(holds_point(old_out, x));
                        }
                    }
                }
                assert forall|x: int| a <= x < c implies (#[trigger] holds_point(out@, x) <==> (x < b && !holds_point(self@, x))) by {
                    if x < old_c {
                        assert(holds_point(out@, x) == holds_point(old_out, x)) by {
                            if holds_point(out@, x) {
                                let k = choose|k: int| 0 <= k < out@.len() && #[trigger] span_holds(out@[k], x);
                                if k < old_out.len() {
                                    assert(span_holds(old_out[k], x));
                                }
                            }
                            if holds_point(old_out, x) {
                                let k = choose|k: int| 0 <= k < old_out.len() && #[trigger] span_holds(old_out[k], x);
                                assert(span_holds(out@[k], x));
                            }
                        }
                    } else if x < s0 {
                        assert(span_holds(out@[out@.len() - 1], x));
                        assert(!holds_point(self@, x)) by {
                            if holds_point(self@, x) {
                                let k = choose|k: int| 0 <= k < self@.len() && #[trigger] span_holds(self@[k], x);
                                if k < i {
                                    assert(self@[k].1 <= old_c);
                                } else if k > i {
                                    assert(self@[i as int].1 < self@[k].0);
                                }
                            }
                        }
                    } else {
                        assert(span_holds(self@[i as int], x));
                        if holds_point(out@, x) {
                            let k = choose|k: int| 0 <= k < out@.len() && #[trigger] span_holds(out@[k], x);
                            if k < old_out.len() {
                                assert(holds_point(old_out, x));
                            }
                        }
                    }
                }
                assert forall|k: int| 0 <= k < i + 1 implies (#[trigger] self@[k]).1 <= c by {
                    if k < i {
                        assert(self@[k].1 < self@[i as int].0);
                    }
                }
            }
            i = i + 1;
        }
        let ghost before_tail = out@;
        if c < b {
            out.push((c, b));
        }
        proof {
            assert forall|x: int| #[trigger] holds_point(out@, x) <==> (a <= x < b && !holds_point(self@, x)) by {
                if x < c {
                    if x < a {
                        if holds_point(out@, x) {
                            let k = choose|k: int| 0 <= k < out@.len() && #[trigger] span_holds(out@[k], x);
                            if k < before_tail.len() {
                                assert(before_tail[k].0 >= a);
                            }
                        }
                    } else {
                        assert(holds_point(out@, x) == holds_point(before_tail, x)) by {
                            if holds_point(out@, x) {
                                let k = choose|k: int| 0 <= k < out@.len() && #[trigger] span_holds(out@[k], x);
                                if k < before_tail.len() {
                                    assert(span_holds(before_tail[k], x));
                                }
                            }
                            if holds_point(before_tail, x) {
                                let k = choose|k: int| 0 <= k < before_tail.len() && #[trigger] span_holds(before_tail[k], x);
                                assert(span_holds(out@[k], x));
                            }
                        }
                    }
                } else {
                    if holds_point(out@, x) {
                        let k = choose|k: int| 0 <= k < out@.len() && #[trigger] span_holds(out@[k], x);
                        if k < before_tail.len() {
                            assert(holds_point(before_tail, x));
                        }
                    }
                    if a <= x < b {
                        assert(c < b);
                        assert(span_holds(out@[out@.len() - 1], x));
                        assert(!holds_point(self@, x)) by {
                            if holds_point(self@, x) {
                                let k = choose|k: int| 0 <= k < self@.len() && #[trigger] span_holds(self@[k], x);
                                if k < i {
                                    assert(self@[k].1 <= c);
                                } else {
                                    assert(i < n);
                                    assert(self@[i as int].0 >= b);
                                    if k > i {
                                        assert(self@[i as int].1 < self@[k].0);
                                    }
                                }
                            }
                        }
                    }
                }
            }
        }
        out
    }

    /// Marks `[a, b)` as fetched, merging it with every span that it
    /// overlaps or touches, so that the spans stay minimal.
    pub fn insert(&mut self, a: i64, b: i64)
        requires
            old(self).wf(),
        ensures
            final(self).wf(),
            forall|x: int| #[trigger] holds_point(final(self)@, x) <==> (holds_point(old(self)@, x) || a <= x < b),
            holds_range(old(self)@, a as int, b as int) ==> final(self)@ == old(self)@,
    {
        if self.covers(a, b) {
            proof {
                assert forall|x: int| #[trigger] holds_point(self@, x) <==> (holds_point(self@, x) || a <= x < b) by {
                    if a <= x < b {
                        assert(holds_point(self@, x));
                    }
                }
            }
            return;
        }
        let n = self.spans.len();
        let mut out: Vec<(i64, i64)> = Vec::new();
        let mut i: usize = 0;
        while i < n && self.spans[i].1 < a
            invariant
                n == self@.len(),
                i <= n,
                self.wf(),
                out@ == self@.subrange(0, i as int),
                forall|k: int| 0 <= k < i ==> (#[trigger] self@[k]).1 < a,
            decreases n - i,
        {
            out.push(self.spans[i]);
            i = i + 1;
        }
        let i0 = i;
        let mut lo = a;
        let mut hi = b;
        while i < n && self.spans[i].0 <= hi
            invariant
                n == self@.len(),
                i0 <= i <= n,
                self.wf(),
                a < b,
                out@ == self@.subrange(0, i0 as int),
                forall|k: int| 0 <= k < i0 ==> (#[trigger] self@[k]).1 < a,
                i0 < n ==> self@[i0 as int].1 >= a,
                lo <= a,
                b <= hi,
                i == i0 ==> lo == a,
                i > i0 ==> lo <= self@[i0 as int].0,
                lo == a || (i > i0 && lo == self@[i0 as int].0),
                forall|x: int| lo <= x < hi <==> (a <= x < b || #[trigger] holds_in(self@, i0 as int, i as int, x)),
            decreases n - i,
        {
            let (s0, s1) = self.spans[i];
            proof {
                if i > i0 {
                    assert(self@[i0 as int].1 < self@[i as int].0);
                }
                assert forall|x: int| #[trigger] holds_in(self@, i0 as int, i + 1, x)
                    <==> (holds_in(self@, i0 as int, i as int, x) || span_holds(self@[i as int], x)) by {
                    if holds_in(self@, i0 as int, i + 1, x) {
                        let k = choose|k: int| i0 <= k < i + 1 && #[trigger] span_holds(self@[k], x);
                        if k < i {
                            assert(holds_in(self@, i0 as int, i as int, x));
                        }
                    }
                    if holds_in(self@, i0 as int, i as int, x) {
                        let k = choose|k: int| i0 <= k < i && #[trigger] span_holds(self@[k], x);
                        assert(span_holds(self@[k], x));
                    }
                }
            }
            if s0 < lo {
                lo = s0;
            }
            if s1 > hi {
                hi = s1;
            }
            i = i + 1;
        }
        let i1 = i;
        let ghost merged = (lo, hi);
        out.push((lo, hi));
        while i < n
            invariant
                n == self@.len(),
                i0 <= i1 <= i <= n,
                self.wf(),
                a < b,
                merged == (lo, hi),
                lo <= a,
                b <= hi,
                forall|k: int| 0 <= k < i0 ==> (#[trigger] self@[k]).1 < a,
                lo == a || (i1 > i0 && lo == self@[i0 as int].0),
                i1 < n ==> hi < self@[i1 as int].0,
                forall|x: int| lo <= x < hi <==> (a <= x < b || #[trigger] holds_in(self@, i0 as int, i1 as int, x)),
                out@ == self@.subrange(0, i0 as int).push(merged) + self@.subrange(i1 as int, i as int),
            decreases n - i,
        {
            out.push(self.spans[i]);
            proof {
                assert(out@ == self@.subrange(0, i0 as int).push(merged) + self@.subrange(i1 as int, i + 1));
            }
            i = i + 1;
        }
        proof {
            let old_s = self@;
            let new_s = out@;
            assert(new_s.len() == i0 + 1 + (n - i1));
            assert(forall|k: int| 0 <= k < i0 ==> new_s[k] == old_s[k]);
            assert(new_s[i0 as int] == merged);
            assert(forall|k: int| i0 < k < new_s.len() ==> new_s[k] == old_s[k - i0 - 1 + i1]);
            assert forall|k: int| 0 <= k < i0 implies (#[trigger] old_s[k]).1 < lo by {
                if lo != a {
                    assert(old_s[k].1 < old_s[i0 as int].0);
                }
            }
            assert(i1 < n ==> hi < old_s[i1 as int].0);
            assert forall|p: int, q: int| 0 <= p < q < new_s.len() implies (#[trigger] new_s[p]).1 < (#[trigger] new_s[q]).0 by {
                if q < i0 {
                } else if q == i0 {
                } else if p < i0 {
                    assert(old_s[p].1 < old_s[q - i0 - 1 + i1].0);
                } else if p == i0 {
                    if q - i0 - 1 + i1 > i1 {
                        assert(old_s[i1 as int].1 < old_s[q - i0 - 1 + i1].0);
                    }
                } else {
                    assert(old_s[p - i0 - 1 + i1].1 < old_s[q - i0 - 1 + i1].0);
                }
            }
            assert forall|k: int| 0 <= k < new_s.len() implies (#[trigger] new_s[k]).0 < new_s[k].1 by {
                if k > i0 {
                    assert(old_s[k - i0 - 1 + i1].0 < old_s[k - i0 - 1 + i1].1);
                } else if k < i0 {
                    assert(old_s[k].0 < old_s[k].1);
                }
            }
            assert forall|x: int| #[trigger] holds_point(new_s, x) <==> (holds_point(old_s, x) || a <= x < b) by {
                if holds_point(new_s, x) {
                    let k = choose|k: int| 0 <= k < new_s.len() && #[trigger] span_holds(new_s[k], x);
                    if k < i0 {
                        assert(span_holds(old_s[k], x));
                    } else if k == i0 {
                        if !(a <= x < b) {
                            assert(lo <= x < hi);
                            assert(holds_in(old_s, i0 as int, i1 as int, x));
                            let j = choose|j: int| i0 <= j < i1 && #[trigger] span_holds(old_s[j], x);
                            assert(span_holds(old_s[j], x));
                        }
                    } else {
                        assert(span_holds(old_s[k - i0 - 1 + i1], x));
                    }
                }
                if holds_point(old_s, x) {
                    let k = choose|k: int| 0 <= k < old_s.len() && #[trigger] span_holds(old_s[k], x);
                    if k < i0 {
                        assert(span_holds(new_s[k], x));
                    } else if k < i1 {
                        assert(holds_in(old_s, i0 as int, i1 as int, x));
                        assert(span_holds(new_s[i0 as int], x));
                    } else {
                        assert(span_holds(new_s[k + i0 + 1 - i1], x));
                    }
                }
                if a <= x < b {
                    assert(span_holds(new_s[i0 as int], x));
                }
            }
        }
        self.spans = out;
    }
}

} // verus!
