//! The per-endpoint statistics store: each record folds into its endpoint's
//! growing latency sequence, plus the observation instant of each error
//! response; queries sort the latencies and report the floor-indexed P50,
//! P95 and P99 ranks with the request and error counts.

use vstd::prelude::*;
use vstd::arithmetic::div_mod::{lemma_div_is_ordered, lemma_multiply_divide_lt};
use vstd::arithmetic::mul::lemma_mul_inequality;
use crate::record::{Record, RecordView};

verus! {

/// What one endpoint accumulates: latencies in micro-units (thousandths of a
/// millisecond), and the observation instants (epoch milliseconds) of error
/// responses. Both only ever grow.
pub struct EndpointStats {
    pub latencies: Vec<u64>,
    pub errors: Vec<i64>,
}

/// The mathematical shape of one endpoint's statistics.
pub ghost struct StatsView {
    pub latencies: Seq<u64>,
    pub errors: Seq<i64>,
}

impl View for EndpointStats {
    type V = StatsView;

    open spec fn view(&self) -> StatsView {
        StatsView { latencies: self.latencies@, errors: self.errors@ }
    }
}

pub open spec fn empty_stats() -> StatsView {
    StatsView { latencies: Seq::empty(), errors: Seq::empty() }
}

/// One endpoint's entry: the (method, path) key and its statistics.
pub struct StatsEntry {
    pub method: Vec<u8>,
    pub path: Vec<u8>,
    pub stats: EndpointStats,
}

/// The statistics store, keyed by (method, path).
pub struct Analyzer {
    pub entries: Vec<StatsEntry>,
}

/// A response that counts as an error.
pub open spec fn is_error_status(status: int) -> bool {
    status >= 400
}

/// How one record folds into its endpoint's statistics when observed at
/// instant `t` (epoch milliseconds): the latency is appended, and for an
/// error status the observation instant — not the record's own timestamp —
/// is appended to the error sequence.
pub open spec fn spec_process(st: StatsView, r: RecordView, t: int) -> StatsView {
    StatsView {
        latencies: st.latencies.push(r.duration_micros as u64),
        errors: if is_error_status(r.status) {
            st.errors.push(t as i64)
        } else {
            st.errors
        },
    }
}

impl Analyzer {
    /// No (method, path) key occurs twice.
    pub open spec fn wf(self) -> bool {
        forall|i: int, j: int|
            0 <= i < j < self.entries@.len() ==> !(self.entries@[i].method@
                == self.entries@[j].method@ && self.entries@[i].path@ == self.entries@[j].path@)
    }

    pub open spec fn has_key(self, m: Seq<u8>, p: Seq<u8>) -> bool {
        exists|i: int|
            0 <= i < self.entries@.len() && self.entries@[i].method@ == m
                && self.entries@[i].path@ == p
    }

    /// The statistics of a key; a key never seen has empty statistics.
    pub open spec fn stats_for(self, m: Seq<u8>, p: Seq<u8>) -> StatsView {
        if self.has_key(m, p) {
            let i = choose|i: int|
                0 <= i < self.entries@.len() && self.entries@[i].method@ == m
                    && self.entries@[i].path@ == p;
            self.entries@[i].stats@
        } else {
            empty_stats()
        }
    }

    /// A fresh store: it knows no endpoint key, so every key's statistics
    /// read empty and a query right after reports zero rows.
    pub fn new() -> (r: Analyzer)
        ensures
            r.wf(),
            r.entries@.len() == 0,
            forall|m: Seq<u8>, p: Seq<u8>| !r.has_key(m, p),
            forall|m: Seq<u8>, p: Seq<u8>| r.stats_for(m, p) == empty_stats(),
    {
        let r = Analyzer { entries: Vec::new() };
        assert(forall|m: Seq<u8>, p: Seq<u8>| !r.has_key(m, p));
        r
    }

    proof fn lemma_lookup(self, m: Seq<u8>, p: Seq<u8>, i: int)
        requires
            self.wf(),
            0 <= i < self.entries@.len(),
            self.entries@[i].method@ == m,
            self.entries@[i].path@ == p,
        ensures
            self.stats_for(m, p) == self.entries@[i].stats@,
    {
        assert(self.has_key(m, p));
        let k = choose|k: int|
            0 <= k < self.entries@.len() && self.entries@[k].method@ == m
                && self.entries@[k].path@ == p;
        assert(k == i);
    }

    /// Two well-formed stores whose entries for a key correspond look the
    /// same at that key.
    proof fn lemma_other_unchanged(self, other: Analyzer, m: Seq<u8>, p: Seq<u8>)
        requires
            self.wf(),
            other.wf(),
            forall|j: int|
                0 <= j < self.entries@.len() && self.entries@[j].method@ == m
                    && self.entries@[j].path@ == p ==> exists|k: int|
                    0 <= k < other.entries@.len() && other.entries@[k] == self.entries@[j],
            forall|j: int|
                0 <= j < other.entries@.len() && other.entries@[j].method@ == m
                    && other.entries@[j].path@ == p ==> exists|k: int|
                    0 <= k < self.entries@.len() && self.entries@[k] == other.entries@[j],
        ensures
            self.stats_for(m, p) == other.stats_for(m, p),
    {
        if self.has_key(m, p) {
            let i = choose|i: int|
                0 <= i < self.entries@.len() && self.entries@[i].method@ == m
                    && self.entries@[i].path@ == p;
            let k = choose|k: int|
                0 <= k < other.entries@.len() && other.entries@[k] == self.entries@[i];
            other.lemma_lookup(m, p, k);
            self.lemma_lookup(m, p, i);
        } else if other.has_key(m, p) {
            let i = choose|i: int|
                0 <= i < other.entries@.len() && other.entries@[i].method@ == m
                    && other.entries@[i].path@ == p;
            let k = choose|k: int|
                0 <= k < self.entries@.len() && self.entries@[k] == other.entries@[i];
            assert(self.has_key(m, p));
        }
    }

    fn find(&self, method: &[u8], path: &[u8]) -> (r: Option<usize>)
        requires
            self.wf(),
        ensures
            match r {
                Some(i) => 0 <= i < self.entries@.len() && self.entries@[i as int].method@
                    == method@ && self.entries@[i as int].path@ == path@ && self.stats_for(
                    method@,
                    path@,
                ) == self.entries@[i as int].stats@,
                None => !self.has_key(method@, path@),
            },
    {
        let mut i: usize = 0;
        while i < self.entries.len()
            invariant
                self.wf(),
                0 <= i <= self.entries@.len(),
                forall|j: int|
                    0 <= j < i ==> !(self.entries@[j].method@ == method@ && self.entries@[j].path@
                        == path@),
            decreases self.entries@.len() - i,
        {
            if crate::text::bytes_eq(self.entries[i].method.as_slice(), method)
                && crate::text::bytes_eq(self.entries[i].path.as_slice(), path) {
                proof {
                    self.lemma_lookup(method@, path@, i as int);
                }
                return Some(i);
            }
            i = i + 1;
        }
        assert(!self.has_key(method@, path@));
        None
    }

    /// Fold one record into the store, observed at `observed_millis`:
    /// exactly its own key's statistics change, per `spec_process`.
    pub fn process_log_at(&mut self, rec: &Record, observed_millis: i64)
        requires
            old(self).wf(),
        ensures
            final(self).wf(),
            final(self).stats_for(rec.method@, rec.path@) == spec_process(
                old(self).stats_for(rec.method@, rec.path@),
                rec@,
                observed_millis as int,
            ),
            forall|m: Seq<u8>, p: Seq<u8>|
                !(m == rec.method@ && p == rec.path@) ==> final(self).stats_for(m, p) == old(
                    self,
                ).stats_for(m, p),
            forall|m: Seq<u8>, p: Seq<u8>|
                #![trigger final(self).has_key(m, p)]
                final(self).has_key(m, p) <==> (old(self).has_key(m, p) || (m == rec.method@ && p
                    == rec.path@)),
    {
        match self.find(rec.method.as_slice(), rec.path.as_slice()) {
            Some(i) => {
                let mut entry = self.entries.remove(i);
                entry.stats.latencies.push(rec.duration_micros);
                if rec.status >= 400 {
                    entry.stats.errors.push(observed_millis);
                }
                self.entries.insert(i, entry);
                proof {
                    assert(self.entries@ =~= old(self).entries@.update(i as int, entry));
                    assert(self.wf());
                    self.lemma_lookup(rec.method@, rec.path@, i as int);
                    assert forall|m: Seq<u8>, p: Seq<u8>| !(m == rec.method@ && p
                        == rec.path@) implies self.stats_for(m, p) == old(self).stats_for(m, p) by {
                        assert forall|j: int|
                            0 <= j < old(self).entries@.len() && old(self).entries@[j].method@ == m
                                && old(self).entries@[j].path@ == p implies exists|k: int|
                            0 <= k < self.entries@.len() && self.entries@[k] == old(
                            self,
                        ).entries@[j] by {
                            assert(j != i as int);
                            assert(self.entries@[j] == old(self).entries@[j]);
                        }
                        assert forall|j: int|
                            0 <= j < self.entries@.len() && self.entries@[j].method@ == m
                                && self.entries@[j].path@ == p implies exists|k: int|
                            0 <= k < old(self).entries@.len() && old(self).entries@[k]
                                == self.entries@[j] by {
                            assert(j != i as int);
                            assert(old(self).entries@[j] == self.entries@[j]);
                        }
                        old(self).lemma_other_unchanged(*self, m, p);
                    }
                    assert forall|m: Seq<u8>, p: Seq<u8>| #![trigger self.has_key(m, p)]
                        self.has_key(m, p) <==> (old(self).has_key(m, p) || (m == rec.method@ && p
                        == rec.path@)) by {
                        if self.has_key(m, p) {
                            let j = choose|j: int|
                                0 <= j < self.entries@.len() && self.entries@[j].method@ == m
                                    && self.entries@[j].path@ == p;
                            if j != i as int {
                                assert(old(self).entries@[j] == self.entries@[j]);
                                assert(old(self).has_key(m, p));
                            }
                        }
                        if old(self).has_key(m, p) {
                            let j = choose|j: int|
                                0 <= j < old(self).entries@.len() && old(self).entries@[j].method@
                                    == m && old(self).entries@[j].path@ == p;
                            if j != i as int {
                                assert(self.entries@[j] == old(self).entries@[j]);
                            }
                            assert(self.entries@[j].method@ == m && self.entries@[j].path@ == p);
                        }
                        if m == rec.method@ && p == rec.path@ {
                            assert(self.entries@[i as int].method@ == m && self.entries@[
                            i as int].path@ == p);
                        }
                    }
                }
            },
            None => {
                let mut latencies: Vec<u64> = Vec::new();
                latencies.push(rec.duration_micros);
                let mut errors: Vec<i64> = Vec::new();
                if rec.status >= 400 {
                    errors.push(observed_millis);
                }
                let entry = StatsEntry {
                    method: vstd::slice::slice_to_vec(rec.method.as_slice()),
                    path: vstd::slice::slice_to_vec(rec.path.as_slice()),
                    stats: EndpointStats { latencies, errors },
                };
                self.entries.push(entry);
                proof {
                    let n = old(self).entries@.len() as int;
                    assert(self.entries@[n].method@ == rec.method@);
                    assert(self.entries@[n].path@ == rec.path@);
                    assert(self.wf());
                    self.lemma_lookup(rec.method@, rec.path@, n);
                    assert(old(self).stats_for(rec.method@, rec.path@) == empty_stats());
                    assert(self.entries@[n].stats@.latencies =~= empty_stats().latencies.push(
                        rec.duration_micros,
                    ));
                    if !is_error_status(rec.status as int) {
                        assert(self.entries@[n].stats@.errors =~= empty_stats().errors);
                    }
                    assert forall|m: Seq<u8>, p: Seq<u8>| !(m == rec.method@ && p
                        == rec.path@) implies self.stats_for(m, p) == old(self).stats_for(m, p) by {
                        assert forall|j: int|
                            0 <= j < old(self).entries@.len() && old(self).entries@[j].method@ == m
                                && old(self).entries@[j].path@ == p implies exists|k: int|
                            0 <= k < self.entries@.len() && self.entries@[k] == old(
                            self,
                        ).entries@[j] by {
                            assert(self.entries@[j] == old(self).entries@[j]);
                        }
                        assert forall|j: int|
                            0 <= j < self.entries@.len() && self.entries@[j].method@ == m
                                && self.entries@[j].path@ == p implies exists|k: int|
                            0 <= k < old(self).entries@.len() && old(self).entries@[k]
                                == self.entries@[j] by {
                            assert(j != n);
                            assert(old(self).entries@[j] == self.entries@[j]);
                        }
                        old(self).lemma_other_unchanged(*self, m, p);
                    }
                    assert forall|m: Seq<u8>, p: Seq<u8>| #![trigger self.has_key(m, p)]
                        self.has_key(m, p) <==> (old(self).has_key(m, p) || (m == rec.method@ && p
                        == rec.path@)) by {
                        if self.has_key(m, p) {
                            let j = choose|j: int|
                                0 <= j < self.entries@.len() && self.entries@[j].method@ == m
                                    && self.entries@[j].path@ == p;
                            if j != n {
                                assert(old(self).entries@[j] == self.entries@[j]);
                                assert(old(self).has_key(m, p));
                            }
                        }
                        if old(self).has_key(m, p) {
                            let j = choose|j: int|
                                0 <= j < old(self).entries@.len() && old(self).entries@[j].method@
                                    == m && old(self).entries@[j].path@ == p;
                            assert(self.entries@[j] == old(self).entries@[j]);
                            assert(self.entries@[j].method@ == m && self.entries@[j].path@ == p);
                        }
                        if m == rec.method@ && p == rec.path@ {
                            assert(self.entries@[n].method@ == m && self.entries@[n].path@ == p);
                        }
                    }
                }
            },
        }
    }

    /// Fold one record in, observed now: reads the clock, so the appended
    /// error instant is only known to be some instant.
    pub fn process_log(&mut self, rec: &Record)
        requires
            old(self).wf(),
        ensures
            final(self).wf(),
            exists|t: int|
                final(self).stats_for(rec.method@, rec.path@) == spec_process(
                    old(self).stats_for(rec.method@, rec.path@),
                    rec@,
                    t,
                ),
            forall|m: Seq<u8>, p: Seq<u8>|
                !(m == rec.method@ && p == rec.path@) ==> final(self).stats_for(m, p) == old(
                    self,
                ).stats_for(m, p),
            forall|m: Seq<u8>, p: Seq<u8>|
                #![trigger final(self).has_key(m, p)]
                final(self).has_key(m, p) <==> (old(self).has_key(m, p) || (m == rec.method@ && p
                    == rec.path@)),
    {
        let t = crate::clock::now_millis();
        self.process_log_at(rec, t);
        proof {
            assert(self.stats_for(rec.method@, rec.path@) == spec_process(
                old(self).stats_for(rec.method@, rec.path@),
                rec@,
                t as int,
            ));
        }
    }
}

/// Ascending insertion point semantics: `x` goes after every element not
/// exceeding it, keeping earlier equal latencies first.
pub open spec fn insert_sorted(s: Seq<u64>, x: u64) -> Seq<u64>
    decreases s.len(),
{
    if s.len() == 0 {
        seq![x]
    } else if s[0] <= x {
        seq![s[0]] + insert_sorted(s.drop_first(), x)
    } else {
        seq![x] + s
    }
}

/// The ascending sort of a latency sequence, one insertion per element.
pub open spec fn sorted_of(s: Seq<u64>) -> Seq<u64>
    decreases s.len(),
{
    if s.len() == 0 {
        Seq::empty()
    } else {
        insert_sorted(sorted_of(s.drop_last()), s.last())
    }
}

pub open spec fn is_sorted(s: Seq<u64>) -> bool {
    forall|i: int, j: int| 0 <= i <= j < s.len() ==> s[i] <= s[j]
}

pub proof fn lemma_insert_sorted_len(s: Seq<u64>, x: u64)
    ensures
        insert_sorted(s, x).len() == s.len() + 1,
    decreases s.len(),
{
    if s.len() > 0 && s[0] <= x {
        lemma_insert_sorted_len(s.drop_first(), x);
    }
}

pub proof fn lemma_sorted_of_len(s: Seq<u64>)
    ensures
        sorted_of(s).len() == s.len(),
    decreases s.len(),
{
    if s.len() > 0 {
        lemma_sorted_of_len(s.drop_last());
        lemma_insert_sorted_len(sorted_of(s.drop_last()), s.last());
    }
}

proof fn lemma_insert_sorted_lb(s: Seq<u64>, x: u64, b: u64)
    requires
        forall|i: int| 0 <= i < s.len() ==> b <= #[trigger] s[i],
        b <= x,
    ensures
        forall|i: int| 0 <= i < insert_sorted(s, x).len() ==> b <= #[trigger] insert_sorted(s, x)[i],
    decreases s.len(),
{
    let r = insert_sorted(s, x);
    if s.len() == 0 {
        assert forall|i: int| 0 <= i < r.len() implies b <= r[i] by {
            assert(r[i] == x);
        }
    } else if s[0] <= x {
        assert(forall|i: int| 0 <= i < s.drop_first().len() ==> b <= #[trigger] s.drop_first()[i]);
        lemma_insert_sorted_lb(s.drop_first(), x, b);
        let it = insert_sorted(s.drop_first(), x);
        assert forall|i: int| 0 <= i < r.len() implies b <= r[i] by {
            if i == 0 {
                assert(r[0] == s[0]);
            } else {
                assert(r[i] == it[i - 1]);
            }
        }
    } else {
        assert forall|i: int| 0 <= i < r.len() implies b <= r[i] by {
            if i == 0 {
                assert(r[0] == x);
            } else {
                assert(r[i] == s[i - 1]);
            }
        }
    }
}

pub proof fn lemma_insert_sorted_sorted(s: Seq<u64>, x: u64)
    requires
        is_sorted(s),
    ensures
        is_sorted(insert_sorted(s, x)),
    decreases s.len(),
{
    if s.len() == 0 {
    } else if s[0] <= x {
        let tail = s.drop_first();
        assert(is_sorted(tail));
        lemma_insert_sorted_sorted(tail, x);
        assert(forall|i: int| 0 <= i < tail.len() ==> s[0] <= #[trigger] tail[i]);
        lemma_insert_sorted_lb(tail, x, s[0]);
        let r = insert_sorted(s, x);
        let it = insert_sorted(tail, x);
        assert forall|i: int, j: int| 0 <= i <= j < r.len() implies r[i] <= r[j] by {
            if i == 0 {
                if j > 0 {
                    assert(r[j] == it[j - 1]);
                }
            } else {
                assert(r[i] == it[i - 1] && r[j] == it[j - 1]);
            }
        }
    } else {
        let r = seq![x] + s;
        assert forall|i: int, j: int| 0 <= i <= j < r.len() implies r[i] <= r[j] by {
            if i == 0 {
                if j > 0 {
                    assert(r[j] == s[j - 1]);
                    assert(s[0] <= s[j - 1]);
                }
            } else {
                assert(r[i] == s[i - 1] && r[j] == s[j - 1]);
            }
        }
    }
}

pub proof fn lemma_sorted_of_sorted(s: Seq<u64>)
    ensures
        is_sorted(sorted_of(s)),
    decreases s.len(),
{
    if s.len() > 0 {
        lemma_sorted_of_sorted(s.drop_last());
        lemma_insert_sorted_sorted(sorted_of(s.drop_last()), s.last());
    }
}

/// Inserting at the first position whose element exceeds `x` is what
/// `insert_sorted` does.
proof fn lemma_insert_at(s: Seq<u64>, x: u64, p: int)
    requires
        0 <= p <= s.len(),
        forall|q: int| 0 <= q < p ==> #[trigger] s[q] <= x,
        p == s.len() || s[p] > x,
    ensures
        insert_sorted(s, x) == s.subrange(0, p) + seq![x] + s.subrange(p, s.len() as int),
    decreases s.len(),
{
    if s.len() == 0 {
        assert(insert_sorted(s, x) =~= s.subrange(0, p) + seq![x] + s.subrange(p, s.len() as int));
    } else if p == 0 {
        assert(s[0] > x);
        assert(insert_sorted(s, x) =~= s.subrange(0, 0) + seq![x] + s.subrange(0, s.len() as int));
    } else {
        assert(s[0] <= x);
        let tail = s.drop_first();
        assert(forall|q: int| 0 <= q < p - 1 ==> #[trigger] tail[q] <= x);
        lemma_insert_at(tail, x, p - 1);
        assert(insert_sorted(s, x) =~= seq![s[0]] + (tail.subrange(0, p - 1) + seq![x]
            + tail.subrange(p - 1, tail.len() as int)));
        assert(seq![s[0]] + (tail.subrange(0, p - 1) + seq![x] + tail.subrange(
            p - 1,
            tail.len() as int,
        )) =~= s.subrange(0, p) + seq![x] + s.subrange(p, s.len() as int));
    }
}

/// An ascending copy of a latency sequence.
fn sorted_copy(v: &Vec<u64>) -> (out: Vec<u64>)
    ensures
        out@ == sorted_of(v@),
{
    let mut out: Vec<u64> = Vec::new();
    let mut k: usize = 0;
    while k < v.len()
        invariant
            k <= v@.len(),
            out@ == sorted_of(v@.take(k as int)),
        decreases v@.len() - k,
    {
        let x = v[k];
        let mut p: usize = 0;
        while p < out.len() && out[p] <= x
            invariant
                p <= out@.len(),
                forall|q: int| 0 <= q < p ==> #[trigger] out@[q] <= x,
            decreases out@.len() - p,
        {
            p = p + 1;
        }
        let ghost prev = out@;
        out.insert(p, x);
        proof {
            lemma_insert_at(prev, x, p as int);
            assert(out@ =~= prev.subrange(0, p as int) + seq![x] + prev.subrange(
                p as int,
                prev.len() as int,
            ));
            assert(v@.take(k + 1 as int).drop_last() =~= v@.take(k as int));
            assert(v@.take(k + 1 as int).last() == v@[k as int]);
        }
        k = k + 1;
    }
    proof {
        assert(v@.take(v@.len() as int) =~= v@);
    }
    out
}

/// The floor-indexed rank of the P-th percentile in a sequence of length `n`.
pub open spec fn percentile_index(n: int, p: int) -> int {
    n * p / 100
}

/// The P-th percentile of a latency multiset under the floor-indexed
/// estimator: the element at rank `floor(n * P / 100)` of the ascending
/// sort, with no interpolation; zero when the sequence is empty.
pub open spec fn percentile_spec(lats: Seq<u64>, p: int) -> u64 {
    if lats.len() == 0 {
        0
    } else {
        sorted_of(lats)[percentile_index(lats.len() as int, p)]
    }
}

/// The floor-indexed rank lies inside the sequence, and grows with P.
pub proof fn lemma_percentile_index_bounds(n: int, p: int)
    requires
        1 <= n,
        0 <= p < 100,
    ensures
        0 <= percentile_index(n, p) < n,
    decreases 0int,
{
    lemma_mul_inequality(p, 99, n);
    assert(p * n <= 99 * n);
    assert(n * p == p * n) by (nonlinear_arith);
    assert(n * p >= 0) by (nonlinear_arith)
        requires
            n >= 1 && p >= 0,
    ;
    assert(n * p < 100 * n);
    lemma_multiply_divide_lt(n * p, 100, n);
    lemma_div_is_ordered(0, n * p, 100);
}

pub proof fn lemma_percentile_index_mono(n: int, p1: int, p2: int)
    requires
        0 <= n,
        0 <= p1 <= p2,
    ensures
        percentile_index(n, p1) <= percentile_index(n, p2),
{
    lemma_mul_inequality(p1, p2, n);
    assert(n * p1 == p1 * n) by (nonlinear_arith);
    assert(n * p2 == p2 * n) by (nonlinear_arith);
    lemma_div_is_ordered(n * p1, n * p2, 100);
}

/// P50 never exceeds P95, which never exceeds P99: the estimator reads an
/// ascending sequence at non-decreasing ranks.
pub proof fn lemma_percentile_monotone(lats: Seq<u64>)
    ensures
        percentile_spec(lats, 50) <= percentile_spec(lats, 95),
        percentile_spec(lats, 95) <= percentile_spec(lats, 99),
{
    if lats.len() > 0 {
        let n = lats.len() as int;
        lemma_sorted_of_len(lats);
        lemma_sorted_of_sorted(lats);
        lemma_percentile_index_bounds(n, 50);
        lemma_percentile_index_bounds(n, 95);
        lemma_percentile_index_bounds(n, 99);
        lemma_percentile_index_mono(n, 50, 95);
        lemma_percentile_index_mono(n, 95, 99);
    }
}

/// A key never seen has empty statistics, and every percentile of an empty
/// sequence is zero, with a zero error count: querying an unknown endpoint
/// is not an error.
pub proof fn lemma_unknown_key_query(a: Analyzer, m: Seq<u8>, p: Seq<u8>)
    requires
        !a.has_key(m, p),
    ensures
        a.stats_for(m, p) == empty_stats(),
        percentile_spec(a.stats_for(m, p).latencies, 50) == 0,
        percentile_spec(a.stats_for(m, p).latencies, 95) == 0,
        percentile_spec(a.stats_for(m, p).latencies, 99) == 0,
        a.stats_for(m, p).errors.len() == 0,
{
}

/// What a query reports for one endpoint.
pub struct Summary {
    pub count: usize,
    pub p50: u64,
    pub p95: u64,
    pub p99: u64,
    pub error_count: usize,
}

/// The floor-indexed rank, computed without overflow.
fn floor_index(n: usize, p: usize) -> (idx: usize)
    requires
        1 <= n,
        p < 100,
    ensures
        idx as int == percentile_index(n as int, p as int),
        idx < n,
{
    proof {
        lemma_percentile_index_bounds(n as int, p as int);
    }
    let prod: u128 = (n as u128) * (p as u128);
    let idx128: u128 = prod / 100;
    idx128 as usize
}

impl Analyzer {
    /// Report an endpoint: its request count, floor-indexed P50/P95/P99
    /// latencies (micro-units), and error count. An endpoint never seen
    /// reports zeros, never an error; and P50 <= P95 <= P99 always.
    pub fn query(&self, method: &[u8], path: &[u8]) -> (s: Summary)
        requires
            self.wf(),
        ensures
            s.count == self.stats_for(method@, path@).latencies.len(),
            s.error_count == self.stats_for(method@, path@).errors.len(),
            s.p50 == percentile_spec(self.stats_for(method@, path@).latencies, 50),
            s.p95 == percentile_spec(self.stats_for(method@, path@).latencies, 95),
            s.p99 == percentile_spec(self.stats_for(method@, path@).latencies, 99),
            s.p50 <= s.p95,
            s.p95 <= s.p99,
    {
        proof {
            lemma_percentile_monotone(self.stats_for(method@, path@).latencies);
        }
        match self.find(method, path) {
            None => Summary { count: 0, p50: 0, p95: 0, p99: 0, error_count: 0 },
            Some(i) => {
                let lats = &self.entries[i].stats.latencies;
                let count = lats.len();
                let error_count = self.entries[i].stats.errors.len();
                if count == 0 {
                    return Summary { count: 0, p50: 0, p95: 0, p99: 0, error_count };
                }
                let sorted = sorted_copy(lats);
                proof {
                    lemma_sorted_of_len(lats@);
                }
                let i50 = floor_index(count, 50);
                let i95 = floor_index(count, 95);
                let i99 = floor_index(count, 99);
                Summary {
                    count,
                    p50: sorted[i50],
                    p95: sorted[i95],
                    p99: sorted[i99],
                    error_count,
                }
            },
        }
    }
}

/// Ascending order on endpoint keys: by method bytes, then path bytes —
/// the order the dashboard lists its rows in.
pub open spec fn key_le(m1: Seq<u8>, p1: Seq<u8>, m2: Seq<u8>, p2: Seq<u8>) -> bool {
    crate::text::bytes_lt(m1, m2) || (m1 == m2 && (crate::text::bytes_lt(p1, p2) || p1 == p2))
}

/// Any two keys compare under `key_le`.
proof fn lemma_key_le_total(m1: Seq<u8>, p1: Seq<u8>, m2: Seq<u8>, p2: Seq<u8>)
    ensures
        key_le(m1, p1, m2, p2) || key_le(m2, p2, m1, p1),
{
    crate::text::lemma_bytes_lt_total(m1, m2);
    crate::text::lemma_bytes_lt_total(p1, p2);
}

/// `key_le` is transitive.
proof fn lemma_key_le_trans(
    m1: Seq<u8>,
    p1: Seq<u8>,
    m2: Seq<u8>,
    p2: Seq<u8>,
    m3: Seq<u8>,
    p3: Seq<u8>,
)
    requires
        key_le(m1, p1, m2, p2),
        key_le(m2, p2, m3, p3),
    ensures
        key_le(m1, p1, m3, p3),
{
    if crate::text::bytes_lt(m1, m2) && crate::text::bytes_lt(m2, m3) {
        crate::text::lemma_bytes_lt_trans(m1, m2, m3);
    }
    if m1 == m2 && m2 == m3 && crate::text::bytes_lt(p1, p2) && crate::text::bytes_lt(p2, p3) {
        crate::text::lemma_bytes_lt_trans(p1, p2, p3);
    }
}

/// Executable `key_le`.
fn key_le_x(m1: &[u8], p1: &[u8], m2: &[u8], p2: &[u8]) -> (r: bool)
    ensures
        r == key_le(m1@, p1@, m2@, p2@),
{
    if crate::text::bytes_lt_x(m1, m2) {
        true
    } else if crate::text::bytes_eq(m1, m2) {
        crate::text::bytes_lt_x(p1, p2) || crate::text::bytes_eq(p1, p2)
    } else {
        false
    }
}

impl Analyzer {
    /// The key of one entry, as owned bytes.
    pub fn key_at(&self, i: usize) -> (r: (Vec<u8>, Vec<u8>))
        requires
            i < self.entries@.len(),
        ensures
            r.0@ == self.entries@[i as int].method@,
            r.1@ == self.entries@[i as int].path@,
    {
        (
            vstd::slice::slice_to_vec(self.entries[i].method.as_slice()),
            vstd::slice::slice_to_vec(self.entries[i].path.as_slice()),
        )
    }

    /// The dashboard's row order: every entry exactly once, ascending by
    /// (method, path). With the store's key uniqueness this lists every known
    /// key exactly once, sorted.
    pub fn sorted_key_order(&self) -> (order: Vec<usize>)
        ensures
            order@.len() == self.entries@.len(),
            forall|a: int| 0 <= a < order@.len() ==> order@[a] < self.entries@.len(),
            forall|a: int, b: int| 0 <= a < b < order@.len() ==> order@[a] != order@[b],
            forall|a: int, b: int|
                0 <= a < b < order@.len() ==> key_le(
                    self.entries@[order@[a] as int].method@,
                    self.entries@[order@[a] as int].path@,
                    self.entries@[order@[b] as int].method@,
                    self.entries@[order@[b] as int].path@,
                ),
    {
        let n = self.entries.len();
        let mut order: Vec<usize> = Vec::new();
        let mut k: usize = 0;
        while k < n
            invariant
                k <= n,
                n == self.entries@.len(),
                order@.len() == k,
                forall|a: int| 0 <= a < order@.len() ==> order@[a] < k,
                forall|a: int, b: int| 0 <= a < b < order@.len() ==> order@[a] != order@[b],
                forall|a: int, b: int|
                    0 <= a < b < order@.len() ==> key_le(
                        self.entries@[order@[a] as int].method@,
                        self.entries@[order@[a] as int].path@,
                        self.entries@[order@[b] as int].method@,
                        self.entries@[order@[b] as int].path@,
                    ),
            decreases n - k,
        {
            let mut p: usize = 0;
            while p < order.len() && key_le_x(
                self.entries[order[p]].method.as_slice(),
                self.entries[order[p]].path.as_slice(),
                self.entries[k].method.as_slice(),
                self.entries[k].path.as_slice(),
            )
                invariant
                    p <= order@.len(),
                    k < n == self.entries@.len(),
                    forall|a: int| 0 <= a < order@.len() ==> order@[a] < k,
                    forall|q: int|
                        0 <= q < p ==> key_le(
                            self.entries@[order@[q] as int].method@,
                            self.entries@[order@[q] as int].path@,
                            self.entries@[k as int].method@,
                            self.entries@[k as int].path@,
                        ),
                decreases order@.len() - p,
            {
                p = p + 1;
            }
            let ghost prev = order@;
            proof {
                if p < prev.len() {
                    lemma_key_le_total(
                        self.entries@[prev[p as int] as int].method@,
                        self.entries@[prev[p as int] as int].path@,
                        self.entries@[k as int].method@,
                        self.entries@[k as int].path@,
                    );
                }
            }
            order.insert(p, k);
            proof {
                assert(order@.len() == prev.len() + 1);
                assert(forall|x: int| 0 <= x < p ==> order@[x] == prev[x]);
                assert(order@[p as int] == k);
                assert(forall|x: int| p < x < order@.len() ==> order@[x] == prev[x - 1]);
                assert forall|a: int, b: int| 0 <= a < b < order@.len() implies key_le(
                    self.entries@[order@[a] as int].method@,
                    self.entries@[order@[a] as int].path@,
                    self.entries@[order@[b] as int].method@,
                    self.entries@[order@[b] as int].path@,
                ) by {
                    if a == p as int && b > p as int {
                        if b - 1 > p as int {
                            lemma_key_le_trans(
                                self.entries@[k as int].method@,
                                self.entries@[k as int].path@,
                                self.entries@[prev[p as int] as int].method@,
                                self.entries@[prev[p as int] as int].path@,
                                self.entries@[prev[b - 1] as int].method@,
                                self.entries@[prev[b - 1] as int].path@,
                            );
                        }
                    }
                }
            }
            k = k + 1;
        }
        order
    }
}

/// Records with a given (method, path) key among a batch.
pub open spec fn count_for_key(rs: Seq<RecordView>, m: Seq<u8>, p: Seq<u8>) -> int
    decreases rs.len(),
{
    if rs.len() == 0 {
        0
    } else {
        count_for_key(rs.drop_last(), m, p) + if rs.last().method == m && rs.last().path == p {
            1int
        } else {
            0int
        }
    }
}

/// One endpoint's statistics after a batch of records folds in, each at its
/// own observation instant; records of other keys leave it untouched.
pub open spec fn fold_key(
    st: StatsView,
    rs: Seq<RecordView>,
    m: Seq<u8>,
    p: Seq<u8>,
    ts: Seq<int>,
) -> StatsView
    decreases rs.len(),
{
    if rs.len() == 0 {
        st
    } else {
        let prev = fold_key(st, rs.drop_last(), m, p, ts.drop_last());
        if rs.last().method == m && rs.last().path == p {
            spec_process(
                prev,
                rs.last(),
                if ts.len() > 0 {
                    ts.last()
                } else {
                    0
                },
            )
        } else {
            prev
        }
    }
}

/// However many records fold in, and whatever instants they are observed
/// at, an endpoint's reported latency count equals the count it had before
/// plus the number of records processed for that key.
pub proof fn lemma_count_matches_processed(
    st: StatsView,
    rs: Seq<RecordView>,
    m: Seq<u8>,
    p: Seq<u8>,
    ts: Seq<int>,
)
    ensures
        fold_key(st, rs, m, p, ts).latencies.len() == st.latencies.len() + count_for_key(rs, m, p),
    decreases rs.len(),
{
    if rs.len() > 0 {
        lemma_count_matches_processed(st, rs.drop_last(), m, p, ts.drop_last());
    }
}

} // verus!
