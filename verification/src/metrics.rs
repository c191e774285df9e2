//! Metric points and families: a family maps serialized label tuples to
//! points, created lazily at zero on first observation and updated
//! in place afterwards. Counters and histogram buckets only grow;
//! histograms keep cumulative bucket counts.
use vstd::prelude::*;

use crate::text::comma_clean;

verus! {

/// Addition that pins at the top of the range instead of wrapping.
pub open spec fn sat_add(a: u64, b: u64) -> u64 {
    if a + b > u64::MAX {
        u64::MAX
    } else {
        (a + b) as u64
    }
}

/// Subtraction that pins at zero instead of wrapping.
pub open spec fn sat_sub(a: u64, b: u64) -> u64 {
    if a < b {
        0
    } else {
        (a - b) as u64
    }
}

/// Does any entry carry this key?
pub open spec fn has_key<V>(s: Seq<(Seq<u8>, V)>, k: Seq<u8>) -> bool
    decreases s.len(),
{
    if s.len() == 0 {
        false
    } else {
        s[0].0 == k || has_key(s.drop_first(), k)
    }
}

/// The value stored under `k`, or `default` when no entry carries it.
pub open spec fn lookup<V>(s: Seq<(Seq<u8>, V)>, k: Seq<u8>, default: V) -> V
    decreases s.len(),
{
    if s.len() == 0 {
        default
    } else if s[0].0 == k {
        s[0].1
    } else {
        lookup(s.drop_first(), k, default)
    }
}

/// No two entries carry the same key.
pub open spec fn keys_unique<V>(s: Seq<(Seq<u8>, V)>) -> bool {
    forall|i: int, j: int|
        0 <= i && i < j && j < s.len() ==> (#[trigger] s[i]).0 != (#[trigger] s[j]).0
}

/// Every key is safe to join and render.
pub open spec fn keys_clean<V>(s: Seq<(Seq<u8>, V)>) -> bool {
    forall|i: int| 0 <= i < s.len() ==> comma_clean((#[trigger] s[i]).0)
}

pub proof fn lemma_has_key_index<V>(s: Seq<(Seq<u8>, V)>, k: Seq<u8>)
    ensures
        has_key(s, k) <==> exists|i: int| 0 <= i < s.len() && (#[trigger] s[i]).0 == k,
    decreases s.len(),
{
    if s.len() > 0 {
        lemma_has_key_index(s.drop_first(), k);
        assert forall|i: int| 0 <= i < s.drop_first().len() implies (#[trigger] s.drop_first()[i]).0
            == s[i + 1].0 by {}
        if has_key(s, k) {
            if s[0].0 == k {
                assert(s[0].0 == k);
            } else {
                let i = choose|i: int|
                    0 <= i < s.drop_first().len() && (#[trigger] s.drop_first()[i]).0 == k;
                assert(s[i + 1].0 == k);
            }
        }
        if exists|i: int| 0 <= i < s.len() && (#[trigger] s[i]).0 == k {
            let i = choose|i: int| 0 <= i < s.len() && (#[trigger] s[i]).0 == k;
            if i > 0 {
                assert(s.drop_first()[i - 1].0 == k);
            }
        }
    }
}

pub proof fn lemma_lookup_absent<V>(s: Seq<(Seq<u8>, V)>, k: Seq<u8>, default: V)
    requires
        !has_key(s, k),
    ensures
        lookup(s, k, default) == default,
    decreases s.len(),
{
    if s.len() > 0 {
        lemma_lookup_absent(s.drop_first(), k, default);
    }
}

pub proof fn lemma_lookup_index<V>(s: Seq<(Seq<u8>, V)>, j: int, default: V)
    requires
        keys_unique(s),
        0 <= j < s.len(),
    ensures
        lookup(s, s[j].0, default) == s[j].1,
    decreases j,
{
    if j > 0 {
        assert(s[0].0 != s[j].0);
        let t = s.drop_first();
        assert(keys_unique(t)) by {
            assert forall|a: int, b: int| 0 <= a && a < b && b < t.len() implies (
            #[trigger] t[a]).0 != (#[trigger] t[b]).0 by {
                assert(t[a] == s[a + 1]);
                assert(t[b] == s[b + 1]);
            }
        }
        assert(t[j - 1] == s[j]);
        lemma_lookup_index(t, j - 1, default);
    }
}

pub proof fn lemma_lookup_update<V>(s: Seq<(Seq<u8>, V)>, j: int, nv: V, default: V)
    requires
        keys_unique(s),
        0 <= j < s.len(),
    ensures
        lookup(s.update(j, (s[j].0, nv)), s[j].0, default) == nv,
        forall|k: Seq<u8>| k != s[j].0 ==> lookup(s.update(j, (s[j].0, nv)), k, default) == lookup(
            s,
            k,
            default,
        ),
        forall|k: Seq<u8>| has_key(s.update(j, (s[j].0, nv)), k) == has_key(s, k),
    decreases j,
{
    let t = s.update(j, (s[j].0, nv));
    if j == 0 {
        assert(t[0] == (s[0].0, nv));
        assert(t.drop_first() =~= s.drop_first());
        assert(lookup(t, s[0].0, default) == nv);
        assert forall|k: Seq<u8>| k != s[0].0 implies lookup(t, k, default) == lookup(
            s,
            k,
            default,
        ) by {
            assert(lookup(t, k, default) == lookup(t.drop_first(), k, default));
            assert(lookup(s, k, default) == lookup(s.drop_first(), k, default));
        }
        assert forall|k: Seq<u8>| has_key(t, k) == has_key(s, k) by {
            assert(t[0].0 == s[0].0);
        }
    } else {
        assert(t[0] == s[0]);
        let sd = s.drop_first();
        let td = t.drop_first();
        assert(keys_unique(sd)) by {
            assert forall|a: int, b: int| 0 <= a && a < b && b < sd.len() implies (
            #[trigger] sd[a]).0 != (#[trigger] sd[b]).0 by {
                assert(sd[a] == s[a + 1]);
                assert(sd[b] == s[b + 1]);
            }
        }
        assert(sd[j - 1] == s[j]);
        assert(td =~= sd.update(j - 1, (sd[j - 1].0, nv)));
        lemma_lookup_update(sd, j - 1, nv, default);
        assert(s[0].0 != s[j].0);
        assert(lookup(t, s[j].0, default) == nv) by {
            assert(t[0].0 == s[0].0);
            assert(lookup(t, s[j].0, default) == lookup(td, s[j].0, default));
        }
        assert forall|k: Seq<u8>| k != s[j].0 implies lookup(t, k, default) == lookup(
            s,
            k,
            default,
        ) by {
            if s[0].0 == k {
                assert(lookup(t, k, default) == t[0].1);
                assert(lookup(s, k, default) == s[0].1);
            } else {
                assert(lookup(t, k, default) == lookup(td, k, default));
                assert(lookup(s, k, default) == lookup(sd, k, default));
            }
        }
        assert forall|k: Seq<u8>| has_key(t, k) == has_key(s, k) by {
            assert(t[0].0 == s[0].0);
            assert(has_key(t, k) == (t[0].0 == k || has_key(td, k)));
            assert(has_key(s, k) == (s[0].0 == k || has_key(sd, k)));
        }
    }
}

pub proof fn lemma_lookup_push<V>(s: Seq<(Seq<u8>, V)>, k: Seq<u8>, v: V, default: V)
    requires
        !has_key(s, k),
    ensures
        lookup(s.push((k, v)), k, default) == v,
        forall|k2: Seq<u8>| k2 != k ==> lookup(s.push((k, v)), k2, default) == lookup(
            s,
            k2,
            default,
        ),
        forall|k2: Seq<u8>| has_key(s.push((k, v)), k2) == (has_key(s, k2) || k2 == k),
    decreases s.len(),
{
    let t = s.push((k, v));
    if s.len() == 0 {
        assert(t[0] == (k, v));
        assert(t.drop_first() =~= Seq::<(Seq<u8>, V)>::empty());
        assert forall|k2: Seq<u8>| k2 != k implies lookup(t, k2, default) == lookup(
            s,
            k2,
            default,
        ) by {
            assert(lookup(t, k2, default) == lookup(t.drop_first(), k2, default));
        }
        assert forall|k2: Seq<u8>| has_key(t, k2) == (has_key(s, k2) || k2 == k) by {
            assert(has_key(t, k2) == (t[0].0 == k2 || has_key(t.drop_first(), k2)));
        }
    } else {
        assert(t[0] == s[0]);
        assert(s[0].0 != k);
        let sd = s.drop_first();
        let td = t.drop_first();
        assert(td =~= sd.push((k, v)));
        lemma_lookup_push(sd, k, v, default);
        assert(lookup(t, k, default) == lookup(td, k, default));
        assert forall|k2: Seq<u8>| k2 != k implies lookup(t, k2, default) == lookup(
            s,
            k2,
            default,
        ) by {
            if s[0].0 == k2 {
                assert(lookup(t, k2, default) == t[0].1);
                assert(lookup(s, k2, default) == s[0].1);
            } else {
                assert(lookup(t, k2, default) == lookup(td, k2, default));
                assert(lookup(s, k2, default) == lookup(sd, k2, default));
            }
        }
        assert forall|k2: Seq<u8>| has_key(t, k2) == (has_key(s, k2) || k2 == k) by {
            assert(has_key(t, k2) == (t[0].0 == k2 || has_key(td, k2)));
            assert(has_key(s, k2) == (s[0].0 == k2 || has_key(sd, k2)));
        }
    }
}

/// A family of 64-bit accumulators, one per label tuple.
pub struct ScalarFamily {
    entries: Vec<(Vec<u8>, u64)>,
}

impl View for ScalarFamily {
    type V = Seq<(Seq<u8>, u64)>;

    closed spec fn view(&self) -> Seq<(Seq<u8>, u64)> {
        Seq::new(self.entries@.len(), |i: int| (self.entries@[i].0@, self.entries@[i].1))
    }
}

/// The value of the point keyed `k`, zero when it was never observed.
pub open spec fn scalar_of(s: Seq<(Seq<u8>, u64)>, k: Seq<u8>) -> u64 {
    lookup(s, k, 0u64)
}

impl ScalarFamily {
    pub open spec fn wf(&self) -> bool {
        keys_unique(self@) && keys_clean(self@)
    }

    pub fn new() -> (r: ScalarFamily)
        ensures
            r.wf(),
            r@ =~= Seq::<(Seq<u8>, u64)>::empty(),
    {
        ScalarFamily { entries: Vec::new() }
    }

    pub fn len(&self) -> (n: usize)
        ensures
            n == self@.len(),
    {
        self.entries.len()
    }

    pub fn key_at(&self, i: usize) -> (k: &Vec<u8>)
        requires
            i < self@.len(),
        ensures
            k@ == self@[i as int].0,
    {
        &self.entries[i].0
    }

    pub fn value_at(&self, i: usize) -> (v: u64)
        requires
            i < self@.len(),
        ensures
            v == self@[i as int].1,
    {
        self.entries[i].1
    }

    /// Find the entry carrying `key`, if any.
    fn find(&self, key: &Vec<u8>) -> (r: Option<usize>)
        requires
            self.wf(),
        ensures
            match r {
                Some(j) => j < self@.len() && self@[j as int].0 == key@,
                None => !has_key(self@, key@),
            },
    {
        let mut j: usize = 0;
        while j < self.entries.len()
            invariant
                j <= self@.len(),
                self@.len() == self.entries@.len(),
                forall|i: int| 0 <= i < j ==> (#[trigger] self@[i]).0 != key@,
            decreases self@.len() - j,
        {
            if crate::text::bytes_eq(&self.entries[j].0, key) {
                assert(self@[j as int].0 == key@);
                return Some(j);
            }
            j += 1;
        }
        proof {
            lemma_has_key_index(self@, key@);
        }
        None
    }

    /// Add `delta` to the point keyed `key`, creating it at zero first if
    /// it was never observed; the sum pins at the top of the range. No
    /// other point changes.
    pub fn add(&mut self, key: &Vec<u8>, delta: u64)
        requires
            old(self).wf(),
            comma_clean(key@),
        ensures
            final(self).wf(),
            scalar_of(final(self)@, key@) == sat_add(scalar_of(old(self)@, key@), delta),
            forall|k: Seq<u8>| k != key@ ==> scalar_of(final(self)@, k) == scalar_of(
                old(self)@,
                k,
            ),
            forall|k: Seq<u8>| has_key(final(self)@, k) == (has_key(old(self)@, k) || k == key@),
            forall|k: Seq<u8>| scalar_of(final(self)@, k) >= scalar_of(old(self)@, k),
    {
        let found = self.find(key);
        match found {
            Some(j) => {
                let ghost prev = self@;
                let cur = self.entries[j].1;
                let nv = cur.saturating_add(delta);
                let nk = crate::text::clone_bytes(key);
                self.entries[j] = (nk, nv);
                proof {
                    assert(self@ =~= prev.update(j as int, (prev[j as int].0, nv)));
                    lemma_lookup_index(prev, j as int, 0u64);
                    lemma_lookup_update(prev, j as int, nv, 0u64);
                    lemma_has_key_index(prev, key@);
                    assert(has_key(prev, key@)) by {
                        assert(prev[j as int].0 == key@);
                    }
                    assert forall|k: Seq<u8>| has_key(self@, k) == (has_key(prev, k) || k
                        == key@) by {
                        if k == key@ {
                            assert(has_key(prev, key@));
                        }
                    }
                    assert forall|i: int| 0 <= i < self@.len() implies comma_clean(
                        (#[trigger] self@[i]).0,
                    ) by {
                        assert(self@[i].0 == prev[i].0);
                        assert(comma_clean(prev[i].0));
                    }
                    assert forall|a: int, b: int| 0 <= a && a < b && b < self@.len() implies (
                    #[trigger] self@[a]).0 != (#[trigger] self@[b]).0 by {
                        assert(self@[a].0 == prev[a].0);
                        assert(self@[b].0 == prev[b].0);
                    }
                }
            },
            None => {
                let ghost prev = self@;
                let nk = crate::text::clone_bytes(key);
                self.entries.push((nk, delta));
                proof {
                    assert(self@ =~= prev.push((key@, delta)));
                    lemma_lookup_absent(prev, key@, 0u64);
                    lemma_lookup_push(prev, key@, delta, 0u64);
                    lemma_has_key_index(prev, key@);
                    assert forall|i: int| 0 <= i < self@.len() implies comma_clean(
                        (#[trigger] self@[i]).0,
                    ) by {
                        if i < prev.len() {
                            assert(self@[i].0 == prev[i].0);
                            assert(comma_clean(prev[i].0));
                        }
                    }
                    assert forall|a: int, b: int| 0 <= a && a < b && b < self@.len() implies (
                    #[trigger] self@[a]).0 != (#[trigger] self@[b]).0 by {
                        if b < prev.len() {
                            assert(self@[a].0 == prev[a].0);
                            assert(self@[b].0 == prev[b].0);
                        } else {
                            assert(self@[a].0 == prev[a].0);
                            assert(self@[b].0 == key@);
                        }
                    }
                }
            },
        }
    }

    /// Subtract `delta` from the point keyed `key`, pinning at zero; a
    /// point that was never observed is created at zero. No other point
    /// changes.
    pub fn sub(&mut self, key: &Vec<u8>, delta: u64)
        requires
            old(self).wf(),
            comma_clean(key@),
        ensures
            final(self).wf(),
            scalar_of(final(self)@, key@) == sat_sub(scalar_of(old(self)@, key@), delta),
            forall|k: Seq<u8>| k != key@ ==> scalar_of(final(self)@, k) == scalar_of(
                old(self)@,
                k,
            ),
            forall|k: Seq<u8>| has_key(final(self)@, k) == (has_key(old(self)@, k) || k == key@),
    {
        let found = self.find(key);
        match found {
            Some(j) => {
                let ghost prev = self@;
                let cur = self.entries[j].1;
                let nv = cur.saturating_sub(delta);
                let nk = crate::text::clone_bytes(key);
                self.entries[j] = (nk, nv);
                proof {
                    assert(self@ =~= prev.update(j as int, (prev[j as int].0, nv)));
                    lemma_lookup_index(prev, j as int, 0u64);
                    lemma_lookup_update(prev, j as int, nv, 0u64);
                    lemma_has_key_index(prev, key@);
                    assert(has_key(prev, key@)) by {
                        assert(prev[j as int].0 == key@);
                    }
                    assert forall|k: Seq<u8>| has_key(self@, k) == (has_key(prev, k) || k
                        == key@) by {
                        if k == key@ {
                            assert(has_key(prev, key@));
                        }
                    }
                    assert forall|i: int| 0 <= i < self@.len() implies comma_clean(
                        (#[trigger] self@[i]).0,
                    ) by {
                        assert(self@[i].0 == prev[i].0);
                        assert(comma_clean(prev[i].0));
                    }
                    assert forall|a: int, b: int| 0 <= a && a < b && b < self@.len() implies (
                    #[trigger] self@[a]).0 != (#[trigger] self@[b]).0 by {
                        assert(self@[a].0 == prev[a].0);
                        assert(self@[b].0 == prev[b].0);
                    }
                }
            },
            None => {
                let ghost prev = self@;
                let nk = crate::text::clone_bytes(key);
                self.entries.push((nk, 0));
                proof {
                    assert(self@ =~= prev.push((key@, 0u64)));
                    lemma_lookup_absent(prev, key@, 0u64);
                    lemma_lookup_push(prev, key@, 0u64, 0u64);
                    lemma_has_key_index(prev, key@);
                    assert forall|i: int| 0 <= i < self@.len() implies comma_clean(
                        (#[trigger] self@[i]).0,
                    ) by {
                        if i < prev.len() {
                            assert(self@[i].0 == prev[i].0);
                            assert(comma_clean(prev[i].0));
                        }
                    }
                    assert forall|a: int, b: int| 0 <= a && a < b && b < self@.len() implies (
                    #[trigger] self@[a]).0 != (#[trigger] self@[b]).0 by {
                        if b < prev.len() {
                            assert(self@[a].0 == prev[a].0);
                            assert(self@[b].0 == prev[b].0);
                        } else {
                            assert(self@[a].0 == prev[a].0);
                            assert(self@[b].0 == key@);
                        }
                    }
                }
            },
        }
    }

    /// The current value of the point keyed `key` (zero if never seen).
    pub fn get_value(&self, key: &Vec<u8>) -> (v: u64)
        requires
            self.wf(),
        ensures
            v == scalar_of(self@, key@),
    {
        let found = self.find(key);
        match found {
            Some(j) => {
                proof {
                    lemma_lookup_index(self@, j as int, 0u64);
                }
                self.entries[j].1
            },
            None => {
                proof {
                    lemma_lookup_absent(self@, key@, 0u64);
                }
                0
            },
        }
    }
}

/// One bucket per upper bound, plus a final bucket for everything.
pub const BUCKETS: usize = 26;

/// The finite upper bounds of the latency and duration histograms, in
/// milliseconds; the last bucket has no bound.
pub open spec fn bucket_bounds() -> Seq<u64> {
    seq![
        1u64,
        2,
        3,
        4,
        5,
        10,
        20,
        30,
        40,
        50,
        100,
        200,
        300,
        400,
        500,
        1000,
        2000,
        3000,
        4000,
        5000,
        10000,
        20000,
        30000,
        40000,
        50000,
    ]
}

/// Whether an observation of `v` is counted by bucket `i`: every bucket
/// whose upper bound is at least `v` counts it, and the last bucket
/// counts everything.
pub open spec fn bucket_le(i: int, v: u64) -> bool {
    i == 25 || (0 <= i < 25 && v <= bucket_bounds()[i])
}

pub proof fn lemma_bounds_sorted()
    ensures
        forall|i: int, j: int|
            #![trigger bucket_bounds()[i], bucket_bounds()[j]]
            0 <= i && i <= j && j < 25 ==> bucket_bounds()[i] <= bucket_bounds()[j],
{
}

/// Counting a value in bucket `i` implies counting it in every later
/// bucket: the storage is cumulative.
pub proof fn lemma_bucket_le_monotone(i: int, j: int, v: u64)
    requires
        0 <= i <= j <= 25,
        bucket_le(i, v),
    ensures
        bucket_le(j, v),
{
    lemma_bounds_sorted();
}

/// The finite bucket bounds as a vector.
pub fn bounds_vec() -> (r: Vec<u64>)
    ensures
        r@ == bucket_bounds(),
{
    let mut r: Vec<u64> = Vec::new();
    r.push(1);
    r.push(2);
    r.push(3);
    r.push(4);
    r.push(5);
    r.push(10);
    r.push(20);
    r.push(30);
    r.push(40);
    r.push(50);
    r.push(100);
    r.push(200);
    r.push(300);
    r.push(400);
    r.push(500);
    r.push(1000);
    r.push(2000);
    r.push(3000);
    r.push(4000);
    r.push(5000);
    r.push(10000);
    r.push(20000);
    r.push(30000);
    r.push(40000);
    r.push(50000);
    proof {
        assert(r@ =~= bucket_bounds());
    }
    r
}

/// A histogram point: cumulative bucket counts and the sum of observed
/// values. The last bucket's count is the total count.
pub struct Histogram {
    counts: Vec<u64>,
    sum: u64,
}

impl View for Histogram {
    type V = (Seq<u64>, u64);

    closed spec fn view(&self) -> (Seq<u64>, u64) {
        (self.counts@, self.sum)
    }
}

/// Bucket counts are cumulative: a bucket never counts more than any
/// later bucket.
pub open spec fn hist_wf(h: (Seq<u64>, u64)) -> bool {
    &&& h.0.len() == 26
    &&& forall|i: int, j: int|
        #![trigger h.0[i], h.0[j]]
        0 <= i && i <= j && j < 26 ==> h.0[i] <= h.0[j]
}

/// The histogram that has observed nothing.
pub open spec fn empty_hist() -> (Seq<u64>, u64) {
    (Seq::new(26, |i: int| 0u64), 0u64)
}

/// Observing `v`: every bucket that counts `v` grows by one, and `v`
/// joins the sum; counts pin at the top of the range.
pub open spec fn hist_observe(h: (Seq<u64>, u64), v: u64) -> (Seq<u64>, u64) {
    (
        Seq::new(
            26,
            |i: int|
                if bucket_le(i, v) {
                    sat_add(h.0[i], 1)
                } else {
                    h.0[i]
                },
        ),
        sat_add(h.1, v),
    )
}

/// The total number of observations.
pub open spec fn hist_count(h: (Seq<u64>, u64)) -> u64 {
    h.0[25]
}

/// Histogram cumulativity: a bucket never counts more than any later
/// bucket, and the total count is the unbounded bucket's count.
pub proof fn lemma_histogram_cumulative(h: (Seq<u64>, u64))
    requires
        hist_wf(h),
    ensures
        forall|i: int, j: int|
            #![trigger h.0[i], h.0[j]]
            0 <= i && i <= j && j < 26 ==> h.0[i] <= h.0[j],
        hist_count(h) == h.0[25],
{
}

pub proof fn lemma_empty_hist_wf()
    ensures
        hist_wf(empty_hist()),
        hist_count(empty_hist()) == 0,
{
}

/// An observation keeps the histogram cumulative and raises the total
/// count by one.
pub proof fn lemma_hist_observe_wf(h: (Seq<u64>, u64), v: u64)
    requires
        hist_wf(h),
    ensures
        hist_wf(hist_observe(h, v)),
        hist_count(hist_observe(h, v)) == sat_add(hist_count(h), 1),
        forall|i: int| 0 <= i < 26 ==> #[trigger] hist_observe(h, v).0[i] >= h.0[i],
{
    let t = hist_observe(h, v);
    assert forall|i: int, j: int|
        #![trigger t.0[i], t.0[j]]
        0 <= i && i <= j && j < 26 implies t.0[i] <= t.0[j] by {
        if bucket_le(i, v) {
            lemma_bucket_le_monotone(i, j, v);
        }
    }
}

impl Histogram {
    pub open spec fn wf(&self) -> bool {
        hist_wf(self@)
    }

    pub fn new() -> (r: Histogram)
        ensures
            r.wf(),
            r@ == empty_hist(),
    {
        let mut counts: Vec<u64> = Vec::new();
        let mut i: usize = 0;
        while i < 26
            invariant
                i <= 26,
                counts@ =~= Seq::new(i as nat, |k: int| 0u64),
            decreases 26 - i,
        {
            counts.push(0);
            proof {
                assert(counts@ =~= Seq::new((i + 1) as nat, |k: int| 0u64));
            }
            i += 1;
        }
        let r = Histogram { counts, sum: 0 };
        proof {
            assert(r@ == empty_hist());
        }
        r
    }

    /// Record one observation of `value`.
    pub fn observe(&mut self, value: u64)
        requires
            old(self).wf(),
        ensures
            final(self).wf(),
            final(self)@ == hist_observe(old(self)@, value),
    {
        let ghost orig = self@;
        let bounds = bounds_vec();
        let ghost target = hist_observe(orig, value);
        let mut i: usize = 0;
        while i < 25
            invariant
                i <= 25,
                bounds@ == bucket_bounds(),
                target == hist_observe(orig, value),
                orig.0.len() == 26,
                self@.0.len() == 26,
                self@.1 == orig.1,
                forall|k: int| 0 <= k < i ==> self@.0[k] == target.0[k],
                forall|k: int| i <= k < 26 ==> self@.0[k] == orig.0[k],
            decreases 25 - i,
        {
            if value <= bounds[i] {
                let cur = self.counts[i];
                self.counts[i] = cur.saturating_add(1);
            }
            i += 1;
        }
        let last = self.counts[25];
        self.counts[25] = last.saturating_add(1);
        self.sum = self.sum.saturating_add(value);
        proof {
            assert(self@.0 =~= target.0);
            lemma_hist_observe_wf(orig, value);
        }
    }
}

/// A family of histogram points, one per label tuple.
pub struct HistogramFamily {
    entries: Vec<(Vec<u8>, Histogram)>,
}

impl View for HistogramFamily {
    type V = Seq<(Seq<u8>, (Seq<u64>, u64))>;

    closed spec fn view(&self) -> Seq<(Seq<u8>, (Seq<u64>, u64))> {
        Seq::new(self.entries@.len(), |i: int| (self.entries@[i].0@, self.entries@[i].1@))
    }
}

/// The histogram stored under `k`, empty when it was never observed.
pub open spec fn hist_of(s: Seq<(Seq<u8>, (Seq<u64>, u64))>, k: Seq<u8>) -> (Seq<u64>, u64) {
    lookup(s, k, empty_hist())
}

pub open spec fn hists_wf(s: Seq<(Seq<u8>, (Seq<u64>, u64))>) -> bool {
    forall|i: int| 0 <= i < s.len() ==> hist_wf((#[trigger] s[i]).1)
}

impl HistogramFamily {
    pub open spec fn wf(&self) -> bool {
        keys_unique(self@) && keys_clean(self@) && hists_wf(self@)
    }

    pub fn new() -> (r: HistogramFamily)
        ensures
            r.wf(),
            r@ =~= Seq::<(Seq<u8>, (Seq<u64>, u64))>::empty(),
    {
        HistogramFamily { entries: Vec::new() }
    }

    pub fn len(&self) -> (n: usize)
        ensures
            n == self@.len(),
    {
        self.entries.len()
    }

    pub fn key_at(&self, i: usize) -> (k: &Vec<u8>)
        requires
            i < self@.len(),
        ensures
            k@ == self@[i as int].0,
    {
        &self.entries[i].0
    }

    pub fn bucket_count_at(&self, i: usize, b: usize) -> (c: u64)
        requires
            i < self@.len(),
            b < 26,
            self.wf(),
        ensures
            c == self@[i as int].1.0[b as int],
    {
        assert(hist_wf(self@[i as int].1));
        self.entries[i].1.counts[b]
    }

    pub fn sum_at(&self, i: usize) -> (s: u64)
        requires
            i < self@.len(),
        ensures
            s == self@[i as int].1.1,
    {
        self.entries[i].1.sum
    }

    fn find(&self, key: &Vec<u8>) -> (r: Option<usize>)
        requires
            self.wf(),
        ensures
            match r {
                Some(j) => j < self@.len() && self@[j as int].0 == key@,
                None => !has_key(self@, key@),
            },
    {
        let mut j: usize = 0;
        while j < self.entries.len()
            invariant
                j <= self@.len(),
                self@.len() == self.entries@.len(),
                forall|i: int| 0 <= i < j ==> (#[trigger] self@[i]).0 != key@,
            decreases self@.len() - j,
        {
            if crate::text::bytes_eq(&self.entries[j].0, key) {
                assert(self@[j as int].0 == key@);
                return Some(j);
            }
            j += 1;
        }
        proof {
            lemma_has_key_index(self@, key@);
        }
        None
    }

    /// Record one observation of `value` under `key`, creating the
    /// histogram point first if it was never observed. No other point
    /// changes.
    pub fn observe(&mut self, key: &Vec<u8>, value: u64)
        requires
            old(self).wf(),
            comma_clean(key@),
        ensures
            final(self).wf(),
            hist_of(final(self)@, key@) == hist_observe(hist_of(old(self)@, key@), value),
            forall|k: Seq<u8>| k != key@ ==> hist_of(final(self)@, k) == hist_of(old(self)@, k),
            forall|k: Seq<u8>| has_key(final(self)@, k) == (has_key(old(self)@, k) || k == key@),
            forall|k: Seq<u8>|
                #![auto]
                hist_count(hist_of(final(self)@, k)) >= hist_count(hist_of(old(self)@, k)),
    {
        let found = self.find(key);
        match found {
            Some(j) => {
                let ghost prev = self@;
                let mut pair = self.entries.remove(j);
                proof {
                    assert(hist_wf(prev[j as int].1));
                }
                pair.1.observe(value);
                let ghost nh = pair.1@;
                self.entries.insert(j, pair);
                proof {
                    assert(self@ =~= prev.update(j as int, (prev[j as int].0, nh)));
                    lemma_lookup_index(prev, j as int, empty_hist());
                    lemma_lookup_update(prev, j as int, nh, empty_hist());
                    lemma_has_key_index(prev, key@);
                    assert(has_key(prev, key@)) by {
                        assert(prev[j as int].0 == key@);
                    }
                    assert forall|k: Seq<u8>| has_key(self@, k) == (has_key(prev, k) || k
                        == key@) by {
                        if k == key@ {
                            assert(has_key(prev, key@));
                        }
                    }
                    assert forall|i: int| 0 <= i < self@.len() implies comma_clean(
                        (#[trigger] self@[i]).0,
                    ) && hist_wf(self@[i].1) by {
                        assert(self@[i].0 == prev[i].0);
                        assert(comma_clean(prev[i].0));
                        if i != j {
                            assert(self@[i].1 == prev[i].1);
                            assert(hist_wf(prev[i].1));
                        } else {
                            lemma_hist_observe_wf(prev[j as int].1, value);
                        }
                    }
                    assert forall|a: int, b: int| 0 <= a && a < b && b < self@.len() implies (
                    #[trigger] self@[a]).0 != (#[trigger] self@[b]).0 by {
                        assert(self@[a].0 == prev[a].0);
                        assert(self@[b].0 == prev[b].0);
                    }
                }
            },
            None => {
                let ghost prev = self@;
                let mut h = Histogram::new();
                h.observe(value);
                let ghost nh = h@;
                let nk = crate::text::clone_bytes(key);
                self.entries.push((nk, h));
                proof {
                    assert(self@ =~= prev.push((key@, nh)));
                    lemma_lookup_absent(prev, key@, empty_hist());
                    lemma_lookup_push(prev, key@, nh, empty_hist());
                    lemma_has_key_index(prev, key@);
                    assert forall|i: int| 0 <= i < self@.len() implies comma_clean(
                        (#[trigger] self@[i]).0,
                    ) && hist_wf(self@[i].1) by {
                        if i < prev.len() {
                            assert(self@[i].0 == prev[i].0);
                            assert(comma_clean(prev[i].0));
                            assert(self@[i].1 == prev[i].1);
                            assert(hist_wf(prev[i].1));
                        } else {
                            lemma_empty_hist_wf();
                            lemma_hist_observe_wf(empty_hist(), value);
                        }
                    }
                    assert forall|a: int, b: int| 0 <= a && a < b && b < self@.len() implies (
                    #[trigger] self@[a]).0 != (#[trigger] self@[b]).0 by {
                        if b < prev.len() {
                            assert(self@[a].0 == prev[a].0);
                            assert(self@[b].0 == prev[b].0);
                        } else {
                            assert(self@[a].0 == prev[a].0);
                            assert(self@[b].0 == key@);
                        }
                    }
                }
            },
        }
    }
}

} // verus!
