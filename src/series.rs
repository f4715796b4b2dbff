//! The per-day series of measurements, and its moving average.

use vstd::prelude::*;
use crate::date::Date;
use crate::error::Error;

verus! {

/// The number of consecutive days that one averaged point covers.
pub const WINDOW: usize = 7;

/// One day's value. Values are fixed-point integers in a unit that the
/// caller picks (for instance thousandths of a kilogram).
#[derive(Clone, Copy, Debug, PartialEq, Eq, Structural)]
pub struct Measurement {
    pub date: Date,
    pub value: i64,
}

/// Records in strictly increasing date order, each with a real date: so
/// there is at most one record per date.
pub open spec fn sorted_by_date(s: Seq<Measurement>) -> bool {
    &&& forall|i: int| 0 <= i < s.len() ==> (#[trigger] s[i]).date.wf()
    &&& forall|i: int, j: int| 0 <= i < j < s.len() ==> (#[trigger] s[i]).date.key() < (#[trigger] s[j]).date.key()
}

/// `after` holds `(date, value)` and, for every other date, what `before`
/// held.
pub open spec fn upserted(before: Seq<Measurement>, after: Seq<Measurement>, date: Date, value: i64) -> bool {
    &&& sorted_by_date(after)
    &&& forall|m: Measurement| #[trigger] after.contains(m) <==> (m == Measurement { date, value } || (before.contains(m)
        && m.date != date))
}

/// The sum of a sequence of values.
pub open spec fn sum(s: Seq<i64>) -> int
    decreases s.len(),
{
    if s.len() == 0 {
        0
    } else {
        sum(s.drop_last()) + s.last()
    }
}

/// The sum of the window of values that starts at `i`.
pub open spec fn window_sum(w: Seq<i64>, i: int) -> int {
    sum(w.subrange(i, i + WINDOW as int))
}

/// The number of averaged points that a series of `n` values gives.
pub open spec fn averaged_len(n: int) -> int {
    if n < WINDOW { 0 } else { n - (WINDOW - 1) }
}

/// The whole series, oldest first.
pub struct RawSeries {
    pub dates: Vec<Date>,
    pub weights: Vec<i64>,
}

/// The moving average of a series. The point at `i` stands for the days
/// `i .. i + WINDOW` of the raw series and carries the last of their dates;
/// `sums[i]` is the total of their values, so the mean is `sums[i] / WINDOW`.
pub struct AveragedSeries {
    pub dates: Vec<Date>,
    pub sums: Vec<i128>,
}

/// A series together with its moving average.
pub struct RawAndAveragedSeries {
    pub raw: RawSeries,
    pub average: AveragedSeries,
}

/// The record with the latest date, or `NotFound`.
pub open spec fn latest(s: Seq<Measurement>) -> Result<Measurement, Error> {
    if s.len() == 0 {
        Err(Error::NotFound)
    } else {
        Ok(s.last())
    }
}

/// `raw` lists the records of `s` in their order.
pub open spec fn lists(s: Seq<Measurement>, raw: RawSeries) -> bool {
    &&& raw.wf()
    &&& raw.dates@.len() == s.len()
    &&& forall|k: int| 0 <= k < s.len() ==> raw.dates@[k] == (#[trigger] s[k]).date && raw.weights@[k] == s[k].value
}

/// `avg` is the moving average of `raw`: one point per full window, each
/// the total of its window, dated with the window's last date.
pub open spec fn averages(raw: RawSeries, avg: AveragedSeries) -> bool {
    &&& avg.sums@.len() == averaged_len(raw.weights@.len() as int)
    &&& avg.dates@.len() == avg.sums@.len()
    &&& forall|i: int| 0 <= i < avg.sums@.len() ==> avg.sums@[i] == window_sum(raw.weights@, i)
    &&& forall|i: int| 0 <= i < avg.dates@.len() ==> avg.dates@[i] == raw.dates@[i + (WINDOW - 1)]
}

impl RawSeries {
    /// One date for each value.
    pub open spec fn wf(&self) -> bool {
        self.dates@.len() == self.weights@.len()
    }
}

proof fn lemma_sum_bound(s: Seq<i64>)
    ensures
        -(s.len() as int) * 0x8000_0000_0000_0000 <= sum(s) <= (s.len() as int) * 0x8000_0000_0000_0000,
    decreases s.len(),
{
    if s.len() > 0 {
        lemma_sum_bound(s.drop_last());
    }
}

impl AveragedSeries {
    /// The moving average over `WINDOW` days. A series shorter than the
    /// window has no averaged point; one of exactly `WINDOW` values has one,
    /// the total of all of them.
    pub fn from(raw: &RawSeries) -> (r: AveragedSeries)
        requires
            raw.wf(),
        ensures
            averages(*raw, r),
            raw.weights@.len() == WINDOW ==> r.sums@.len() == 1 && r.sums@[0] == sum(raw.weights@),
    {
        let n = raw.weights.len();
        let mut dates: Vec<Date> = Vec::new();
        let mut sums: Vec<i128> = Vec::new();
        if n < WINDOW {
            return AveragedSeries { dates, sums };
        }
        let mut i: usize = 0;
        while i <= n - WINDOW
            invariant
                n == raw.weights@.len(),
                n == raw.dates@.len(),
                WINDOW <= n,
                i <= n - (WINDOW - 1),
                sums@.len() == i,
                dates@.len() == i,
                forall|k: int| 0 <= k < i ==> sums@[k] == window_sum(raw.weights@, k),
                forall|k: int| 0 <= k < i ==> dates@[k] == raw.dates@[k + (WINDOW - 1)],
            decreases n - i,
        {
            let mut acc: i128 = 0;
            let mut k: usize = 0;
            while k < WINDOW
                invariant
                    n == raw.weights@.len(),
                    i + WINDOW <= n,
                    k <= WINDOW,
                    acc == sum(raw.weights@.subrange(i as int, i + k)),
                decreases WINDOW - k,
            {
                proof {
                    let s = raw.weights@.subrange(i as int, i + k + 1);
                    assert(s.drop_last() =~= raw.weights@.subrange(i as int, i + k));
                    lemma_sum_bound(s.drop_last());
                }
                acc = acc + raw.weights[i + k] as i128;
                k = k + 1;
            }
            sums.push(acc);
            dates.push(raw.dates[i + (WINDOW - 1)]);
            i = i + 1;
        }
        proof {
            if n == WINDOW {
                assert(raw.weights@.subrange(0, WINDOW as int) =~= raw.weights@);
            }
        }
        AveragedSeries { dates, sums }
    }
}

/// Dates with one key are one date.
pub proof fn lemma_key_injective(a: Date, b: Date)
    requires
        a.wf(),
        b.wf(),
        a.key() == b.key(),
    ensures
        a == b,
{
}

/// Writing a date twice leaves exactly one record for it, holding the
/// second value; every other date keeps what it held before both writes.
pub proof fn lemma_upsert_twice(
    s0: Seq<Measurement>,
    s1: Seq<Measurement>,
    s2: Seq<Measurement>,
    date: Date,
    v1: i64,
    v2: i64,
)
    requires
        upserted(s0, s1, date, v1),
        upserted(s1, s2, date, v2),
    ensures
        exists|i: int| 0 <= i < s2.len() && s2[i] == (Measurement { date, value: v2 }),
        forall|i: int, j: int|
            0 <= i < s2.len() && 0 <= j < s2.len() && (#[trigger] s2[i]).date == date && (#[trigger] s2[j]).date
                == date ==> i == j,
        forall|m: Measurement| m.date != date ==> (#[trigger] s2.contains(m) <==> s0.contains(m)),
{
    let m = Measurement { date, value: v2 };
    assert(s2.contains(m));
    assert forall|i: int, j: int|
        0 <= i < s2.len() && 0 <= j < s2.len() && (#[trigger] s2[i]).date == date && (#[trigger] s2[j]).date
            == date implies i == j by {
        if i < j {
            assert(s2[i].date.key() < s2[j].date.key());
        } else if j < i {
            assert(s2[j].date.key() < s2[i].date.key());
        }
    }
    assert forall|x: Measurement| x.date != date implies (#[trigger] s2.contains(x) <==> s0.contains(x)) by {
        assert(s2.contains(x) <==> s1.contains(x));
        assert(s1.contains(x) <==> s0.contains(x));
    }
}

/// The series as stored: one record per date, oldest first.
pub struct Database {
    records: Vec<Measurement>,
}

impl View for Database {
    type V = Seq<Measurement>;

    closed spec fn view(&self) -> Seq<Measurement> {
        self.records@
    }
}

impl Database {
    pub open spec fn wf(&self) -> bool {
        sorted_by_date(self@)
    }

    /// A store with no records.
    pub fn new() -> (r: Database)
        ensures
            r.wf(),
            r@ == Seq::<Measurement>::empty(),
    {
        Database { records: Vec::new() }
    }

    /// Records `value` for `date`, in place of what the date held before.
    pub fn upsert(&mut self, date: Date, value: i64)
        requires
            old(self).wf(),
            date.wf(),
        ensures
            upserted(old(self)@, final(self)@, date, value),
    {
        let key = date.sort_key();
        let m = Measurement { date, value };
        let n = self.records.len();
        let mut i: usize = 0;
        while i < n && self.records[i].date.sort_key() < key
            invariant
                n == self.records@.len(),
                i <= n,
                forall|k: int| 0 <= k < i ==> (#[trigger] self.records@[k]).date.key() < key,
            decreases n - i,
        {
            i = i + 1;
        }
        let ghost before = self.records@;
        if i < n && self.records[i].date.sort_key() == key {
            proof {
                lemma_key_injective(before[i as int].date, date);
            }
            self.records.set(i, m);
            proof {
                let after = self.records@;
                assert forall|x: Measurement| #[trigger] after.contains(x) <==> (x == m || (before.contains(x)
                    && x.date != date)) by {
                    if after.contains(x) {
                        let k = choose|k: int| 0 <= k < after.len() && after[k] == x;
                        if k != i {
                            assert(before[k] == x);
                        }
                    }
                    if before.contains(x) && x.date != date {
                        let k = choose|k: int| 0 <= k < before.len() && before[k] == x;
                        assert(after[k] == x);
                    }
                    if x == m {
                        assert(after[i as int] == x);
                    }
                }
            }
        } else {
            self.records.insert(i, m);
            proof {
                let after = self.records@;
                assert forall|k: int| i <= k < n implies (#[trigger] before[k]).date.key() > key by {
                    if k > i {
                        assert(before[i as int].date.key() < before[k].date.key());
                    }
                }
                assert forall|x: Measurement| #[trigger] after.contains(x) <==> (x == m || (before.contains(x)
                    && x.date != date)) by {
                    if after.contains(x) {
                        let k = choose|k: int| 0 <= k < after.len() && after[k] == x;
                        if k < i {
                            assert(before[k] == x);
                        } else if k > i {
                            assert(before[k - 1] == x);
                        }
                    }
                    if before.contains(x) {
                        let k = choose|k: int| 0 <= k < before.len() && before[k] == x;
                        if k < i {
                            assert(after[k] == x);
                        } else {
                            assert(after[k + 1] == x);
                        }
                    }
                    if x == m {
                        assert(after[i as int] == x);
                    }
                }
            }
        }
    }

    /// The record with the latest date; `NotFound` when there is none.
    pub fn current(&self) -> (r: Result<Measurement, Error>)
        requires
            self.wf(),
        ensures
            r == latest(self@),
            r matches Ok(m) ==> self@.contains(m) && forall|k: int|
                0 <= k < self@.len() ==> (#[trigger] self@[k]).date.key() <= m.date.key(),
    {
        let n = self.records.len();
        if n == 0 {
            Err(Error::NotFound)
        } else {
            let m = self.records[n - 1];
            proof {
                assert(self@[n - 1] == m);
            }
            Ok(m)
        }
    }

    /// Every record, oldest first.
    pub fn raw_series(&self) -> (r: RawSeries)
        ensures
            lists(self@, r),
    {
        let n = self.records.len();
        let mut dates: Vec<Date> = Vec::new();
        let mut weights: Vec<i64> = Vec::new();
        let mut i: usize = 0;
        while i < n
            invariant
                n == self@.len(),
                i <= n,
                dates@.len() == i,
                weights@.len() == i,
                forall|k: int| 0 <= k < i ==> dates@[k] == (#[trigger] self@[k]).date && weights@[k]
                    == self@[k].value,
            decreases n - i,
        {
            dates.push(self.records[i].date);
            weights.push(self.records[i].value);
            i = i + 1;
        }
        RawSeries { dates, weights }
    }
}

} // verus!
