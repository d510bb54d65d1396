//! The textual distribution sketch of a group: one line per quantile bucket,
//! up to the first bucket past the 95th percentile.
use vstd::prelude::*;
use hdrhistogram::Histogram;

verus! {

/// A histogram of durations. Verus refuses to declare `hdrhistogram::Histogram`
/// itself (its struct bound is an outside trait), so it is held here unseen.
#[verifier::external_body]
pub struct Hist {
    h: Histogram<u64>,
}

/// Relies on `Histogram::new`: a histogram with one significant decimal
/// digit of precision, or `None` where it cannot be made.
#[verifier::external_body]
fn new_histogram() -> (h: Option<Hist>) {
    Histogram::<u64>::new(1).ok().map(|h| Hist { h })
}

/// Relies on `Histogram::record`: adds one sample; `false` where the value is
/// out of the trackable range.
#[verifier::external_body]
fn record_value(h: &mut Hist, v: u64) -> (ok: bool) {
    h.h.record(v).is_ok()
}

/// Relies on `Histogram::len`: the number of samples recorded.
#[verifier::external_body]
fn sample_count(h: &Hist) -> u64 {
    h.h.len()
}

/// Relies on `Histogram::iter_quantiles(10)`: for each quantile bucket in
/// increasing order, the highest value it covers and the number of samples
/// since the previous bucket.
#[verifier::external_body]
fn quantile_buckets(h: &Hist) -> Vec<(u64, u64)> {
    h.h.iter_quantiles(10).map(|v| (v.value_iterated_to(), v.count_since_last_iteration())).collect()
}

/// Width of a full line of the sketch.
pub const BAR_WIDTH: u64 = 40;

/// The number of samples in the first `k` buckets.
pub open spec fn cumulative(b: Seq<(u64, u64)>, k: int) -> int
    decreases k,
{
    if k <= 0 {
        0
    } else {
        cumulative(b, k - 1) + b[k - 1].1
    }
}

/// Whether the first `k` buckets hold more than 95% of `total` samples.
pub open spec fn past_p95(b: Seq<(u64, u64)>, k: int, total: u64) -> bool {
    cumulative(b, k) * 20 > total * 19
}

/// The number of lines shown: up to and including the first bucket past the
/// 95th percentile, or every bucket where none is.
pub open spec fn shown(b: Seq<(u64, u64)>, total: u64, k: int) -> bool {
    &&& 0 <= k <= b.len()
    &&& forall|j: int| 1 <= j < k ==> !past_p95(b, j, total)
    &&& (k < b.len() ==> 1 <= k && past_p95(b, k, total))
}

/// One line of the sketch: the bucket's ceiling in thousands (microseconds
/// for nanosecond samples) and its bar, its share of a full line rounded up.
pub open spec fn row_of(bucket: (u64, u64), total: u64) -> (u64, u64) {
    (
        ((bucket.0 + 1) / 1000) as u64,
        ((bucket.1 * BAR_WIDTH + total - 1) / total as int) as u64,
    )
}

/// The lines of the sketch for the given buckets of `total` samples.
pub fn sketch_rows(b: &Vec<(u64, u64)>, total: u64) -> (rows: Vec<(u64, u64)>)
    requires
        total > 0,
        forall|k: int| 0 <= k < b@.len() ==> (#[trigger] b@[k]).1 <= total,
    ensures
        shown(b@, total, rows@.len() as int),
        forall|k: int| 0 <= k < rows@.len() ==> rows@[k] == row_of(#[trigger] b@[k], total),
{
    let mut rows: Vec<(u64, u64)> = Vec::new();
    let mut cum: u128 = 0;
    let mut i: usize = 0;
    while i < b.len()
        invariant
            i <= b@.len(),
            rows@.len() == i,
            total > 0,
            forall|k: int| 0 <= k < b@.len() ==> (#[trigger] b@[k]).1 <= total,
            cum == cumulative(b@, i as int),
            cum * 20 <= total * 19,
            forall|j: int| 1 <= j <= i ==> !past_p95(b@, j, total),
            forall|k: int| 0 <= k < i ==> rows@[k] == row_of(#[trigger] b@[k], total),
        decreases b@.len() - i,
    {
        let (value, count) = b[i];
        let ceiling: u64 = ((value as u128 + 1) / 1000) as u64;
        let t: u128 = total as u128;
        let n: u128 = count as u128 * 40 + t - 1;
        let width: u128 = n / t;
        proof {
            assert(count <= total);
            let (ni, ti) = (n as int, t as int);
            assert(ni <= ti * 41 + 0);
            vstd::arithmetic::div_mod::lemma_div_is_ordered(ni, ti * 41 + 0, ti);
            vstd::arithmetic::div_mod::lemma_div_multiples_vanish_fancy(41, 0, ti);
            assert(width <= 41);
        }
        rows.push((ceiling, width as u64));
        cum = cum + count as u128;
        i = i + 1;
        if cum * 20 > total as u128 * 19 {
            return rows;
        }
    }
    proof {
        assert(rows@.len() == b@.len());
    }
    rows
}

/// The sketch of a group: its durations go into a histogram, whose quantile
/// buckets are cut into lines as `sketch_rows` says. `None` where the
/// histogram cannot take a value or reports more samples in a bucket than in
/// all.
pub fn duration_sketch(ys: &Vec<u64>) -> (rows: Option<Vec<(u64, u64)>>)
    ensures
        ys@.len() == 0 ==> rows is None,
{
    if ys.len() == 0 {
        return None;
    }
    let mut h = match new_histogram() {
        Some(h) => h,
        None => return None,
    };
    let mut i: usize = 0;
    while i < ys.len()
        invariant
            i <= ys@.len(),
        decreases ys@.len() - i,
    {
        if !record_value(&mut h, ys[i]) {
            return None;
        }
        i = i + 1;
    }
    let total = sample_count(&h);
    let b = quantile_buckets(&h);
    if total == 0 {
        return None;
    }
    let mut k: usize = 0;
    while k < b.len()
        invariant
            k <= b@.len(),
            forall|j: int| 0 <= j < k ==> (#[trigger] b@[j]).1 <= total,
        decreases b@.len() - k,
    {
        if b[k].1 > total {
            return None;
        }
        k = k + 1;
    }
    Some(sketch_rows(&b, total))
}

} // verus!
