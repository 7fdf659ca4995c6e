//! Collection-level analytics over an ordered series of samples.

use vstd::prelude::*;
use crate::location::{sorted_by_timestamp, Location};

verus! {

/// A location history: after ingestion the records are ordered ascending by
/// timestamp, and the analytic operations rely on that order.
pub type Locations = Vec<Location>;

/// Signed sum of the gaps `timestamp[i-1] - timestamp[i]` over `i in 1..n`.
pub open spec fn gap_sum(s: Seq<Location>, n: int) -> int
    decreases n,
{
    if n <= 1 {
        0
    } else {
        gap_sum(s, n - 1) + (s[n - 2].timestamp - s[n - 1].timestamp)
    }
}

/// Rust's truncating (round-toward-zero) integer division, for a positive
/// divisor.
pub open spec fn div_toward_zero(x: int, d: int) -> int {
    if x >= 0 {
        x / d
    } else {
        -((-x) / d)
    }
}

/// Number of records in `s` with a timestamp strictly below `t`: for a
/// sorted sequence this is the insertion index of `t`.
pub open spec fn count_below(s: Seq<Location>, t: i64) -> int
    decreases s.len(),
{
    if s.len() == 0 {
        0
    } else {
        count_below(s.drop_last(), t) + if s.last().timestamp < t {
            1int
        } else {
            0int
        }
    }
}

/// What the nearest-timestamp search yields on a sorted series: the record at
/// the insertion index `x` of `t`, except that an insertion index of zero
/// without an exact match, or one equal to the length, yields nothing, so the
/// search never reports a boundary record for a target outside the covered
/// range. On an exact match `x` is the index of the first record with that
/// timestamp.
pub open spec fn closest_spec(s: Seq<Location>, t: i64) -> Option<Location> {
    let x = count_below(s, t);
    if x < s.len() && (0 < x || s[x].timestamp == t) {
        Some(s[x])
    } else {
        None
    }
}

/// The series the outlier filter builds from the first `n` records of `s`,
/// when `d[i]` says whether record `i` was judged below the speed limit
/// against the then-last accepted record. Record `0` is the seed and `d[0]`
/// is never consulted.
pub open spec fn filtered(s: Seq<Location>, d: Seq<bool>, n: int) -> Seq<Location>
    decreases n,
{
    if n <= 1 {
        seq![s[0]]
    } else if d[n - 1] {
        filtered(s, d, n - 1).push(s[n - 1])
    } else {
        filtered(s, d, n - 1)
    }
}

/// The filter's output always begins with the seed record, whatever was
/// decided about the others.
pub proof fn lemma_filtered_seed(s: Seq<Location>, d: Seq<bool>, n: int)
    requires
        n >= 1,
    ensures
        filtered(s, d, n).len() >= 1,
        filtered(s, d, n)[0] == s[0],
    decreases n,
{
    if n > 1 {
        lemma_filtered_seed(s, d, n - 1);
    }
}

/// The filter's output over the first `n` records reads only the first `n`
/// decisions.
proof fn lemma_filtered_agree(s: Seq<Location>, d1: Seq<bool>, d2: Seq<bool>, n: int)
    requires
        forall|k: int| 1 <= k < n ==> d1[k] == d2[k],
    ensures
        filtered(s, d1, n) == filtered(s, d2, n),
    decreases n,
{
    if n > 1 {
        lemma_filtered_agree(s, d1, d2, n - 1);
    }
}

/// An index below which every timestamp is under `t` and from which every
/// timestamp is at least `t` is the count of timestamps under `t`.
proof fn lemma_count_below_is(s: Seq<Location>, t: i64, ix: int)
    requires
        0 <= ix <= s.len(),
        forall|k: int| 0 <= k < ix ==> s[k].timestamp < t,
        forall|k: int| ix <= k < s.len() ==> t <= s[k].timestamp,
    ensures
        count_below(s, t) == ix,
    decreases s.len(),
{
    if s.len() > 0 {
        if s.last().timestamp < t {
            assert(ix == s.len());
            lemma_count_below_is(s.drop_last(), t, ix - 1);
        } else {
            assert(ix <= s.len() - 1);
            lemma_count_below_is(s.drop_last(), t, ix);
        }
    }
}

/// On a series sorted ascending by timestamp every gap term
/// `timestamp[i-1] - timestamp[i]` is at most zero, so the gap sum and the
/// average interval are at most zero: a caller reading the average of a
/// sorted series must expect a non-positive value.
pub proof fn lemma_average_interval_sign(s: Seq<Location>, n: int)
    requires
        sorted_by_timestamp(s),
        1 <= n <= s.len(),
    ensures
        gap_sum(s, n) <= 0,
        div_toward_zero(gap_sum(s, n), n) <= 0,
    decreases n,
{
    if n > 1 {
        lemma_average_interval_sign(s, n - 1);
        assert(s[n - 2].timestamp <= s[n - 1].timestamp);
    }
    let x = gap_sum(s, n);
    if x < 0 {
        assert((-x) / n >= 0) by (nonlinear_arith)
            requires
                -x >= 0 && n >= 1,
        ;
    }
}

/// The analytic operations of a location history.
pub trait LocationsExt: Sized {
    /// The records as a mathematical sequence.
    spec fn locs(&self) -> Seq<Location>;

    /// Average signed gap between consecutive records in stored order: the
    /// sum of `timestamp[i-1] - timestamp[i]` divided — truncating, as the
    /// machine divides — by the full record count, not by the count of gaps.
    /// On a series sorted ascending every gap is at most zero, so the result
    /// is at most zero there. The empty series is a caller error, and the
    /// running sums must stay within machine range.
    fn average_time(&self) -> (r: i64)
        requires
            0 < self.locs().len() <= i64::MAX,
            forall|n: int|
                1 <= n <= self.locs().len() ==> i64::MIN <= #[trigger] gap_sum(self.locs(), n)
                    <= i64::MAX,
        ensures
            r == div_toward_zero(
                gap_sum(self.locs(), self.locs().len() as int),
                self.locs().len() as int,
            ),
    ;

    /// Nearest-timestamp lookup over the sorted series, by binary search:
    /// an exact match is returned; a target falling strictly between two
    /// records yields the record just above it; a target before the first
    /// record or after the last yields nothing.
    fn find_closest(&self, time: i64) -> (r: Option<Location>)
        requires
            sorted_by_timestamp(self.locs()),
        ensures
            r == closest_spec(self.locs(), time),
    ;

    /// A single greedy pass that keeps the first record unconditionally and
    /// each later record exactly when `below_limit` judges it plausible
    /// against the last record kept so far — not against the last record
    /// seen, so a rejected record never becomes the comparison baseline.
    fn filter_outliers<F: Fn(Location, Location) -> bool>(self, below_limit: F) -> (r: Locations)
        requires
            self.locs().len() > 0,
            forall|a: Location, b: Location| #[trigger] call_requires(below_limit, (a, b)),
        ensures
            r@.len() >= 1,
            r@[0] == self.locs()[0],
            exists|d: Seq<bool>|
                {
                    &&& d.len() == self.locs().len()
                    &&& r@ == filtered(self.locs(), d, self.locs().len() as int)
                    &&& forall|i: int|
                        1 <= i < d.len() ==> call_ensures(
                            below_limit,
                            (self.locs()[i], filtered(self.locs(), d, i).last()),
                            #[trigger] d[i],
                        )
                },
    ;
}

impl LocationsExt for Vec<Location> {
    open spec fn locs(&self) -> Seq<Location> {
        self@
    }

    fn average_time(&self) -> (r: i64) {
        let len = self.len();
        let mut time: i128 = 0;
        let mut i: usize = 1;
        while i < len
            invariant
                1 <= i <= len,
                len == self@.len(),
                0 < len <= i64::MAX,
                time == gap_sum(self@, i as int),
                forall|n: int|
                    1 <= n <= len ==> i64::MIN <= #[trigger] gap_sum(self@, n) <= i64::MAX,
            decreases len - i,
        {
            let prev = self[i - 1].timestamp;
            let cur = self[i].timestamp;
            proof {
                assert(gap_sum(self@, i + 1) == gap_sum(self@, i as int) + (prev - cur));
            }
            time = time + (prev as i128) - (cur as i128);
            i += 1;
        }
        let total: i64 = time as i64;
        let count: i64 = len as i64;
        proof {
            lemma_div_in_range(total as int, count as int);
        }
        match total.checked_div(count) {
            Some(q) => q,
            None => {
                proof {
                    assert(false);
                }
                0
            },
        }
    }

    fn find_closest(&self, time: i64) -> (r: Option<Location>) {
        let len = self.len();
        let mut lo: usize = 0;
        let mut hi: usize = len;
        while lo < hi
            invariant
                lo <= hi <= len,
                len == self@.len(),
                sorted_by_timestamp(self@),
                forall|k: int| 0 <= k < lo ==> self@[k].timestamp < time,
                forall|k: int| hi <= k < len ==> time <= self@[k].timestamp,
            decreases hi - lo,
        {
            let mid = lo + (hi - lo) / 2;
            if self[mid].timestamp < time {
                lo = mid + 1;
            } else {
                hi = mid;
            }
        }
        proof {
            lemma_count_below_is(self@, time, lo as int);
        }
        if lo < len && (lo > 0 || self[lo].timestamp == time) {
            Some(self[lo])
        } else {
            None
        }
    }

    fn filter_outliers<F: Fn(Location, Location) -> bool>(self, below_limit: F) -> (r: Locations) {
        let mut tmp: Vec<Location> = Vec::new();
        tmp.push(self[0]);
        let ghost mut d: Seq<bool> = seq![false];
        let mut i: usize = 1;
        while i < self.len()
            invariant
                1 <= i <= self@.len(),
                forall|a: Location, b: Location| #[trigger] call_requires(below_limit, (a, b)),
                d.len() == i,
                tmp@ == filtered(self@, d, i as int),
                forall|k: int|
                    1 <= k < i ==> call_ensures(
                        below_limit,
                        (self@[k], filtered(self@, d, k).last()),
                        #[trigger] d[k],
                    ),
            decreases self@.len() - i,
        {
            proof {
                lemma_filtered_seed(self@, d, i as int);
            }
            let base = tmp[tmp.len() - 1];
            let ok = below_limit(self[i], base);
            proof {
                let d2 = d.push(ok);
                lemma_filtered_agree(self@, d, d2, i as int);
                assert forall|k: int| 1 <= k < i implies filtered(self@, d2, k) == filtered(
                    self@,
                    d,
                    k,
                ) by {
                    lemma_filtered_agree(self@, d, d2, k);
                }
                d = d2;
            }
            if ok {
                tmp.push(self[i]);
            }
            i += 1;
        }
        proof {
            lemma_filtered_seed(self@, d, self@.len() as int);
        }
        tmp
    }
}

/// For a divisor of at least one, truncating division never leaves the
/// machine range of its dividend's type.
pub proof fn lemma_div_in_range(x: int, d: int)
    requires
        i64::MIN <= x <= i64::MAX,
        1 <= d <= i64::MAX,
    ensures
        i64::MIN <= div_toward_zero(x, d) <= i64::MAX,
{
    if x >= 0 {
        assert(0 <= x / d <= x) by (nonlinear_arith)
            requires
                x >= 0 && d >= 1,
        ;
    } else {
        assert(0 <= (-x) / d <= -x) by (nonlinear_arith)
            requires
                -x >= 0 && d >= 1,
        ;
    }
}

} // verus!
