//! Ingestion: JSON text to a sorted location series.

use vstd::prelude::*;
use vstd::multiset::Multiset;
use crate::jsonio;
use crate::location::{sorted_by_timestamp, Location};
use crate::series::{div_toward_zero, lemma_div_in_range, Locations};

verus! {

/// Why ingestion rejected its input.
#[derive(Clone, Copy, Debug, PartialEq, Eq)]
pub enum IngestError {
    /// The text is not valid JSON.
    BadJson,
    /// The document has no `locations` key with an array under it.
    MissingLocations,
    /// A sample lacks a required field, or a field has the wrong shape or
    /// does not fit its target type.
    BadField,
}

/// The raw fields of one sample object, exactly as the export carries them:
/// a field that is absent or wrongly typed is an absent value. The altitude
/// distinguishes an absent field (`None`) from one that is present but not
/// an integer (`Some(None)`), since only the former is allowed.
pub struct RawSample {
    /// The `timestampMs` field, when it is a string.
    pub timestamp_ms: Option<String>,
    /// The `latitudeE7` field, when it is an integer.
    pub latitude_e7: Option<i64>,
    /// The `longitudeE7` field, when it is an integer.
    pub longitude_e7: Option<i64>,
    /// The `accuracy` field, when it is an integer.
    pub accuracy: Option<i64>,
    /// The `altitude` field: absent, present as an integer, or present as
    /// something else.
    pub altitude: Option<Option<i64>>,
}

/// The mathematical image of a raw sample: the same five fields over plain
/// values.
pub struct RawSampleView {
    /// The `timestampMs` string's characters.
    pub timestamp_ms: Option<Seq<char>>,
    /// The `latitudeE7` integer.
    pub latitude_e7: Option<i64>,
    /// The `longitudeE7` integer.
    pub longitude_e7: Option<i64>,
    /// The `accuracy` integer.
    pub accuracy: Option<i64>,
    /// The `altitude` field, in the encoding of [`RawSample::altitude`].
    pub altitude: Option<Option<i64>>,
}

impl View for RawSample {
    type V = RawSampleView;

    open spec fn view(&self) -> RawSampleView {
        RawSampleView {
            timestamp_ms: match self.timestamp_ms {
                Some(s) => Some(s@),
                None => None,
            },
            latitude_e7: self.latitude_e7,
            longitude_e7: self.longitude_e7,
            accuracy: self.accuracy,
            altitude: self.altitude,
        }
    }
}

/// What the JSON parse of an export yields: nothing when the text is not
/// JSON, `Some(None)` when it is JSON without a top-level `locations` array,
/// and otherwise the raw fields of each sample in the array's order. The
/// parse is a function of the text alone; the trusted extraction wrapper's
/// contract ties its result to this name.
pub uninterp spec fn export_samples(s: Seq<char>) -> Option<Option<Seq<RawSampleView>>>;

/// Whether one raw sample is well-formed: the required fields are present
/// with their required shapes, the timestamp string is a base-10 integer in
/// machine range, and the meter fields fit their 32-bit targets.
pub open spec fn sample_ok(m: RawSampleView) -> bool {
    &&& m.timestamp_ms matches Some(t) && is_i64_str(t)
    &&& m.latitude_e7 is Some
    &&& m.longitude_e7 is Some
    &&& m.accuracy matches Some(a) && fits_i32(a)
    &&& match m.altitude {
        None => true,
        Some(alt) => alt matches Some(a) && fits_i32(a),
    }
}

/// The record a well-formed raw sample becomes: milliseconds truncated to
/// whole seconds, the fixed-point coordinates kept verbatim, the meter
/// fields narrowed to their 32-bit targets.
pub open spec fn sample_spec(m: RawSampleView) -> Location {
    Location {
        timestamp: div_toward_zero(int_str_val(m.timestamp_ms->Some_0), 1000) as i64,
        latitude_e7: m.latitude_e7->Some_0,
        longitude_e7: m.longitude_e7->Some_0,
        accuracy: (m.accuracy->Some_0) as i32,
        altitude: match m.altitude {
            Some(Some(a)) => Some(a as i32),
            _ => None,
        },
    }
}

/// A decimal digit.
pub open spec fn is_digit(c: char) -> bool {
    '0' <= c && c <= '9'
}

/// The numeric value of one digit.
pub open spec fn digit_val(c: char) -> int {
    c as int - '0' as int
}

/// A non-empty run of decimal digits.
pub open spec fn all_digits(s: Seq<char>) -> bool {
    s.len() > 0 && forall|i: int| 0 <= i < s.len() ==> is_digit(#[trigger] s[i])
}

/// The base-10 value of a digit run.
pub open spec fn digits_val(s: Seq<char>) -> int
    decreases s.len(),
{
    if s.len() == 0 {
        0
    } else {
        digits_val(s.drop_last()) * 10 + digit_val(s.last())
    }
}

/// `s` without its optional leading sign.
pub open spec fn int_str_body(s: Seq<char>) -> Seq<char> {
    if s.len() > 0 && (s[0] == '+' || s[0] == '-') {
        s.subrange(1, s.len() as int)
    } else {
        s
    }
}

/// Whether `s` carries a minus sign.
pub open spec fn int_str_negative(s: Seq<char>) -> bool {
    s.len() > 0 && s[0] == '-'
}

/// The integer `s` denotes: the signed value of its digits.
pub open spec fn int_str_val(s: Seq<char>) -> int {
    if int_str_negative(s) {
        -digits_val(int_str_body(s))
    } else {
        digits_val(int_str_body(s))
    }
}

/// Whether `s` is a base-10 integer — an optional sign and at least one
/// digit — whose value fits a 64-bit signed integer.
pub open spec fn is_i64_str(s: Seq<char>) -> bool {
    all_digits(int_str_body(s)) && i64::MIN <= int_str_val(s) <= i64::MAX
}

/// A digit run denotes a non-negative value.
proof fn lemma_digits_val_nonneg(s: Seq<char>)
    requires
        forall|i: int| 0 <= i < s.len() ==> is_digit(#[trigger] s[i]),
    ensures
        digits_val(s) >= 0,
    decreases s.len(),
{
    if s.len() > 0 {
        lemma_digits_val_nonneg(s.drop_last());
    }
}

/// Dropping trailing digits never increases the value of a digit run.
proof fn lemma_digits_val_prefix_le(s: Seq<char>, k: int)
    requires
        forall|i: int| 0 <= i < s.len() ==> is_digit(#[trigger] s[i]),
        0 <= k <= s.len(),
    ensures
        digits_val(s.subrange(0, k)) <= digits_val(s),
    decreases s.len(),
{
    if k == s.len() {
        assert(s.subrange(0, k) =~= s);
    } else {
        lemma_digits_val_prefix_le(s.drop_last(), k);
        assert(s.drop_last().subrange(0, k) =~= s.subrange(0, k));
        lemma_digits_val_nonneg(s.drop_last());
    }
}

/// Parses an optionally signed base-10 integer, exactly when `s` is one and
/// its value fits.
pub fn parse_i64(s: &str) -> (r: Option<i64>)
    ensures
        r is Some <==> is_i64_str(s@),
        r matches Some(v) ==> v == int_str_val(s@),
{
    let n = s.unicode_len();
    if n == 0 {
        return None;
    }
    let first = s.get_char(0);
    let neg = first == '-';
    let has_sign = neg || first == '+';
    let start: usize = if has_sign {
        1
    } else {
        0
    };
    proof {
        assert(int_str_body(s@) =~= s@.subrange(start as int, n as int));
    }
    if start == n {
        return None;
    }
    let ghost body = s@.subrange(start as int, n as int);
    let mut acc: i64 = 0;
    let mut i: usize = start;
    while i < n
        invariant
            start <= i <= n,
            n == s@.len(),
            start < n,
            start == 0 || start == 1,
            body == s@.subrange(start as int, n as int),
            body == int_str_body(s@),
            forall|k: int| start <= k < i ==> is_digit(#[trigger] s@[k]),
            acc == -digits_val(s@.subrange(start as int, i as int)),
            acc <= 0,
        decreases n - i,
    {
        let c = s.get_char(i);
        let ghost prefix = s@.subrange(start as int, i as int);
        let ghost prefix2 = s@.subrange(start as int, i as int + 1);
        proof {
            assert(prefix2.drop_last() =~= prefix);
            assert(prefix2.last() == s@[i as int]);
        }
        if !('0' <= c && c <= '9') {
            proof {
                assert(body[i - start] == s@[i as int]);
                assert(!all_digits(body));
            }
            return None;
        }
        let dv: i64 = (c as u32 as i64) - 48;
        let stepped = match acc.checked_mul(10) {
            Some(a) => a.checked_sub(dv),
            None => None,
        };
        match stepped {
            Some(a) => {
                acc = a;
            },
            None => {
                proof {
                    // The value of the digits read so far already exceeds the
                    // machine range; more digits only grow it.
                    assert(digits_val(prefix2) == digits_val(prefix) * 10 + digit_val(s@[i as int]));
                    if all_digits(body) {
                        assert(forall|k: int| 0 <= k < body.len() ==> is_digit(#[trigger] body[k]));
                        assert(prefix2 =~= body.subrange(0, i - start + 1));
                        lemma_digits_val_prefix_le(body, i - start + 1);
                        assert(digits_val(body) >= digits_val(prefix2));
                    }
                }
                return None;
            },
        }
        i += 1;
    }
    proof {
        assert(s@.subrange(start as int, n as int) =~= body);
        assert(all_digits(body));
        assert(acc == -digits_val(body));
    }
    if neg {
        Some(acc)
    } else {
        if acc == i64::MIN {
            // The digits denote exactly one more than the largest positive
            // value, and the sign is positive.
            None
        } else {
            Some(-acc)
        }
    }
}

/// Whether a raw integer field fits the 32-bit field it is destined for.
pub open spec fn fits_i32(v: i64) -> bool {
    i32::MIN <= v <= i32::MAX
}

/// Builds one record from the raw fields of one sample object, performing
/// the unit conversions of ingestion: the millisecond timestamp string is
/// read as a base-10 integer and divided by 1000, truncating, to whole
/// seconds; the fixed-point coordinates are kept as they are; the integer
/// meter fields must fit their 32-bit targets.
pub fn location_from_fields(
    timestamp_ms: &str,
    latitude_e7: i64,
    longitude_e7: i64,
    accuracy: i64,
    altitude: Option<i64>,
) -> (r: Result<Location, IngestError>)
    ensures
        r is Ok <==> (is_i64_str(timestamp_ms@) && fits_i32(accuracy) && (altitude matches Some(a)
            ==> fits_i32(a))),
        r matches Ok(loc) ==> {
            &&& loc.timestamp == div_toward_zero(int_str_val(timestamp_ms@), 1000)
            &&& loc.latitude_e7 == latitude_e7
            &&& loc.longitude_e7 == longitude_e7
            &&& loc.accuracy == accuracy as i32
            &&& loc.altitude == (match altitude {
                Some(a) => Some(a as i32),
                None => None,
            })
        },
        r is Err ==> r == Err::<Location, IngestError>(IngestError::BadField),
{
    let ms = match parse_i64(timestamp_ms) {
        Some(v) => v,
        None => {
            return Err(IngestError::BadField);
        },
    };
    proof {
        lemma_div_in_range(ms as int, 1000);
    }
    let ts = match ms.checked_div(1000) {
        Some(q) => q,
        None => {
            proof {
                assert(false);
            }
            0
        },
    };
    if !(i32::MIN as i64 <= accuracy && accuracy <= i32::MAX as i64) {
        return Err(IngestError::BadField);
    }
    let acc32: i32 = accuracy as i32;
    let alt32: Option<i32> = match altitude {
        Some(a) => {
            if i32::MIN as i64 <= a && a <= i32::MAX as i64 {
                Some(a as i32)
            } else {
                return Err(IngestError::BadField);
            }
        },
        None => None,
    };
    Ok(
        Location {
            timestamp: ts,
            latitude_e7,
            longitude_e7,
            accuracy: acc32,
            altitude: alt32,
        },
    )
}

/// The predicate selecting records at timestamp `t`.
pub open spec fn ts_pred(t: i64) -> spec_fn(Location) -> bool {
    |l: Location| l.timestamp == t
}

/// The records of `s` carrying timestamp `t`, in their order in `s`.
pub open spec fn with_timestamp(s: Seq<Location>, t: i64) -> Seq<Location> {
    s.filter(ts_pred(t))
}

/// Concatenation splits `with_timestamp` apart.
proof fn lemma_with_timestamp_add(s1: Seq<Location>, s2: Seq<Location>, t: i64)
    ensures
        with_timestamp(s1 + s2, t) == with_timestamp(s1, t) + with_timestamp(s2, t),
{
    Seq::filter_distributes_over_add(s1, s2, ts_pred(t));
}

/// `with_timestamp` of one record.
proof fn lemma_with_timestamp_single(x: Location, t: i64)
    ensures
        with_timestamp(seq![x], t) == if x.timestamp == t {
            seq![x]
        } else {
            Seq::<Location>::empty()
        },
{
    reveal_with_fuel(Seq::filter, 2);
    assert(seq![x].drop_last() =~= Seq::<Location>::empty());
    if x.timestamp == t {
        assert(Seq::<Location>::empty().push(x) =~= seq![x]);
    }
}

/// A sequence with no record at timestamp `t` contributes nothing to
/// `with_timestamp`.
proof fn lemma_with_timestamp_none(s: Seq<Location>, t: i64)
    requires
        forall|k: int| 0 <= k < s.len() ==> s[k].timestamp != t,
    ensures
        with_timestamp(s, t) == Seq::<Location>::empty(),
    decreases s.len(),
{
    reveal_with_fuel(Seq::filter, 2);
    if s.len() == 0 {
        assert(s =~= Seq::<Location>::empty());
    } else {
        lemma_with_timestamp_none(s.drop_last(), t);
    }
}

/// Moving the first record with the minimal timestamp from the unsorted rest
/// to the end of the sorted prefix leaves, for every timestamp, the combined
/// run of records at that timestamp unchanged: the records before index `m`
/// all carry strictly greater timestamps, so none of them is jumped over.
proof fn lemma_sort_stable_step(old_out: Seq<Location>, pre: Seq<Location>, m: int)
    requires
        0 <= m < pre.len(),
        forall|k: int| 0 <= k < m ==> pre[k].timestamp > pre[m].timestamp,
    ensures
        forall|t: i64|
            #[trigger] with_timestamp(old_out.push(pre[m]), t) + with_timestamp(
                pre.remove(m),
                t,
            ) == with_timestamp(old_out, t) + with_timestamp(pre, t),
{
    let x = pre[m];
    let a = pre.subrange(0, m);
    let b = pre.subrange(m + 1, pre.len() as int);
    assert(pre =~= a + (seq![x] + b));
    assert(pre.remove(m) =~= a + b);
    assert(old_out.push(x) =~= old_out + seq![x]);
    assert forall|t: i64|
        #[trigger] with_timestamp(old_out.push(x), t) + with_timestamp(pre.remove(m), t)
            == with_timestamp(old_out, t) + with_timestamp(pre, t) by {
        lemma_with_timestamp_add(a, seq![x] + b, t);
        lemma_with_timestamp_add(seq![x], b, t);
        lemma_with_timestamp_add(a, b, t);
        lemma_with_timestamp_add(old_out, seq![x], t);
        lemma_with_timestamp_single(x, t);
        let wo = with_timestamp(old_out, t);
        let wa = with_timestamp(a, t);
        let wb = with_timestamp(b, t);
        if x.timestamp == t {
            lemma_with_timestamp_none(a, t);
            assert((wo + seq![x]) + (wa + wb) =~= wo + (wa + (seq![x] + wb)));
        } else {
            assert((wo + Seq::<Location>::empty()) + (wa + wb) =~= wo + (wa + (
            Seq::<Location>::empty() + wb)));
        }
    }
}

/// Sorts the records ascending by timestamp. The records themselves are
/// kept — the result holds the same records, as a multiset, as the input —
/// and the sort is stable: for every timestamp, the records carrying it
/// keep their relative input order.
pub fn sort_by_timestamp(v: &mut Locations)
    ensures
        sorted_by_timestamp(final(v)@),
        final(v)@.to_multiset() == old(v)@.to_multiset(),
        forall|t: i64| #[trigger] with_timestamp(final(v)@, t) == with_timestamp(old(v)@, t),
{
    broadcast use vstd::seq_lib::group_to_multiset_ensures;
    broadcast use vstd::multiset::group_multiset_axioms;

    let ghost orig = v@;
    let mut out: Vec<Location> = Vec::new();
    proof {
        assert forall|t: i64|
            #[trigger] with_timestamp(out@, t) + with_timestamp(v@, t) == with_timestamp(
                orig,
                t,
            ) by {
            reveal_with_fuel(Seq::filter, 1);
            assert(with_timestamp(out@, t) =~= Seq::<Location>::empty());
            assert(with_timestamp(out@, t) + with_timestamp(v@, t) =~= with_timestamp(v@, t));
        }
    }
    while v.len() > 0
        invariant
            out@.to_multiset().add(v@.to_multiset()) == orig.to_multiset(),
            sorted_by_timestamp(out@),
            forall|p: int, q: int|
                0 <= p < out@.len() && 0 <= q < v@.len() ==> out@[p].timestamp
                    <= v@[q].timestamp,
            forall|t: i64|
                #[trigger] with_timestamp(out@, t) + with_timestamp(v@, t) == with_timestamp(
                    orig,
                    t,
                ),
        decreases v.len(),
    {
        let mut m: usize = 0;
        let mut j: usize = 1;
        while j < v.len()
            invariant
                m < v@.len(),
                1 <= j <= v@.len(),
                forall|k: int| 0 <= k < j ==> v@[m as int].timestamp <= v@[k].timestamp,
                forall|k: int| 0 <= k < m ==> v@[k].timestamp > v@[m as int].timestamp,
            decreases v.len() - j,
        {
            if v[j].timestamp < v[m].timestamp {
                m = j;
            }
            j += 1;
        }
        let ghost pre = v@;
        let ghost old_out = out@;
        let x = v.remove(m);
        out.push(x);
        proof {
            old_out.to_multiset_ensures();
            pre.to_multiset_ensures();
            assert(old_out.push(x).to_multiset() == old_out.to_multiset().insert(x));
            assert(pre.remove(m as int).to_multiset() == pre.to_multiset().remove(pre[m as int]));
            assert(pre.contains(pre[m as int]));
            assert(pre.to_multiset().count(pre[m as int]) > 0);
            assert forall|e: Location|
                out@.to_multiset().add(v@.to_multiset()).count(e) == orig.to_multiset().count(
                    e,
                ) by {
                assert(orig.to_multiset().count(e) == old_out.to_multiset().count(e)
                    + pre.to_multiset().count(e));
                assert(out@.to_multiset().count(e) == old_out.to_multiset().count(e)
                    + Multiset::singleton(x).count(e));
                assert(v@.to_multiset().count(e) == pre.to_multiset().count(e)
                    - Multiset::singleton(x).count(e));
            }
            assert(out@.to_multiset().add(v@.to_multiset()) =~= orig.to_multiset());
            lemma_sort_stable_step(old_out, pre, m as int);
            assert(out@ == old_out.push(x));
            assert(v@ == pre.remove(m as int));
        }
    }
    proof {
        assert(out@.to_multiset().add(v@.to_multiset()) =~= out@.to_multiset()) by {
            assert(v@.to_multiset() =~= Multiset::empty());
        }
        assert forall|t: i64| #[trigger] with_timestamp(out@, t) == with_timestamp(orig, t) by {
            reveal_with_fuel(Seq::filter, 1);
            assert(with_timestamp(v@, t) == v@);
            assert(with_timestamp(out@, t) + with_timestamp(v@, t) =~= with_timestamp(out@, t));
        }
    }
    *v = out;
}

/// Converts one raw sample into a record, exactly when [`sample_ok`] holds
/// of it; the record is then exactly [`sample_spec`] of it. Any missing or
/// wrongly shaped field is a [`IngestError::BadField`].
pub fn location_from_raw(raw: &RawSample) -> (r: Result<Location, IngestError>)
    ensures
        r is Ok <==> sample_ok(raw@),
        r matches Ok(loc) ==> loc == sample_spec(raw@),
        r is Err ==> r == Err::<Location, IngestError>(IngestError::BadField),
{
    let ts_s = match &raw.timestamp_ms {
        Some(s) => s,
        None => {
            return Err(IngestError::BadField);
        },
    };
    let lat = match raw.latitude_e7 {
        Some(n) => n,
        None => {
            return Err(IngestError::BadField);
        },
    };
    let lon = match raw.longitude_e7 {
        Some(n) => n,
        None => {
            return Err(IngestError::BadField);
        },
    };
    let acc = match raw.accuracy {
        Some(n) => n,
        None => {
            return Err(IngestError::BadField);
        },
    };
    let alt: Option<i64> = match raw.altitude {
        None => None,
        Some(None) => {
            return Err(IngestError::BadField);
        },
        Some(Some(a)) => Some(a),
    };
    location_from_fields(ts_s.as_str(), lat, lon, acc, alt)
}

/// Parses a location-history export: JSON text whose top level holds a
/// `locations` array of sample objects. Each sample must supply
/// `timestampMs` (a base-10 integer string, milliseconds), `latitudeE7` and
/// `longitudeE7` (which must be JSON integers — a fractional or
/// exponent-form coordinate is rejected), `accuracy` (integer meters) and
/// may supply `altitude` (integer meters). Malformed text or a malformed
/// field is reported, not repaired; nothing partial comes back, and the
/// error tells bad JSON, a missing `locations` array and a bad field apart.
/// On success the records are exactly the conversions of the parsed
/// samples, sorted ascending by timestamp — the order every later analysis
/// relies on.
pub fn deserialize(from: &str) -> (r: Result<Locations, IngestError>)
    ensures
        ({
            let ex = export_samples(from@);
            match r {
                Ok(locs) => ex matches Some(Some(m)) && {
                    &&& forall|i: int| 0 <= i < m.len() ==> sample_ok(#[trigger] m[i])
                    &&& sorted_by_timestamp(locs@)
                    &&& locs@.to_multiset() == m.map_values(
                        |x: RawSampleView| sample_spec(x),
                    ).to_multiset()
                    &&& forall|t: i64|
                        #[trigger] with_timestamp(locs@, t) == with_timestamp(
                            m.map_values(|x: RawSampleView| sample_spec(x)),
                            t,
                        )
                },
                Err(e) => match e {
                    IngestError::BadJson => ex is None,
                    IngestError::MissingLocations => ex matches Some(None),
                    IngestError::BadField => ex matches Some(Some(m)) && (exists|i: int|
                        0 <= i < m.len() && !sample_ok(#[trigger] m[i])),
                },
            }
        }),
{
    let samples: Vec<RawSample> = match jsonio::extract_samples(from) {
        Some(Some(v)) => v,
        Some(None) => {
            return Err(IngestError::MissingLocations);
        },
        None => {
            return Err(IngestError::BadJson);
        },
    };
    let ghost m = (export_samples(from@)->Some_0)->Some_0;
    let mut locs: Locations = Vec::new();
    let mut idx: usize = 0;
    while idx < samples.len()
        invariant
            idx <= samples@.len(),
            samples@.len() == m.len(),
            forall|i: int| 0 <= i < m.len() ==> samples@[i]@ == m[i],
            export_samples(from@) matches Some(Some(m2)) && m2 == m,
            forall|k: int| 0 <= k < idx ==> sample_ok(#[trigger] m[k]),
            locs@.len() == idx,
            forall|k: int| 0 <= k < idx ==> locs@[k] == sample_spec(#[trigger] m[k]),
        decreases samples@.len() - idx,
    {
        match location_from_raw(&samples[idx]) {
            Ok(loc) => locs.push(loc),
            Err(e) => {
                proof {
                    assert(!sample_ok(m[idx as int]));
                }
                return Err(e);
            },
        }
        idx += 1;
    }
    proof {
        assert(locs@ =~= m.map_values(|x: RawSampleView| sample_spec(x)));
    }
    sort_by_timestamp(&mut locs);
    Ok(locs)
}

} // verus!
