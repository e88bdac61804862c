//! The read side: loose timestamp parsing for request bounds, and the
//! range request answered namespace by namespace.

use vstd::prelude::*;
use vstd::string::StrSliceExecFns;
use chrono::TimeZone;
use crate::event::Event;
use crate::patterns::EventPattern;
use crate::store::{range_result_ok, EventStore, StoreError};

verus! {

pub open spec fn is_digit(c: char) -> bool {
    48 <= c as u32 <= 57
}

pub open spec fn all_digits(s: Seq<char>) -> bool {
    forall|i: int| 0 <= i < s.len() ==> is_digit(#[trigger] s[i])
}

/// The number a digit string denotes.
pub open spec fn dec_val(s: Seq<char>) -> int
    decreases s.len(),
{
    if s.len() == 0 {
        0
    } else {
        dec_val(s.drop_last()) * 10 + (s.last() as u32 - 48)
    }
}

/// Decimal reading of a timestamp: defined exactly on nonempty strings
/// of digits whose value fits 64 bits.
pub open spec fn spec_parse_u64(s: Seq<char>) -> Option<u64> {
    if s.len() > 0 && all_digits(s) && dec_val(s) <= u64::MAX {
        Some(dec_val(s) as u64)
    } else {
        None
    }
}

proof fn lemma_dec_val_nonneg(s: Seq<char>)
    requires
        all_digits(s),
    ensures
        dec_val(s) >= 0,
    decreases s.len(),
{
    if s.len() > 0 {
        assert(all_digits(s.drop_last())) by {
            assert(forall|i: int| 0 <= i < s.len() - 1 ==> s.drop_last()[i] == s[i]);
        }
        lemma_dec_val_nonneg(s.drop_last());
        assert(is_digit(s.last()));
    }
}

proof fn lemma_dec_val_grows(s: Seq<char>, i: int)
    requires
        all_digits(s),
        0 <= i <= s.len(),
    ensures
        dec_val(s) >= dec_val(s.take(i)),
    decreases s.len() - i,
{
    if i == s.len() {
        assert(s.take(i) =~= s);
    } else {
        assert(s.take(i + 1).drop_last() =~= s.take(i));
        assert(s.take(i + 1).last() == s[i]);
        assert(all_digits(s.take(i))) by {
            assert(forall|k: int| 0 <= k < i ==> s.take(i)[k] == s[k]);
        }
        lemma_dec_val_nonneg(s.take(i));
        assert(is_digit(s[i]));
        assert(dec_val(s.take(i + 1)) >= dec_val(s.take(i)));
        lemma_dec_val_grows(s, i + 1);
    }
}

/// Reads a nonnegative decimal count of seconds, exactly when the whole
/// text is digits and the value fits.
pub fn parse_u64(s: &str) -> (r: Option<u64>)
    ensures
        r == spec_parse_u64(s@),
{
    let n = s.unicode_len();
    if n == 0 {
        return None;
    }
    let mut val: u64 = 0;
    let mut i: usize = 0;
    while i < n
        invariant
            n == s@.len(),
            i <= n,
            all_digits(s@.take(i as int)),
            val == dec_val(s@.take(i as int)),
        decreases n - i,
    {
        let c = s.get_char(i);
        let d32 = c as u32;
        proof {
            assert(s@.take(i as int + 1).drop_last() =~= s@.take(i as int));
            assert(s@.take(i as int + 1).last() == s@[i as int]);
        }
        if d32 < 48 || d32 > 57 {
            proof {
                assert(!is_digit(s@[i as int]));
                assert(!all_digits(s@));
            }
            return None;
        }
        let d = (d32 - 48) as u64;
        if val > (u64::MAX - d) / 10 {
            proof {
                assert(all_digits(s@.take(i as int + 1))) by {
                    assert(forall|k: int|
                        0 <= k < i ==> s@.take(i as int + 1)[k] == s@.take(i as int)[k]);
                    assert(s@.take(i as int + 1)[i as int] == s@[i as int]);
                }
                assert(dec_val(s@.take(i as int + 1)) == val * 10 + d);
                assert(val * 10 + d > u64::MAX) by (nonlinear_arith)
                    requires
                        val > (u64::MAX - d) / 10,
                        d <= 9,
                ;
                if all_digits(s@) {
                    lemma_dec_val_grows(s@, i as int + 1);
                    assert(dec_val(s@) > u64::MAX);
                }
            }
            return None;
        }
        proof {
            assert(val * 10 + d <= u64::MAX) by (nonlinear_arith)
                requires
                    val <= (u64::MAX - d) / 10,
                    d <= 9,
            ;
            assert(all_digits(s@.take(i as int + 1))) by {
                assert(forall|k: int|
                    0 <= k < i ==> s@.take(i as int + 1)[k] == s@.take(i as int)[k]);
                assert(s@.take(i as int + 1)[i as int] == s@[i as int]);
            }
        }
        val = val * 10 + d;
        i += 1;
    }
    proof {
        assert(s@.take(n as int) =~= s@);
    }
    Some(val)
}

/// The epoch seconds of a date-time text with an explicit offset, as
/// the date-time library reads it; `None` where it refuses the text.
pub uninterp spec fn rfc3339_secs(s: Seq<char>) -> Option<i64>;

/// Relies on chrono's DateTime::parse_from_rfc3339 and
/// DateTime::timestamp: whether the text parses, and its epoch seconds,
/// follow from the text alone, the offset being explicit in it.
#[verifier::external_body]
fn parse_rfc3339_secs(s: &str) -> (r: Option<i64>)
    ensures
        r == rfc3339_secs(s@),
{
    chrono::DateTime::parse_from_rfc3339(s).ok().map(|dt| dt.timestamp())
}

/// Whether a text has the shape of a local date-time, a date and a
/// time joined by `T`, as the date-time library's format reader
/// decides it.
pub uninterp spec fn local_datetime_shaped(s: Seq<char>) -> bool;

/// Relies on chrono's TimeZone::datetime_from_str with the local time
/// zone: the value depends on the machine's time zone, so nothing is
/// promised of it; but the parse succeeds only on text of the
/// date-time shape, which is a property of the text alone.
#[verifier::external_body]
fn parse_local_secs(s: &str) -> (r: Option<i64>)
    ensures
        r is Some ==> local_datetime_shaped(s@),
{
    chrono::Local.datetime_from_str(s, "%FT%T").ok().map(|dt| dt.timestamp())
}

/// The time-of-day text appended to a bare date to read it as local
/// midnight.
pub open spec fn midnight_suffix() -> Seq<char> {
    seq!['T', '0', '0', ':', '0', '0', ':', '0', '0']
}

/// Reads a bare calendar date as local midnight of that date, by
/// extending the text to midnight and parsing it as a local date-time.
fn parse_local_midnight_secs(s: &str) -> (r: Option<i64>)
    ensures
        r is Some ==> local_datetime_shaped(s@ + midnight_suffix()),
{
    let mut text = s.to_owned();
    text.append("T00:00:00");
    proof {
        reveal_strlit("T00:00:00");
        assert("T00:00:00"@ =~= midnight_suffix());
    }
    parse_local_secs(text.as_str())
}

/// No reading of the text yields a timestamp: it is not a decimal, not
/// a date-time with an offset, and neither the text nor its extension
/// to midnight has the local date-time shape.
pub open spec fn timestamp_unreadable(s: Seq<char>) -> bool {
    &&& spec_parse_u64(s) is None
    &&& rfc3339_secs(s) is None
    &&& !local_datetime_shaped(s)
    &&& !local_datetime_shaped(s + midnight_suffix())
}

/// Reads a timestamp from text, loosely: first a plain decimal count
/// of seconds; then a date-time with an explicit offset; then a local
/// date-time without one; then a bare date taken as local midnight.
/// An instant before the epoch lies outside the unsigned timestamp
/// domain and counts as unreadable, and unreadable text is `None`.
pub fn parse_timestamp_loosely(s: &str) -> (r: Option<u64>)
    ensures
        spec_parse_u64(s@) is Some ==> r == spec_parse_u64(s@),
        spec_parse_u64(s@) is None ==> (rfc3339_secs(s@) matches Some(t) ==> (t >= 0 ==> r
            == Some(t as u64))),
        timestamp_unreadable(s@) ==> r is None,
        r is None ==> spec_parse_u64(s@) is None && (rfc3339_secs(s@) matches Some(t) ==> t < 0),
{
    if let Some(v) = parse_u64(s) {
        return Some(v);
    }
    if let Some(t) = parse_rfc3339_secs(s) {
        if t >= 0 {
            return Some(t as u64);
        }
    }
    if let Some(t) = parse_local_secs(s) {
        return Some(#[verifier::truncate] (t as u64));
    }
    if let Some(t) = parse_local_midnight_secs(s) {
        return Some(#[verifier::truncate] (t as u64));
    }
    None
}

/// Resolves the optional textual bounds of a range request: a missing
/// or unreadable start is 0; a missing or unreadable end is the largest
/// representable timestamp.
pub fn resolve_bounds(start: Option<&str>, end: Option<&str>) -> (r: (u64, u64))
    ensures
        start is None ==> r.0 == 0,
        start matches Some(s) ==> (spec_parse_u64(s@) matches Some(v) ==> r.0 == v),
        start matches Some(s) ==> (timestamp_unreadable(s@) ==> r.0 == 0),
        end is None ==> r.1 == u64::MAX,
        end matches Some(s) ==> (spec_parse_u64(s@) matches Some(v) ==> r.1 == v),
        end matches Some(s) ==> (timestamp_unreadable(s@) ==> r.1 == u64::MAX),
{
    let lo = match start {
        Some(s) => match parse_timestamp_loosely(s) {
            Some(v) => v,
            None => 0,
        },
        None => 0,
    };
    let hi = match end {
        Some(s) => match parse_timestamp_loosely(s) {
            Some(v) => v,
            None => u64::MAX,
        },
        None => u64::MAX,
    };
    (lo, hi)
}

/// Answers one range request: for every definition, in the given order,
/// the events of its namespace with timestamps in `[start, end)`, under
/// the definition's name — present even when empty, and nothing for
/// namespaces no current definition names.
pub fn handle(store: &EventStore, defs: &Vec<EventPattern>, start: u64, end: u64) -> (r: Result<
    Vec<(String, Vec<Event>)>,
    StoreError,
>)
    ensures
        defs@.len() == 0 || start >= end ==> r is Ok,
        r matches Ok(out) ==> ({
            &&& out@.len() == defs@.len()
            &&& forall|i: int|
                0 <= i < defs@.len() ==> (#[trigger] out@[i]).0@ == defs@[i]@.event
                    && range_result_ok(
                    store.contents(defs@[i]@.event),
                    start,
                    end,
                    out@[i].1.deep_view(),
                )
        }),
{
    let mut out: Vec<(String, Vec<Event>)> = Vec::new();
    let mut i: usize = 0;
    while i < defs.len()
        invariant
            i <= defs@.len(),
            out@.len() == i,
            forall|k: int|
                0 <= k < i ==> (#[trigger] out@[k]).0@ == defs@[k]@.event && range_result_ok(
                    store.contents(defs@[k]@.event),
                    start,
                    end,
                    out@[k].1.deep_view(),
                ),
        decreases defs@.len() - i,
    {
        let def = &defs[i];
        let events = match store.range_query(def.event.as_str(), start, end) {
            Ok(v) => v,
            Err(e) => {
                return Err(e);
            },
        };
        out.push((def.event.clone(), events));
        i += 1;
    }
    Ok(out)
}

} // verus!
