//! Cutting a transaction list into chunks of months.
//!
//! Every boundary between two chunks is a *local* midnight of a time zone, the
//! first of a month. The zone is stated, never taken from the environment, so
//! that two runs on two machines cut alike.
use crate::calendar;
use crate::calendar::{civil_date_of, local_midnight, zone_name};
use crate::error::Error;
use crate::path;
use crate::path::path_join;
use crate::text;
use crate::text::{
    append_decimal_right, append_padded, append_signed, append_signed_left,
    append_signed_padded, count_byte, find_byte, parse_i32, parse_i64, parse_u32, piece,
    trimmed_text, utf8_text, utf8_text_lossy,
};
use crate::Result;
use vstd::prelude::*;
use vstd::string::*;
use vstd::utf8::*;

verus! {

/// How much of a transaction list callers should read at a time.
pub const SPLIT_READ_BUF: usize = 33_554_432;

/// The most boundaries that are computed.
pub const MAX_BOUNDARIES: usize = 100_000;

/// Options for [`split`] and [`compute_boundaries`].
#[derive(Debug)]
pub struct SplitOpts {
    /// First date, inclusive, as `YYYY-MM-DD`.
    pub start: String,
    /// Last date, exclusive, as `YYYY-MM-DD`. Must land exactly on a boundary.
    pub end: String,
    /// Months per chunk.
    pub months: u32,
    /// IANA time zone the boundaries are computed in; `utc` is accepted.
    pub tz: String,
    /// Append to the chunk files instead of truncating them.
    pub append: bool,
    /// Create every chunk file in range, even those that receive no record.
    pub create_empty: bool,
    /// Keep scanning past the first out-of-range record instead of stopping.
    pub skip_out_of_range: bool,
}

impl Clone for SplitOpts {
    fn clone(&self) -> (r: Self)
        ensures
            r.start@ == self.start@,
            r.end@ == self.end@,
            r.months == self.months,
            r.tz@ == self.tz@,
            r.append == self.append,
            r.create_empty == self.create_empty,
            r.skip_out_of_range == self.skip_out_of_range,
    {
        SplitOpts {
            start: self.start.clone(),
            end: self.end.clone(),
            months: self.months,
            tz: self.tz.clone(),
            append: self.append,
            create_empty: self.create_empty,
            skip_out_of_range: self.skip_out_of_range,
        }
    }
}

impl Default for SplitOpts {
    fn default() -> (r: Self)
        ensures
            r.start@ == "2009-01-01"@,
            r.end@ == "2023-01-01"@,
            r.months == 6,
            r.tz@ == "Europe/Rome"@,
            !r.append,
            r.create_empty,
            !r.skip_out_of_range,
    {
        SplitOpts {
            start: "2009-01-01".to_owned(),
            end: "2023-01-01".to_owned(),
            months: 6,
            tz: "Europe/Rome".to_owned(),
            append: false,
            create_empty: true,
            skip_out_of_range: false,
        }
    }
}

/// The resolved chunk boundaries.
///
/// `upper[k]` is the *exclusive* upper bound of chunk `k + 1`; the inclusive
/// lower bound of the first chunk is `start_ts`, that of chunk `k + 1` is
/// `upper[k - 1]`.
#[derive(Debug, PartialEq, Eq)]
pub struct Boundaries {
    /// Inclusive lower bound of the first chunk, as a Unix timestamp.
    pub start_ts: i64,
    /// Exclusive upper bounds, one per chunk, ascending.
    pub upper: Vec<i64>,
    /// Canonical name of the time zone the bounds were computed in.
    pub tz: String,
}

/// The plain values of [`Boundaries`].
pub ghost struct BoundariesView {
    pub start_ts: i64,
    pub upper: Seq<i64>,
    pub tz: Seq<char>,
}

impl View for Boundaries {
    type V = BoundariesView;

    open spec fn view(&self) -> BoundariesView {
        BoundariesView { start_ts: self.start_ts, upper: self.upper@, tz: self.tz@ }
    }
}

// ---------------------------------------------------------------------------
// Zones and dates
// ---------------------------------------------------------------------------
/// `utc`, in any case.
pub open spec fn is_utc(b: Seq<u8>) -> bool {
    &&& b.len() == 3
    &&& b[0] == 117 || b[0] == 85
    &&& b[1] == 116 || b[1] == 84
    &&& b[2] == 99 || b[2] == 67
}

/// The canonical name of the zone that `name` names, if it names one.
pub open spec fn zone_of(name: Seq<char>) -> Option<Seq<char>> {
    if is_utc(encode_utf8(name)) {
        Some("UTC"@)
    } else if calendar::is_zone(name) {
        Some(name)
    } else {
        None
    }
}

/// Resolves a time zone name, accepting `utc` in any case.
pub fn resolve_tz(name: &str) -> (r: Result<String>)
    ensures
        match zone_of(name@) {
            Some(z) => r is Ok && r->Ok_0@ == z,
            None => r is Err && r->Err_0@ == crate::error::ErrorView::BadTimezone(name@),
        },
{
    let b = name.as_bytes();
    if b.len() == 3 && (b[0] == 117 || b[0] == 85) && (b[1] == 116 || b[1] == 84) && (b[2] == 99
        || b[2] == 67) {
        return Ok("UTC".to_owned());
    }
    match zone_name(name) {
        Some(z) => Ok(z),
        None => Err(Error::BadTimezone(name.to_owned())),
    }
}

/// The year, the month and the day that a `YYYY-MM-DD` text writes: three
/// numbers with `-` between them. Whether there is such a date is another
/// matter.
pub open spec fn date_of(b: Seq<u8>) -> Option<(i32, u32, u32)> {
    let p = text::pieces(b, 45);
    if p.len() == 3 && text::i32_value(p[0]) is Some && text::u32_value(p[1]) is Some
        && text::u32_value(p[2]) is Some {
        Some((text::i32_value(p[0])->0, text::u32_value(p[1])->0, text::u32_value(p[2])->0))
    } else {
        None
    }
}

/// Reads a `YYYY-MM-DD` text.
pub fn parse_date(s: &str) -> (r: Result<(i32, u32, u32)>)
    ensures
        match date_of(s.spec_bytes()) {
            Some(d) => r == Ok::<(i32, u32, u32), Error>(d),
            None => r is Err && r->Err_0@ == crate::error::ErrorView::BadDate(s@),
        },
{
    let b = s.as_bytes();
    proof {
        text::lemma_pieces_len(b@, 45);
        assert(b@.take(b@.len() as int) =~= b@);
    }
    if count_byte(b, 45, b.len()) == 2 {
        match (
            parse_i32(piece(s, 45, 0)),
            parse_u32(piece(s, 45, 1)),
            parse_u32(piece(s, 45, 2)),
        ) {
            (Some(y), Some(m), Some(d)) => {
                return Ok((y, m, d));
            },
            _ => {},
        }
    }
    Err(Error::BadDate(s.to_owned()))
}

/// A date as `YYYY-MM-DD`.
pub open spec fn date_text(y: int, m: nat, d: nat) -> Seq<char> {
    text::signed_padded(y, 4) + "-"@ + text::padded(m, 2) + "-"@ + text::padded(d, 2)
}

/// Appends a date as `YYYY-MM-DD`.
fn append_date(out: &mut String, y: i32, m: u32, d: u32)
    ensures
        final(out)@ == old(out)@ + date_text(y as int, m as nat, d as nat),
{
    append_signed_padded(out, y as i64, 4);
    out.append("-");
    append_padded(out, m as u64, 2);
    out.append("-");
    append_padded(out, d as u64, 2);
    assert(out@ =~= old(out)@ + date_text(y as int, m as nat, d as nat));
}

/// What is said of a midnight that does not exist exactly once.
pub open spec fn no_midnight(zone: Seq<char>, y: int, m: nat, d: nat) -> crate::error::ErrorView {
    crate::error::ErrorView::Other(
        date_text(y, m, d) + " 00:00:00 does not exist exactly once in "@ + zone
            + "; pick another boundary or timezone"@,
    )
}

/// Local midnight of a date in a zone, as a Unix timestamp.
pub fn midnight(zone: &str, y: i32, m: u32, d: u32) -> (r: Result<i64>)
    ensures
        match calendar::midnight_in(zone@, y, m, d) {
            Some(t) => {
                &&& r == Ok::<i64, Error>(t)
                &&& calendar::is_date(y as int, m as int, d as int)
                &&& calendar::utc_midnight(y as int, m as int, d as int) - 86_400 < t
                    < calendar::utc_midnight(y as int, m as int, d as int) + 86_400
            },
            None => r is Err && r->Err_0@ == no_midnight(zone@, y as int, m as nat, d as nat),
        },
        zone@ == "UTC"@ && calendar::is_date(y as int, m as int, d as int) ==> r == Ok::<i64, Error>(
            calendar::utc_midnight(y as int, m as int, d as int) as i64,
        ),
{
    match local_midnight(zone, y, m, d) {
        Some(t) => Ok(t),
        None => {
            let mut msg: String = String::new();
            append_date(&mut msg, y, m, d);
            msg.append(" 00:00:00 does not exist exactly once in ");
            msg.append(zone);
            msg.append("; pick another boundary or timezone");
            proof {
                let said = date_text(y as int, m as nat, d as nat)
                    + " 00:00:00 does not exist exactly once in "@ + zone@
                    + "; pick another boundary or timezone"@;
                assert(msg@ =~= said);
            }
            Err(Error::other(msg))
        },
    }
}

// ---------------------------------------------------------------------------
// Boundaries
// ---------------------------------------------------------------------------
/// Months counted from the first month of year 0.
pub open spec fn month_index(y: int, m: int) -> int {
    12 * y + m - 1
}

/// The local midnight that a month begins with.
pub open spec fn month_midnight(zone: Seq<char>, k: int) -> Option<i64> {
    calendar::midnight_in(zone, (k / 12) as i32, (k % 12 + 1) as u32, 1)
}

/// The upper bounds from month `k` on, behind those in `got`: every `months`
/// months, until the month `end` is reached.
pub open spec fn bounds_from(
    zone: Seq<char>,
    k: int,
    end: int,
    months: nat,
    got: Seq<i64>,
) -> std::result::Result<Seq<i64>, crate::error::ErrorView>
    decreases if k < end {
        end - k
    } else {
        0
    },
{
    if k >= end || months == 0 {
        Ok(got)
    } else {
        let next = k + months;
        match month_midnight(zone, next) {
            None => Err(no_midnight(zone, next / 12, (next % 12 + 1) as nat, 1)),
            Some(t) => if got.len() >= MAX_BOUNDARIES {
                Err(
                    crate::error::ErrorView::Other(
                        "refusing to generate more than 100000 chunk boundaries"@,
                    ),
                )
            } else {
                bounds_from(zone, next, end, months, got.push(t))
            },
        }
    }
}

/// The boundaries of a range of dates, or why there are none. The last of them
/// has to be the midnight of the end date.
pub open spec fn boundaries_of(
    start: Seq<char>,
    end: Seq<char>,
    months: u32,
    tz: Seq<char>,
) -> std::result::Result<BoundariesView, crate::error::ErrorView> {
    if months == 0 {
        Err(crate::error::ErrorView::Other("--months must be at least 1"@))
    } else if zone_of(tz) is None {
        Err(crate::error::ErrorView::BadTimezone(tz))
    } else if date_of(encode_utf8(start)) is None {
        Err(crate::error::ErrorView::BadDate(start))
    } else if date_of(encode_utf8(end)) is None {
        Err(crate::error::ErrorView::BadDate(end))
    } else {
        let zone = zone_of(tz)->0;
        let (sy, sm, sd) = date_of(encode_utf8(start))->0;
        let (ey, em, ed) = date_of(encode_utf8(end))->0;
        let start_ts = calendar::midnight_in(zone, sy, sm, sd);
        let end_ts = calendar::midnight_in(zone, ey, em, ed);
        if start_ts is None {
            Err(no_midnight(zone, sy as int, sm as nat, sd as nat))
        } else if end_ts is None {
            Err(no_midnight(zone, ey as int, em as nat, ed as nat))
        } else {
            match bounds_from(
                zone,
                month_index(sy as int, sm as int),
                month_index(ey as int, em as int),
                months as nat,
                Seq::empty(),
            ) {
                Err(e) => Err(e),
                Ok(upper) => closed_boundaries(start_ts->0, upper, end_ts->0, zone),
            }
        }
    }
}

/// The month that comes `months` months after the month `m` of year `y`.
pub fn months_later(y: i32, m: u32, months: u32) -> (r: (i32, u32))
    requires
        1 <= m <= 12,
        y <= 1_000_000,
    ensures
        1 <= r.1 <= 12,
        month_index(r.0 as int, r.1 as int) == month_index(y as int, m as int) + months,
{
    let total: u64 = (m - 1) as u64 + months as u64;
    (y + (total / 12) as i32, (total % 12) as u32 + 1)
}

/// Boundaries, where the last upper bound is the end.
pub open spec fn closed_boundaries(
    start_ts: i64,
    upper: Seq<i64>,
    end_ts: i64,
    tz: Seq<char>,
) -> std::result::Result<BoundariesView, crate::error::ErrorView> {
    let last = if upper.len() > 0 {
        upper.last()
    } else {
        start_ts
    };
    if upper.len() > 0 && last == end_ts {
        Ok(BoundariesView { start_ts, upper, tz })
    } else {
        Err(crate::error::ErrorView::BoundaryMismatch { last, end: end_ts })
    }
}

/// Checks that the last upper bound is the end.
pub fn close_boundaries(start_ts: i64, upper: Vec<i64>, end_ts: i64, tz: String) -> (r: Result<
    Boundaries,
>)
    ensures
        match closed_boundaries(start_ts, upper@, end_ts, tz@) {
            Ok(b) => r is Ok && r->Ok_0@ == b,
            Err(e) => r is Err && r->Err_0@ == e,
        },
{
    let n: usize = upper.len();
    if n == 0 {
        return Err(Error::BoundaryMismatch { last: start_ts, end: end_ts });
    }
    let last: i64 = upper[n - 1];
    if last != end_ts {
        return Err(Error::BoundaryMismatch { last, end: end_ts });
    }
    Ok(Boundaries { start_ts, upper, tz })
}

/// Strictly ascending.
pub open spec fn ascending(s: Seq<i64>) -> bool {
    forall|i: int, j: int| 0 <= i < j < s.len() ==> s[i] < s[j]
}

/// Computes the chunk boundaries: from the start month on, every
/// [`SplitOpts::months`] months, until the end month is reached.
///
/// The last boundary has to be the end date: past it the last chunk would
/// silently take in everything that follows, so a mismatch is an error.
pub fn compute_boundaries(opts: &SplitOpts) -> (r: Result<Boundaries>)
    ensures
        match boundaries_of(opts.start@, opts.end@, opts.months, opts.tz@) {
            Ok(b) => {
                &&& r is Ok && r->Ok_0@ == b
                &&& b.upper.len() > 0
                &&& ascending(b.upper)
            },
            Err(e) => r is Err && r->Err_0@ == e,
        },
{
    if opts.months == 0 {
        return Err(Error::other("--months must be at least 1".to_owned()));
    }
    let tz: String = match resolve_tz(opts.tz.as_str()) {
        Ok(z) => z,
        Err(e) => {
            return Err(e);
        },
    };
    let (sy, sm, sd): (i32, u32, u32) = match parse_date(opts.start.as_str()) {
        Ok(d) => d,
        Err(e) => {
            return Err(e);
        },
    };
    let (ey, em, ed): (i32, u32, u32) = match parse_date(opts.end.as_str()) {
        Ok(d) => d,
        Err(e) => {
            return Err(e);
        },
    };
    let start_ts: i64 = match midnight(tz.as_str(), sy, sm, sd) {
        Ok(t) => t,
        Err(e) => {
            return Err(e);
        },
    };
    let end_ts: i64 = match midnight(tz.as_str(), ey, em, ed) {
        Ok(t) => t,
        Err(e) => {
            return Err(e);
        },
    };
    let mut upper: Vec<i64> = Vec::new();
    let mut y: i32 = sy;
    let mut m: u32 = sm;
    let ghost whole = bounds_from(
        tz@,
        month_index(sy as int, sm as int),
        month_index(ey as int, em as int),
        opts.months as nat,
        Seq::empty(),
    );
    while y < ey || (y == ey && m < em)
        invariant
            opts.months > 0,
            1 <= m <= 12,
            1 <= em <= 12,
            -262_143 <= y <= 262_142,
            upper@.len() <= MAX_BOUNDARIES,
            ascending(upper@),
            upper@.len() > 0 ==> upper@.last() < calendar::month_start(
                month_index(y as int, m as int),
            ) + 86_400,
            boundaries_of(opts.start@, opts.end@, opts.months, opts.tz@) matches Err(e) ==> (
            whole matches Err(f) ==> e == f),
            whole is Err ==> boundaries_of(opts.start@, opts.end@, opts.months, opts.tz@) is Err,
            whole == bounds_from(
                tz@,
                month_index(y as int, m as int),
                month_index(ey as int, em as int),
                opts.months as nat,
                upper@,
            ),
        decreases
            if month_index(y as int, m as int) < month_index(ey as int, em as int) {
                month_index(ey as int, em as int) - month_index(y as int, m as int)
            } else {
                0
            },
    {
        let ghost k = month_index(y as int, m as int);
        let (next_y, next_m): (i32, u32) = months_later(y, m, opts.months);
        proof {
            assert((k + opts.months) / 12 == next_y && (k + opts.months) % 12 + 1 == next_m);
        }
        let t: i64 = match midnight(tz.as_str(), next_y, next_m, 1) {
            Ok(t) => t,
            Err(e) => {
                return Err(e);
            },
        };
        // A malformed range must not spin.
        if upper.len() >= MAX_BOUNDARIES {
            return Err(
                Error::other("refusing to generate more than 100000 chunk boundaries".to_owned()),
            );
        }
        proof {
            calendar::lemma_month_starts_ascend(k, k + opts.months);
        }
        y = next_y;
        m = next_m;
        upper.push(t);
    }
    close_boundaries(start_ts, upper, end_ts, tz)
}

proof fn lemma_bounds_from(zone: Seq<char>, k: int, end: int, months: nat, got: Seq<i64>)
    requires
        bounds_from(zone, k, end, months, got) is Ok,
    ensures
        ({
            let all = bounds_from(zone, k, end, months, got)->Ok_0;
            &&& got.is_prefix_of(all)
            &&& forall|i: int|
                got.len() <= i < all.len() ==> #[trigger] month_midnight(
                    zone,
                    k + (i + 1 - got.len()) * months,
                ) == Some(all[i])
            &&& months > 0 && k < end ==> all.len() > got.len() && k + (all.len() - got.len()
                - 1) * months < end <= k + (all.len() - got.len()) * months
            &&& all.len() <= got.len() || all.len() <= MAX_BOUNDARIES
        }),
    decreases
            if k < end {
                end - k
            } else {
                0
            },
{
    let all = bounds_from(zone, k, end, months, got)->Ok_0;
    if k < end && months > 0 {
        let next = k + months;
        let t = month_midnight(zone, next)->0;
        let more = got.push(t);
        lemma_bounds_from(zone, next, end, months, more);
        assert(all.take(got.len() as int) =~= all.take(more.len() as int).take(got.len() as int));
        assert(more.take(got.len() as int) =~= got);
        assert(all[got.len() as int] == all.take(more.len() as int)[got.len() as int]);
        assert forall|i: int| got.len() <= i < all.len() implies #[trigger] month_midnight(
            zone,
            k + (i + 1 - got.len()) * months,
        ) == Some(all[i]) by {
            let a = i + 1 - got.len();
            assert(k + a * months == next + (a - 1) * months) by (nonlinear_arith)
                requires
                    next == k + months,
            ;
            if i > got.len() {
                assert(month_midnight(zone, next + (i + 1 - more.len()) * months) == Some(all[i]));
            } else {
                assert((a - 1) * months == 0) by (nonlinear_arith)
                    requires
                        a == 1,
                ;
            }
        }
        let n = all.len() - got.len();
        assert(k + n * months == next + (n - 1) * months) by (nonlinear_arith)
            requires
                next == k + months,
        ;
        assert(k + (n - 1) * months == next + (n - 2) * months) by (nonlinear_arith)
            requires
                next == k + months,
        ;
        if next >= end {
            assert(all =~= more);
            assert(n == 1);
            assert(1 * months == months && 0 * months == 0) by (nonlinear_arith);
        }
    } else {
        assert(all.take(got.len() as int) =~= got);
    }
}

/// Where the boundaries are: the upper bound of chunk `i + 1` is the local
/// midnight that begins the month `(i + 1) * months` after the start month, and
/// the last of them is the midnight of the end date.
pub proof fn boundaries_are_month_starts(
    start: Seq<char>,
    end: Seq<char>,
    months: u32,
    tz: Seq<char>,
)
    requires
        boundaries_of(start, end, months, tz) is Ok,
    ensures
        ({
            let b = boundaries_of(start, end, months, tz)->Ok_0;
            let (sy, sm, sd) = date_of(encode_utf8(start))->0;
            let (ey, em, ed) = date_of(encode_utf8(end))->0;
            &&& Some(b.tz) == zone_of(tz)
            &&& 0 < b.upper.len() <= MAX_BOUNDARIES
            &&& forall|i: int|
                0 <= i < b.upper.len() ==> #[trigger] month_midnight(
                    b.tz,
                    month_index(sy as int, sm as int) + (i + 1) * months,
                ) == Some(b.upper[i])
            &&& calendar::midnight_in(b.tz, sy, sm, sd) == Some(b.start_ts)
            &&& calendar::midnight_in(b.tz, ey, em, ed) == Some(b.upper.last())
        }),
{
    let b = boundaries_of(start, end, months, tz)->Ok_0;
    let (sy, sm, sd) = date_of(encode_utf8(start))->0;
    let (ey, em, ed) = date_of(encode_utf8(end))->0;
    let k = month_index(sy as int, sm as int);
    lemma_bounds_from(b.tz, k, month_index(ey as int, em as int), months as nat, Seq::empty());
    assert forall|i: int| 0 <= i < b.upper.len() implies #[trigger] month_midnight(
        b.tz,
        k + (i + 1) * months,
    ) == Some(b.upper[i]) by {
        assert(month_midnight(b.tz, k + (i + 1 - 0) * months) == Some(b.upper[i]));
    }
}

// ---------------------------------------------------------------------------
// The table
// ---------------------------------------------------------------------------
/// The date of a timestamp in a zone, as text.
pub open spec fn civil_text(zone: Seq<char>, ts: i64) -> Seq<char> {
    match calendar::civil_in(zone, ts) {
        Some((y, m, d)) => date_text(y as int, m as nat, d as nat),
        None => "????-??-??"@,
    }
}

/// The date of a timestamp in a zone, as text.
pub fn civil_date(zone: &str, ts: i64) -> (r: String)
    ensures
        r@ == civil_text(zone@, ts),
{
    match civil_date_of(zone, ts) {
        Some((y, m, d)) => {
            let mut out: String = String::new();
            append_date(&mut out, y, m, d);
            assert(out@ =~= date_text(y as int, m as nat, d as nat));
            out
        },
        None => "????-??-??".to_owned(),
    }
}

/// The UTC midnight of the date that a timestamp falls on in a zone, where
/// there is one; else the timestamp.
pub open spec fn utc_midnight_value(zone: Seq<char>, ts: i64) -> i64 {
    match calendar::civil_in(zone, ts) {
        Some((y, m, d)) => if calendar::is_date(y as int, m as int, d as int) {
            calendar::utc_midnight(y as int, m as int, d as int) as i64
        } else {
            ts
        },
        None => ts,
    }
}

/// The UTC midnight of the date that a timestamp falls on in a zone.
pub fn utc_midnight_of(zone: &str, ts: i64) -> (r: i64)
    ensures
        r == utc_midnight_value(zone@, ts),
        -172_800 <= ts - r <= 172_800,
{
    match civil_date_of(zone, ts) {
        Some((y, m, d)) => {
            proof {
                calendar::lemma_utc_midnight_fits(y as int, m as int, d as int);
            }
            match local_midnight("UTC", y, m, d) {
                Some(t) => t,
                None => ts,
            }
        },
        None => ts,
    }
}

/// One row of the table: the number of the chunk, the dates it runs from and
/// to, its upper bound, what that would be under UTC, and the difference.
pub open spec fn row_text(
    index: nat,
    lower_date: Seq<char>,
    up_date: Seq<char>,
    up: i64,
    utc: i64,
) -> Seq<char> {
    text::right_aligned(text::decimal(index), 5) + "  "@ + lower_date + " -> "@ + up_date + "   "@
        + up_date + "    "@ + text::left_aligned(text::signed_decimal(up as int), 14) + " "@
        + text::left_aligned(text::signed_decimal(utc as int), 14) + " "@ + text::signed_decimal(
        up - utc,
    ) + "\n"@
}

/// One row of the table.
pub open spec fn table_row(zone: Seq<char>, index: nat, lower: i64, up: i64) -> Seq<char> {
    row_text(
        index,
        civil_text(zone, lower),
        civil_text(zone, up),
        up,
        utc_midnight_value(zone, up),
    )
}

/// The rows of the first `n` chunks.
pub open spec fn table_rows(zone: Seq<char>, b: BoundariesView, n: nat) -> Seq<char>
    decreases n,
{
    if n == 0 {
        Seq::empty()
    } else {
        let lower = if n == 1 {
            b.start_ts
        } else {
            b.upper[n - 2]
        };
        table_rows(zone, b, (n - 1) as nat) + table_row(zone, n, lower, b.upper[n - 1])
    }
}

/// The zone of a table: the one named, or `UTC` where the name is unknown.
pub open spec fn table_zone(tz: Seq<char>) -> Seq<char> {
    match zone_of(tz) {
        Some(z) => z,
        None => "UTC"@,
    }
}

/// The boundary table: a title, a head line, and a row a chunk.
pub open spec fn table_text(b: BoundariesView) -> Seq<char> {
    let zone = table_zone(b.tz);
    "Chunk boundaries ("@ + b.tz + "), start "@ + text::signed_decimal(b.start_ts as int) + " ("@
        + civil_text(zone, b.start_ts) + ")\n"@
        + "chunk  interval                    upper bound   local ts       utc ts         delta\n"@
        + table_rows(zone, b, b.upper.len())
}

/// Renders the boundary table as plain text.
///
/// The `utc` column is the timestamp that the same civil midnight would have
/// under UTC, and `delta` is `local - utc`.
pub fn format_boundary_table(b: &Boundaries) -> (r: String)
    ensures
        r@ == table_text(b@),
{
    let zone: String = match resolve_tz(b.tz.as_str()) {
        Ok(z) => z,
        Err(_) => "UTC".to_owned(),
    };
    let mut s: String = "Chunk boundaries (".to_owned();
    s.append(b.tz.as_str());
    s.append("), start ");
    append_signed(&mut s, b.start_ts);
    s.append(" (");
    s.append(civil_date(zone.as_str(), b.start_ts).as_str());
    s.append(")\n");
    s.append(
        "chunk  interval                    upper bound   local ts       utc ts         delta\n",
    );
    let ghost head = s@;
    let mut lower: i64 = b.start_ts;
    let mut i: usize = 0;
    assert(s@ =~= head + table_rows(zone@, b@, 0));
    while i < b.upper.len()
        invariant
            i <= b.upper@.len(),
            lower == if i == 0 {
                b.start_ts
            } else {
                b.upper@[i - 1]
            },
            s@ == head + table_rows(zone@, b@, i as nat),
        decreases b.upper@.len() - i,
    {
        let ghost before = s@;
        let up: i64 = b.upper[i];
        let lower_date: String = civil_date(zone.as_str(), lower);
        let up_date: String = civil_date(zone.as_str(), up);
        let utc: i64 = utc_midnight_of(zone.as_str(), up);
        append_row(&mut s, i as u64 + 1, lower_date.as_str(), up_date.as_str(), up, utc);
        assert(s@ =~= head + table_rows(zone@, b@, (i + 1) as nat));
        lower = up;
        i = i + 1;
    }
    s
}

/// Appends one row of the table.
pub fn append_row(
    out: &mut String,
    index: u64,
    lower_date: &str,
    up_date: &str,
    up: i64,
    utc: i64,
)
    requires
        i64::MIN <= up - utc <= i64::MAX,
    ensures
        final(out)@ == old(out)@ + row_text(index as nat, lower_date@, up_date@, up, utc),
{
    append_decimal_right(out, index, 5);
    out.append("  ");
    out.append(lower_date);
    out.append(" -> ");
    out.append(up_date);
    out.append("   ");
    out.append(up_date);
    out.append("    ");
    append_signed_left(out, up, 14);
    out.append(" ");
    append_signed_left(out, utc, 14);
    out.append(" ");
    append_signed(out, up - utc);
    out.append("\n");
    assert(out@ =~= old(out)@ + row_text(index as nat, lower_date@, up_date@, up, utc));
}

// ---------------------------------------------------------------------------
// Chunk files
// ---------------------------------------------------------------------------
/// The name of the file of chunk `i`, counted from one.
pub open spec fn chunk_name(i: nat) -> Seq<char> {
    "chunk_"@ + text::padded(i, 2) + ".txt"@
}

/// The name of the file of chunk `i`, counted from one.
pub fn chunk_file_name(i: usize) -> (r: String)
    ensures
        r@ == chunk_name(i as nat),
{
    let mut name: String = "chunk_".to_owned();
    append_padded(&mut name, i as u64, 2);
    name.append(".txt");
    name
}

/// The files of the chunks `1 ..= n` in a directory, in order.
pub fn chunk_paths(dir: &str, n: usize) -> (r: Result<Vec<String>>)
    ensures
        match r {
            Ok(paths) => {
                &&& n > 0
                &&& paths@.len() == n
                &&& forall|i: int|
                    0 <= i < n ==> (#[trigger] paths@[i])@ == path::path_in(
                        dir@,
                        chunk_name((i + 1) as nat),
                    )
            },
            Err(e) => n == 0 && e@ == crate::error::ErrorView::Other(
                "the number of chunks must be at least 1"@,
            ),
        },
{
    if n == 0 {
        return Err(Error::other("the number of chunks must be at least 1".to_owned()));
    }
    let mut paths: Vec<String> = Vec::new();
    let mut i: usize = 0;
    while i < n
        invariant
            i <= n,
            paths@.len() == i,
            forall|k: int|
                0 <= k < i ==> (#[trigger] paths@[k])@ == path::path_in(
                    dir@,
                    chunk_name((k + 1) as nat),
                ),
        decreases n - i,
    {
        i = i + 1;
        let name: String = chunk_file_name(i);
        paths.push(path_join(dir, name.as_str()));
    }
    Ok(paths)
}

// ---------------------------------------------------------------------------
// Records
// ---------------------------------------------------------------------------
/// ASCII white space.
pub open spec fn is_ascii_space(b: u8) -> bool {
    b == 32 || b == 9 || b == 10 || b == 12 || b == 13
}

/// Nothing but ASCII white space.
pub open spec fn is_blank_record(line: Seq<u8>) -> bool {
    forall|i: int| 0 <= i < line.len() ==> is_ascii_space(#[trigger] line[i])
}

/// What stands before the first comma.
pub open spec fn first_field(line: Seq<u8>) -> Seq<u8> {
    text::pieces(line, 44)[0]
}

/// The leading Unix timestamp of a record: what stands before the first comma,
/// without white space around it, as a number.
pub open spec fn timestamp_of(line: Seq<u8>) -> Option<i64> {
    let f = first_field(line);
    if valid_utf8(f) {
        text::i64_value(encode_utf8(text::trim_white(decode_utf8(f))))
    } else {
        None
    }
}

fn is_blank_bytes(line: &[u8]) -> (r: bool)
    ensures
        r == is_blank_record(line@),
{
    let mut i: usize = 0;
    while i < line.len()
        invariant
            i <= line@.len(),
            forall|k: int| 0 <= k < i ==> is_ascii_space(#[trigger] line@[k]),
        decreases line@.len() - i,
    {
        let b: u8 = line[i];
        if !(b == 32 || b == 9 || b == 10 || b == 12 || b == 13) {
            assert(!is_ascii_space(line@[i as int]));
            return false;
        }
        i = i + 1;
    }
    true
}

/// What stands before the first comma.
fn before_comma<'a>(line: &'a [u8]) -> (r: &'a [u8])
    ensures
        r@ == first_field(line@),
{
    let comma: usize = find_byte(line, 44, 0);
    let head: &[u8] = vstd::slice::slice_subrange(line, 0, comma);
    proof {
        assert(head@ =~= line@.take(comma as int));
        if comma < line@.len() {
            text::lemma_pieces_front(line@, 44, comma as int);
        } else {
            assert(!line@.contains(44));
            text::lemma_pieces_single(line@, 44);
            assert(head@ =~= line@);
        }
    }
    head
}

/// Reads the leading Unix timestamp of a record. The rest of the line is never
/// decoded, so a stray byte in it does no harm.
pub fn leading_timestamp(line: &[u8]) -> (r: Option<i64>)
    ensures
        r == timestamp_of(line@),
{
    let head: &[u8] = before_comma(line);
    match utf8_text(head) {
        Ok(s) => {
            proof {
                text::lemma_text_is_utf8(s);
                encode_utf8_decode_utf8(s@);
            }
            parse_i64(trimmed_text(s))
        },
        Err(_) => None,
    }
}

// ---------------------------------------------------------------------------
// Splitting
// ---------------------------------------------------------------------------
/// Per-chunk result of a [`split`] run.
#[derive(Debug)]
pub struct ChunkStat {
    /// 1-based chunk number, matching the `chunk_NN.txt` file name.
    pub index: usize,
    /// Where the chunk is written.
    pub path: String,
    /// Records written to this chunk.
    pub records: u64,
    /// Bytes written to this chunk.
    pub bytes: u64,
    /// Timestamp of the first record, if any.
    pub first_ts: Option<i64>,
    /// Timestamp of the last record, if any.
    pub last_ts: Option<i64>,
}

/// Result of a [`split`] run.
#[derive(Debug)]
pub struct SplitStats {
    /// One entry per chunk, in order.
    pub chunks: Vec<ChunkStat>,
    /// Records dropped because they predate the start.
    pub records_before_start: u64,
    /// Records written across all chunks.
    pub records_written: u64,
    /// `(record number, timestamp)` of the first record at or after the end.
    pub stopped_early_at: Option<(u64, i64)>,
}

/// The counters of one chunk.
pub ghost struct ChunkView {
    pub records: u64,
    pub bytes: u64,
    pub first_ts: Option<i64>,
    pub last_ts: Option<i64>,
}

/// The counters of a run.
pub ghost struct StatsView {
    pub chunks: Seq<ChunkView>,
    pub records_before_start: u64,
    pub records_written: u64,
    pub stopped_early_at: Option<(u64, i64)>,
}

impl View for ChunkStat {
    type V = ChunkView;

    open spec fn view(&self) -> ChunkView {
        ChunkView {
            records: self.records,
            bytes: self.bytes,
            first_ts: self.first_ts,
            last_ts: self.last_ts,
        }
    }
}

impl View for SplitStats {
    type V = StatsView;

    open spec fn view(&self) -> StatsView {
        StatsView {
            chunks: Seq::new(self.chunks@.len(), |i: int| self.chunks@[i]@),
            records_before_start: self.records_before_start,
            records_written: self.records_written,
            stopped_early_at: self.stopped_early_at,
        }
    }
}

/// Each chunk is numbered and has its file.
pub open spec fn chunks_are_named(chunks: Seq<ChunkStat>, dir: Seq<char>) -> bool {
    forall|i: int|
        0 <= i < chunks.len() ==> (#[trigger] chunks[i]).index == i + 1 && chunks[i].path@
            == path::path_in(dir, chunk_name((i + 1) as nat))
}

/// What to do with a record.
#[derive(Copy, Clone, Debug, PartialEq, Eq, Structural)]
pub enum SplitAction {
    /// Drop it and go on.
    Skip,
    /// Drop it and everything that follows.
    Stop,
    /// Write it, verbatim, to the chunk of this 0-based number; where `open` is
    /// set, close the chunk written to before and open this one.
    Write {
        /// 0-based chunk number.
        chunk: usize,
        /// Whether another chunk than before is written to.
        open: bool,
    },
}

/// The state of a run.
pub ghost struct SplitState {
    /// The chunk written to last; records never go to an earlier one.
    pub current: nat,
    /// Whether any record has been written.
    pub writing: bool,
    pub line_no: u64,
    pub bytes_read: u64,
    pub stats: StatsView,
}

/// The chunk that a record of time `ts` goes to, where the chunk written to
/// last is `current`: the first from there on whose upper bound it is below.
pub open spec fn route(upper: Seq<i64>, current: nat, ts: i64) -> nat
    decreases upper.len() - current,
{
    if current + 1 < upper.len() && ts >= upper[current as int] {
        route(upper, current + 1, ts)
    } else {
        current
    }
}

impl ChunkView {
    /// One more record of `len` bytes.
    pub open spec fn with_record(self, len: nat, ts: i64) -> ChunkView {
        ChunkView {
            records: (self.records + 1) as u64,
            bytes: (self.bytes + len) as u64,
            first_ts: if self.first_ts is None {
                Some(ts)
            } else {
                self.first_ts
            },
            last_ts: Some(ts),
        }
    }
}

impl SplitState {
    /// The state before the first record.
    pub open spec fn initial(n: nat) -> SplitState {
        SplitState {
            current: 0,
            writing: false,
            line_no: 0,
            bytes_read: 0,
            stats: StatsView {
                chunks: Seq::new(
                    n,
                    |i: int| ChunkView { records: 0, bytes: 0, first_ts: None, last_ts: None },
                ),
                records_before_start: 0,
                records_written: 0,
                stopped_early_at: None,
            },
        }
    }

    /// What a record does to the state, and what is to be done with it.
    pub open spec fn after(self, line: Seq<u8>, b: BoundariesView, skip: bool) -> std::result::Result<
        (SplitState, SplitAction),
        crate::error::ErrorView,
    > {
        let read = SplitState {
            line_no: (self.line_no + 1) as u64,
            bytes_read: (self.bytes_read + line.len()) as u64,
            ..self
        };
        if is_blank_record(line) {
            Ok((read, SplitAction::Skip))
        } else {
            match timestamp_of(line) {
                None => Err(
                    crate::error::ErrorView::BadInteger {
                        line: read.line_no,
                        field: "timestamp"@,
                        value: text::utf8_lossy(first_field(line)),
                    },
                ),
                Some(ts) => if ts < b.start_ts {
                    Ok(
                        (
                            SplitState {
                                stats: StatsView {
                                    records_before_start: (self.stats.records_before_start
                                        + 1) as u64,
                                    ..self.stats
                                },
                                ..read
                            },
                            SplitAction::Skip,
                        ),
                    )
                } else if ts >= b.upper.last() {
                    Ok(
                        (
                            SplitState {
                                stats: StatsView {
                                    stopped_early_at: if self.stats.stopped_early_at is None {
                                        Some((read.line_no, ts))
                                    } else {
                                        self.stats.stopped_early_at
                                    },
                                    ..self.stats
                                },
                                ..read
                            },
                            if skip {
                                SplitAction::Skip
                            } else {
                                SplitAction::Stop
                            },
                        ),
                    )
                } else {
                    let target = route(b.upper, self.current, ts);
                    Ok(
                        (
                            SplitState {
                                current: target,
                                writing: true,
                                stats: StatsView {
                                    chunks: self.stats.chunks.update(
                                        target as int,
                                        self.stats.chunks[target as int].with_record(
                                            line.len(),
                                            ts,
                                        ),
                                    ),
                                    records_written: (self.stats.records_written + 1) as u64,
                                    ..self.stats
                                },
                                ..read
                            },
                            SplitAction::Write {
                                chunk: target as usize,
                                open: !self.writing || target != self.current,
                            },
                        ),
                    )
                },
            }
        }
    }

    /// No counter is above the bytes read, and there is a counter a chunk.
    pub open spec fn coherent(self, n: nat) -> bool {
        &&& n > 0
        &&& self.current < n
        &&& self.line_no <= self.bytes_read
        &&& self.stats.chunks.len() == n
        &&& self.stats.records_before_start <= self.bytes_read
        &&& self.stats.records_written <= self.bytes_read
        &&& forall|i: int|
            0 <= i < n ==> (#[trigger] self.stats.chunks[i]).records <= self.bytes_read
                && self.stats.chunks[i].bytes <= self.bytes_read
    }
}

/// Routes the records of a transaction list to chunks, one at a time.
pub struct Splitter {
    bounds: Boundaries,
    skip_out_of_range: bool,
    current: usize,
    writing: bool,
    line_no: u64,
    bytes_read: u64,
    stats: SplitStats,
}

impl Splitter {
    /// The boundaries.
    pub closed spec fn bounds(&self) -> BoundariesView {
        self.bounds@
    }

    /// Whether a record past the end is skipped instead of ending the run.
    pub closed spec fn skips(&self) -> bool {
        self.skip_out_of_range
    }

    /// The state of the run.
    pub closed spec fn state(&self) -> SplitState {
        SplitState {
            current: self.current as nat,
            writing: self.writing,
            line_no: self.line_no,
            bytes_read: self.bytes_read,
            stats: self.stats@,
        }
    }

    /// The counters, with the numbers and the files of the chunks.
    pub closed spec fn chunks(&self) -> Seq<ChunkStat> {
        self.stats.chunks@
    }

    /// The splitter's invariant.
    pub open spec fn valid(&self) -> bool {
        self.state().coherent(self.bounds().upper.len())
    }

    /// Starts a run: every counter is zero.
    pub fn new(bounds: Boundaries, out_dir: &str, skip_out_of_range: bool) -> (r: Self)
        requires
            bounds@.upper.len() > 0,
        ensures
            r.valid(),
            r.bounds() == bounds@,
            r.skips() == skip_out_of_range,
            r.state() == SplitState::initial(bounds@.upper.len()),
            chunks_are_named(r.chunks(), out_dir@),
    {
        let n: usize = bounds.upper.len();
        let mut chunks: Vec<ChunkStat> = Vec::new();
        let mut i: usize = 0;
        while i < n
            invariant
                i <= n,
                chunks@.len() == i,
                chunks_are_named(chunks@, out_dir@),
                forall|k: int|
                    0 <= k < i ==> (#[trigger] chunks@[k])@ == (ChunkView {
                        records: 0,
                        bytes: 0,
                        first_ts: None,
                        last_ts: None,
                    }),
            decreases n - i,
        {
            i = i + 1;
            let name: String = chunk_file_name(i);
            chunks.push(
                ChunkStat {
                    index: i,
                    path: path_join(out_dir, name.as_str()),
                    records: 0,
                    bytes: 0,
                    first_ts: None,
                    last_ts: None,
                },
            );
        }
        let stats = SplitStats {
            chunks,
            records_before_start: 0,
            records_written: 0,
            stopped_early_at: None,
        };
        proof {
            assert(stats@.chunks =~= SplitState::initial(n as nat).stats.chunks);
        }
        Splitter {
            bounds,
            skip_out_of_range,
            current: 0,
            writing: false,
            line_no: 0,
            bytes_read: 0,
            stats,
        }
    }

    /// Takes one record, line end and all, and says what to do with it.
    pub fn take_record(&mut self, line: &[u8]) -> (r: Result<SplitAction>)
        requires
            old(self).valid(),
            line@.len() > 0,
            old(self).state().bytes_read + line@.len() <= u64::MAX,
        ensures
            final(self).valid(),
            final(self).bounds() == old(self).bounds(),
            final(self).skips() == old(self).skips(),
            forall|dir: Seq<char>| #[trigger]
                chunks_are_named(old(self).chunks(), dir) ==> chunks_are_named(
                    final(self).chunks(),
                    dir,
                ),
            match old(self).state().after(line@, old(self).bounds(), old(self).skips()) {
                Ok((state, action)) => {
                    &&& r == Ok::<SplitAction, Error>(action)
                    &&& final(self).state() == state
                },
                Err(e) => r is Err && r->Err_0@ == e,
            },
    {
        let ghost before = self.state();
        let n: usize = self.bounds.upper.len();
        self.line_no = self.line_no + 1;
        self.bytes_read = self.bytes_read + line.len() as u64;
        if is_blank_bytes(line) {
            return Ok(SplitAction::Skip);
        }
        let ts: i64 = match leading_timestamp(line) {
            Some(ts) => ts,
            None => {
                return Err(
                    Error::BadInteger {
                        line: self.line_no,
                        field: "timestamp",
                        value: utf8_text_lossy(before_comma(line)),
                    },
                );
            },
        };
        if ts < self.bounds.start_ts {
            self.stats.records_before_start = self.stats.records_before_start + 1;
            assert(self.stats@.chunks =~= before.stats.chunks);
            return Ok(SplitAction::Skip);
        }
        if ts >= self.bounds.upper[n - 1] {
            if self.stats.stopped_early_at.is_none() {
                self.stats.stopped_early_at = Some((self.line_no, ts));
            }
            assert(self.stats@.chunks =~= before.stats.chunks);
            if self.skip_out_of_range {
                return Ok(SplitAction::Skip);
            }
            return Ok(SplitAction::Stop);
        }
        let mut target: usize = self.current;
        while target < n - 1 && ts >= self.bounds.upper[target]
            invariant
                n == self.bounds.upper@.len(),
                target < n,
                route(self.bounds.upper@, target as nat, ts) == route(
                    self.bounds.upper@,
                    self.current as nat,
                    ts,
                ),
            decreases n - target,
        {
            target = target + 1;
        }
        let open: bool = !self.writing || target != self.current;
        self.current = target;
        self.writing = true;
        assert(before.stats.chunks[target as int] == self.stats.chunks@[target as int]@);
        let chunk: &mut ChunkStat = &mut self.stats.chunks[target];
        chunk.records = chunk.records + 1;
        chunk.bytes = chunk.bytes + line.len() as u64;
        if chunk.first_ts.is_none() {
            chunk.first_ts = Some(ts);
        }
        chunk.last_ts = Some(ts);
        self.stats.records_written = self.stats.records_written + 1;
        proof {
            let now = before.stats.chunks.update(
                target as int,
                before.stats.chunks[target as int].with_record(line@.len(), ts),
            );
            assert(self.stats@.chunks =~= now);
        }
        Ok(SplitAction::Write { chunk: target, open })
    }

    /// Ends the run.
    pub fn into_stats(self) -> (r: SplitStats)
        ensures
            r@ == self.state().stats,
            r.chunks@ == self.chunks(),
    {
        self.stats
    }
}

/// What a run over some bytes gives: the state it ends in and what the chunks
/// hold, or the error that ends it.
pub open spec fn split_from(
    state: SplitState,
    chunks: Seq<Seq<u8>>,
    input: Seq<u8>,
    b: BoundariesView,
    skip: bool,
) -> std::result::Result<(SplitState, Seq<Seq<u8>>), crate::error::ErrorView>
    decreases input.len(),
{
    if input.len() == 0 {
        Ok((state, chunks))
    } else {
        let n = crate::edge_list::first_line_len(input);
        proof {
            crate::edge_list::lemma_first_line_len(input);
        }
        let line = input.take(n as int);
        match state.after(line, b, skip) {
            Err(e) => Err(e),
            Ok((next, SplitAction::Stop)) => Ok((next, chunks)),
            Ok((next, SplitAction::Skip)) => split_from(
                next,
                chunks,
                input.skip(n as int),
                b,
                skip,
            ),
            Ok((next, SplitAction::Write { chunk, open })) => split_from(
                next,
                chunks.update(chunk as int, chunks[chunk as int] + line),
                input.skip(n as int),
                b,
                skip,
            ),
        }
    }
}

/// Chunks that hold nothing.
pub open spec fn no_records(n: nat) -> Seq<Seq<u8>> {
    Seq::new(n, |i: int| Seq::<u8>::empty())
}

/// The bytes of some vectors.
pub open spec fn byte_views(v: Seq<Vec<u8>>) -> Seq<Seq<u8>> {
    Seq::new(v.len(), |i: int| v[i]@)
}

/// Appends a line to one of some chunks.
fn append_to(contents: &mut Vec<Vec<u8>>, chunk: usize, line: &[u8])
    requires
        chunk < old(contents)@.len(),
    ensures
        final(contents)@.len() == old(contents)@.len(),
        byte_views(final(contents)@) == byte_views(old(contents)@).update(
            chunk as int,
            byte_views(old(contents)@)[chunk as int] + line@,
        ),
{
    let ghost before = contents@;
    let bytes: &mut Vec<u8> = &mut contents[chunk];
    bytes.extend_from_slice(line);
    proof {
        assert(contents@.len() == before.len());
        assert(contents@[chunk as int]@ =~= before[chunk as int]@ + line@);
        assert(byte_views(contents@) =~= byte_views(before).update(
            chunk as int,
            before[chunk as int]@ + line@,
        ));
    }
}

/// Splits a transaction list, sorted by time, at given boundaries. Returns the
/// counters and what each chunk holds.
///
/// A single forward pass; records are copied *verbatim*, line end and all, and
/// a record never goes to an earlier chunk than the one before it. A missing
/// final newline is preserved.
pub fn split_at(bounds: Boundaries, input: &[u8], out_dir: &str, skip_out_of_range: bool) -> (r:
    Result<(SplitStats, Vec<Vec<u8>>)>)
    requires
        bounds@.upper.len() > 0,
    ensures
        match split_from(
            SplitState::initial(bounds@.upper.len()),
            no_records(bounds@.upper.len()),
            input@,
            bounds@,
            skip_out_of_range,
        ) {
            Ok((state, chunks)) => {
                &&& r matches Ok((stats, contents))
                &&& stats@ == state.stats
                &&& byte_views(contents@) == chunks
                &&& stats.chunks@.len() == bounds@.upper.len()
                &&& chunks_are_named(stats.chunks@, out_dir@)
            },
            Err(e) => r is Err && r->Err_0@ == e,
        },
{
    let ghost b = bounds@;
    let n: usize = bounds.upper.len();
    let mut contents: Vec<Vec<u8>> = Vec::new();
    let mut i: usize = 0;
    while i < n
        invariant
            i <= n,
            contents@.len() == i,
            forall|k: int| 0 <= k < i ==> (#[trigger] contents@[k])@ == Seq::<u8>::empty(),
        decreases n - i,
    {
        contents.push(Vec::new());
        i = i + 1;
    }
    assert(byte_views(contents@) =~= no_records(n as nat));
    let ghost whole = split_from(
        SplitState::initial(n as nat),
        no_records(n as nat),
        input@,
        b,
        skip_out_of_range,
    );
    let mut splitter = Splitter::new(bounds, out_dir, skip_out_of_range);
    let mut pos: usize = 0;
    assert(input@.skip(0) =~= input@);
    let total: usize = input.len();
    while pos < total
        invariant_except_break
            splitter.state().bytes_read == pos,
            whole == split_from(
                splitter.state(),
                byte_views(contents@),
                input@.skip(pos as int),
                b,
                skip_out_of_range,
            ),
        invariant
            b == bounds@,
            total == input@.len(),
            pos <= total,
            splitter.valid(),
            splitter.bounds() == b,
            splitter.skips() == skip_out_of_range,
            chunks_are_named(splitter.chunks(), out_dir@),
            contents@.len() == b.upper.len(),
            whole == split_from(
                SplitState::initial(b.upper.len()),
                no_records(b.upper.len()),
                input@,
                b,
                skip_out_of_range,
            ),
        ensures
            whole == Ok::<_, crate::error::ErrorView>((splitter.state(), byte_views(contents@))),
        decreases total - pos,
    {
        let ghost rest = input@.skip(pos as int);
        let feed: usize = find_byte(input, 10, pos);
        let end: usize = if feed < input.len() {
            feed + 1
        } else {
            feed
        };
        let line: &[u8] = vstd::slice::slice_subrange(input, pos, end);
        proof {
            assert forall|i: int| 0 <= i < feed - pos implies rest[i] != 10 by {
                assert(rest[i] == input@[pos + i]);
            }
            crate::edge_list::lemma_first_line_end(rest, feed - pos);
            assert(line@ =~= rest.take(end - pos));
            assert(rest.skip(end - pos) =~= input@.skip(end as int));
        }
        let ghost state = splitter.state();
        match splitter.take_record(line) {
            Err(e) => {
                return Err(e);
            },
            Ok(SplitAction::Stop) => {
                break;
            },
            Ok(SplitAction::Skip) => {},
            Ok(SplitAction::Write { chunk, open }) => {
                proof {
                    let ts = timestamp_of(line@)->0;
                    records_go_forward(b.upper, state.current, ts);
                }
                append_to(&mut contents, chunk, line);
            },
        }
        pos = end;
    }
    Ok((splitter.into_stats(), contents))
}

/// Splits a transaction list, sorted by time, into chunks of months. Returns
/// the counters and what each chunk holds.
pub fn split(input: &[u8], out_dir: &str, opts: &SplitOpts) -> (r: Result<
    (SplitStats, Vec<Vec<u8>>),
>)
    ensures
        match boundaries_of(opts.start@, opts.end@, opts.months, opts.tz@) {
            Err(e) => r is Err && r->Err_0@ == e,
            Ok(b) => match split_from(
                SplitState::initial(b.upper.len()),
                no_records(b.upper.len()),
                input@,
                b,
                opts.skip_out_of_range,
            ) {
                Ok((state, chunks)) => {
                    &&& r matches Ok((stats, contents))
                    &&& stats@ == state.stats
                    &&& byte_views(contents@) == chunks
                    &&& stats.chunks@.len() == b.upper.len()
                    &&& chunks_are_named(stats.chunks@, out_dir@)
                },
                Err(e) => r is Err && r->Err_0@ == e,
            },
        },
{
    match compute_boundaries(opts) {
        Ok(b) => split_at(b, input, out_dir, opts.skip_out_of_range),
        Err(e) => Err(e),
    }
}

// ---------------------------------------------------------------------------
// What splitting keeps
// ---------------------------------------------------------------------------
/// Where records go: to a chunk not before the one written to last, whose upper
/// bound is above the record's time; and where it is not the one written to
/// last, whose lower bound is not.
pub proof fn records_go_forward(upper: Seq<i64>, current: nat, ts: i64)
    requires
        current < upper.len(),
        ts < upper.last(),
    ensures
        current <= route(upper, current, ts) < upper.len(),
        ts < upper[route(upper, current, ts) as int],
        route(upper, current, ts) > current ==> upper[route(upper, current, ts) - 1] <= ts,
    decreases upper.len() - current,
{
    if current + 1 < upper.len() && ts >= upper[current as int] {
        records_go_forward(upper, current + 1, ts);
    }
}

/// The records that are written from a state on: the chunk that each goes to,
/// and its time.
pub open spec fn routed(state: SplitState, input: Seq<u8>, b: BoundariesView, skip: bool) -> Seq<
    (nat, i64),
>
    decreases input.len(),
{
    if input.len() == 0 {
        Seq::empty()
    } else {
        let n = crate::edge_list::first_line_len(input);
        proof {
            crate::edge_list::lemma_first_line_len(input);
        }
        let line = input.take(n as int);
        let rest = input.skip(n as int);
        match state.after(line, b, skip) {
            Err(_) => Seq::empty(),
            Ok((_, SplitAction::Stop)) => Seq::empty(),
            Ok((next, SplitAction::Skip)) => routed(next, rest, b, skip),
            Ok((next, SplitAction::Write { .. })) => seq![(next.current, timestamp_of(line)->0)]
                + routed(next, rest, b, skip),
        }
    }
}

/// The records are sorted by time.
pub open spec fn sorted_by_time(records: Seq<(nat, i64)>) -> bool {
    forall|i: int, j: int| 0 <= i <= j < records.len() ==> records[i].1 <= records[j].1
}

/// A record is in the chunk whose interval its time is in.
pub open spec fn in_its_interval(record: (nat, i64), b: BoundariesView) -> bool {
    &&& record.0 < b.upper.len()
    &&& record.1 < b.upper[record.0 as int]
    &&& (if record.0 == 0 {
        b.start_ts
    } else {
        b.upper[record.0 - 1]
    }) <= record.1
}

/// From any state on whose last chunk begins not after the records that are
/// left, records sorted by time go to the chunks whose intervals they are in.
proof fn lemma_sorted_records(
    state: SplitState,
    input: Seq<u8>,
    b: BoundariesView,
    skip: bool,
)
    requires
        state.current < b.upper.len(),
        sorted_by_time(routed(state, input, b, skip)),
        state.current > 0 ==> forall|i: int|
            0 <= i < routed(state, input, b, skip).len() ==> b.upper[state.current - 1]
                <= (#[trigger] routed(state, input, b, skip)[i]).1,
    ensures
        forall|i: int|
            0 <= i < routed(state, input, b, skip).len() ==> in_its_interval(
                #[trigger] routed(state, input, b, skip)[i],
                b,
            ),
    decreases input.len(),
{
    if input.len() > 0 {
        let n = crate::edge_list::first_line_len(input);
        crate::edge_list::lemma_first_line_len(input);
        let line = input.take(n as int);
        let rest = input.skip(n as int);
        let all = routed(state, input, b, skip);
        match state.after(line, b, skip) {
            Err(_) => {
                assert(all.len() == 0);
            },
            Ok((_, SplitAction::Stop)) => {
                assert(all.len() == 0);
            },
            Ok((next, SplitAction::Skip)) => {
                assert(all == routed(next, rest, b, skip));
                lemma_sorted_records(next, rest, b, skip);
            },
            Ok((next, SplitAction::Write { .. })) => {
                let ts = timestamp_of(line)->0;
                let later = routed(next, rest, b, skip);
                assert(all == seq![(next.current, ts)] + later);
                assert(all[0] == (next.current, ts));
                records_go_forward(b.upper, state.current, ts);
                assert forall|i: int| 0 <= i < later.len() implies later[i] == all[i + 1] by {}
                assert forall|i: int, j: int| 0 <= i <= j < later.len() implies later[i].1
                    <= later[j].1 by {
                    assert(all[i + 1].1 <= all[j + 1].1);
                }
                if next.current > 0 {
                    assert(b.upper[next.current - 1] <= ts);
                    assert forall|i: int| 0 <= i < later.len() implies b.upper[next.current - 1]
                        <= (#[trigger] later[i]).1 by {
                        assert(all[0].1 <= all[i + 1].1);
                    }
                }
                lemma_sorted_records(next, rest, b, skip);
                assert forall|i: int| 0 <= i < all.len() implies in_its_interval(
                    #[trigger] all[i],
                    b,
                ) by {
                    if i > 0 {
                        assert(all[i] == later[i - 1]);
                    }
                }
            },
        }
    }
}

/// Of a list that is sorted by time every record goes to the chunk whose
/// interval its time is in.
pub proof fn sorted_records_land_in_their_interval(input: Seq<u8>, b: BoundariesView, skip: bool)
    requires
        b.upper.len() > 0,
        sorted_by_time(routed(SplitState::initial(b.upper.len()), input, b, skip)),
    ensures
        forall|i: int|
            0 <= i < routed(SplitState::initial(b.upper.len()), input, b, skip).len()
                ==> in_its_interval(
                #[trigger] routed(SplitState::initial(b.upper.len()), input, b, skip)[i],
                b,
            ),
{
    lemma_sorted_records(SplitState::initial(b.upper.len()), input, b, skip);
}

/// Some chunks, one after another.
pub open spec fn joined(chunks: Seq<Seq<u8>>) -> Seq<u8>
    decreases chunks.len(),
{
    if chunks.len() == 0 {
        Seq::empty()
    } else {
        joined(chunks.drop_last()) + chunks.last()
    }
}

/// The records in range, one after another, up to the one that ends the run.
pub open spec fn in_range(input: Seq<u8>, b: BoundariesView, skip: bool) -> Seq<u8>
    decreases input.len(),
{
    if input.len() == 0 {
        Seq::empty()
    } else {
        let n = crate::edge_list::first_line_len(input);
        proof {
            crate::edge_list::lemma_first_line_len(input);
        }
        let line = input.take(n as int);
        let rest = in_range(input.skip(n as int), b, skip);
        if is_blank_record(line) || timestamp_of(line) is None || timestamp_of(line)->0
            < b.start_ts {
            rest
        } else if timestamp_of(line)->0 < b.upper.last() {
            line + rest
        } else if skip {
            rest
        } else {
            Seq::empty()
        }
    }
}

/// Appending to a chunk appends to the whole, where the chunks after it are
/// empty.
proof fn lemma_joined_append(chunks: Seq<Seq<u8>>, c: int, line: Seq<u8>)
    requires
        0 <= c < chunks.len(),
        forall|i: int| c < i < chunks.len() ==> (#[trigger] chunks[i]).len() == 0,
    ensures
        joined(chunks.update(c, chunks[c] + line)) == joined(chunks) + line,
    decreases chunks.len(),
{
    let new = chunks.update(c, chunks[c] + line);
    let init = chunks.drop_last();
    if c == chunks.len() - 1 {
        assert(new.drop_last() =~= init);
        assert(joined(new) =~= joined(chunks) + line);
    } else {
        assert(new.drop_last() =~= init.update(c, init[c] + line));
        assert forall|i: int| c < i < init.len() implies (#[trigger] init[i]).len() == 0 by {
            assert(init[i] == chunks[i]);
        }
        lemma_joined_append(init, c, line);
        assert(chunks.last().len() == 0);
        assert(joined(new) =~= joined(chunks) + line);
    }
}

/// Nothing is lost, nothing is duplicated and nothing is reordered: the chunks,
/// one after another, are what they were, followed by the records in range, one
/// after another, byte for byte.
pub proof fn splitting_keeps_every_record(
    state: SplitState,
    chunks: Seq<Seq<u8>>,
    input: Seq<u8>,
    b: BoundariesView,
    skip: bool,
)
    requires
        split_from(state, chunks, input, b, skip) is Ok,
        state.current < b.upper.len() == chunks.len() <= usize::MAX,
        forall|i: int| state.current < i < chunks.len() ==> (#[trigger] chunks[i]).len() == 0,
    ensures
        joined(split_from(state, chunks, input, b, skip)->Ok_0.1) == joined(chunks) + in_range(
            input,
            b,
            skip,
        ),
    decreases input.len(),
{
    if input.len() == 0 {
        assert(joined(chunks) + in_range(input, b, skip) =~= joined(chunks));
    } else {
        let n = crate::edge_list::first_line_len(input);
        crate::edge_list::lemma_first_line_len(input);
        let line = input.take(n as int);
        let rest = input.skip(n as int);
        let (next, action) = state.after(line, b, skip)->Ok_0;
        if is_blank_record(line) {
            splitting_keeps_every_record(next, chunks, rest, b, skip);
        } else {
            let ts = timestamp_of(line)->0;
            if ts < b.start_ts {
                splitting_keeps_every_record(next, chunks, rest, b, skip);
            } else if ts >= b.upper.last() {
                if skip {
                    splitting_keeps_every_record(next, chunks, rest, b, skip);
                } else {
                    assert(joined(chunks) + in_range(input, b, skip) =~= joined(chunks));
                }
            } else {
                records_go_forward(b.upper, state.current, ts);
                let c = route(b.upper, state.current, ts) as int;
                let more = chunks.update(c, chunks[c] + line);
                lemma_joined_append(chunks, c, line);
                assert forall|i: int| c < i < more.len() implies (#[trigger] more[i]).len()
                    == 0 by {
                    assert(more[i] == chunks[i]);
                }
                splitting_keeps_every_record(next, more, rest, b, skip);
                assert(joined(more) + in_range(rest, b, skip) =~= joined(chunks) + in_range(
                    input,
                    b,
                    skip,
                ));
            }
        }
    }
}

/// The counters agree with what is written: the bytes of each chunk.
pub open spec fn bytes_agree(state: SplitState, chunks: Seq<Seq<u8>>) -> bool {
    forall|i: int|
        0 <= i < chunks.len() ==> (#[trigger] chunks[i]).len() == state.stats.chunks[i].bytes
}

/// A run keeps its counters and what it has written in agreement.
pub proof fn splitting_counts_every_byte(
    state: SplitState,
    chunks: Seq<Seq<u8>>,
    input: Seq<u8>,
    b: BoundariesView,
    skip: bool,
)
    requires
        split_from(state, chunks, input, b, skip) is Ok,
        state.coherent(b.upper.len()),
        chunks.len() == b.upper.len(),
        chunks.len() <= usize::MAX,
        bytes_agree(state, chunks),
        state.bytes_read + input.len() <= u64::MAX,
    ensures
        ({
            let (end, out) = split_from(state, chunks, input, b, skip)->Ok_0;
            end.coherent(b.upper.len()) && out.len() == chunks.len() && bytes_agree(end, out)
        }),
    decreases input.len(),
{
    if input.len() > 0 {
        let n = crate::edge_list::first_line_len(input);
        crate::edge_list::lemma_first_line_len(input);
        let line = input.take(n as int);
        let rest = input.skip(n as int);
        let (next, action) = state.after(line, b, skip)->Ok_0;
        match action {
            SplitAction::Stop => {},
            SplitAction::Skip => {
                splitting_counts_every_byte(next, chunks, rest, b, skip);
            },
            SplitAction::Write { chunk, open } => {
                let ts = timestamp_of(line)->0;
                records_go_forward(b.upper, state.current, ts);
                let c = chunk as int;
                let more = chunks.update(c, chunks[c] + line);
                assert(state.stats.chunks[c].bytes <= state.bytes_read);
                assert forall|i: int| 0 <= i < more.len() implies (#[trigger] more[i]).len()
                    == next.stats.chunks[i].bytes by {
                    assert(chunks[i].len() == state.stats.chunks[i].bytes);
                }
                splitting_counts_every_byte(next, more, rest, b, skip);
            },
        }
    }
}

// ---------------------------------------------------------------------------
// What splitting is for
// ---------------------------------------------------------------------------
/// A record is blank exactly when every byte of it is a space, a tab, a form
/// feed or an end of line, however long it is.
pub proof fn only_white_space_is_blank(line: Seq<u8>, i: int)
    ensures
        0 <= i < line.len() && line[i] != 9 && line[i] != 10 && line[i] != 12 && line[i] != 13
            && line[i] != 32 ==> !is_blank_record(line),
        (forall|j: int|
            0 <= j < line.len() ==> #[trigger] line[j] == 9 || line[j] == 10 || line[j] == 12
                || line[j] == 13 || line[j] == 32) ==> is_blank_record(line),
{
    if 0 <= i < line.len() && is_blank_record(line) {
        assert(is_ascii_space(line[i]));
    }
}

/// Digits that write a timestamp.
pub open spec fn writes_time(digits: Seq<u8>, ts: i64) -> bool {
    &&& digits.len() > 0
    &&& forall|i: int| 0 <= i < digits.len() ==> 48 <= #[trigger] digits[i] <= 57
    &&& text::digits_value(digits) == ts
}

/// The time of a record is the number that it begins with, up to its first comma
/// or to its end; what follows is not looked at.
pub proof fn records_begin_with_their_time(digits: Seq<u8>, rest: Seq<u8>, ts: i64)
    requires
        writes_time(digits, ts),
    ensures
        timestamp_of(digits.push(44) + rest) == Some(ts),
        timestamp_of(digits) == Some(ts),
        !is_blank_record(digits.push(44) + rest),
        !is_blank_record(digits),
{
    let line = digits.push(44) + rest;
    assert(line[digits.len() as int] == 44);
    text::lemma_pieces_front(line, 44, digits.len() as int);
    assert(line.take(digits.len() as int) =~= digits);
    assert(!digits.contains(44));
    text::lemma_pieces_single(digits, 44);
    assert forall|i: int| 0 <= i < digits.len() implies #[trigger] digits[i] < 128 by {}
    text::ascii_bytes_are_characters(digits);
    let s = decode_utf8(digits);
    assert(s[0] as int == digits[0]);
    assert(s[s.len() - 1] as int == digits[digits.len() - 1]);
    text::trimming_takes_white_space_off(Seq::empty(), s, Seq::empty());
    assert(Seq::<char>::empty() + s + Seq::<char>::empty() =~= s);
    decode_utf8_encode_utf8(digits);
    text::digits_are_read(digits);
    only_white_space_is_blank(line, 0);
    only_white_space_is_blank(digits, 0);
    assert(line[0] == digits[0]);
}

/// A record that does not begin with a number is refused, unless it is blank.
pub proof fn records_without_time_are_refused(
    state: SplitState,
    field: Seq<u8>,
    rest: Seq<u8>,
    b: BoundariesView,
    skip: bool,
    i: int,
)
    requires
        state.line_no < u64::MAX,
        0 <= i < field.len(),
        forall|j: int| 0 <= j < field.len() ==> 33 <= #[trigger] field[j] < 127 && field[j] != 44,
        !(48 <= field[i] <= 57) && !(i == 0 && (field[0] == 43 || field[0] == 45)),
    ensures
        state.after(field.push(44) + rest, b, skip) == Err::<
            (SplitState, SplitAction),
            crate::error::ErrorView,
        >(
            crate::error::ErrorView::BadInteger {
                line: (state.line_no + 1) as u64,
                field: "timestamp"@,
                value: text::utf8_lossy(field),
            },
        ),
{
    let line = field.push(44) + rest;
    assert(line[field.len() as int] == 44);
    text::lemma_pieces_front(line, 44, field.len() as int);
    assert(line.take(field.len() as int) =~= field);
    text::ascii_bytes_are_characters(field);
    let s = decode_utf8(field);
    assert(s[0] as int == field[0]);
    assert(s[s.len() - 1] as int == field[field.len() - 1]);
    text::trimming_takes_white_space_off(Seq::empty(), s, Seq::empty());
    assert(Seq::<char>::empty() + s + Seq::<char>::empty() =~= s);
    decode_utf8_encode_utf8(field);
    text::only_digits_are_read(field, i);
    assert(first_field(line) == field);
    assert(timestamp_of(line) is None);
    assert(!is_blank_record(line)) by {
        assert(line[0] == field[0]);
        only_white_space_is_blank(line, 0);
    }
}

/// White space around the time of a record is not looked at.
pub proof fn space_around_a_time_is_not_significant(
    before: Seq<u8>,
    digits: Seq<u8>,
    after: Seq<u8>,
    rest: Seq<u8>,
    ts: i64,
)
    requires
        writes_time(digits, ts),
        forall|i: int| 0 <= i < before.len() ==> #[trigger] before[i] == 32 || before[i] == 9,
        forall|i: int| 0 <= i < after.len() ==> #[trigger] after[i] == 32 || after[i] == 9,
    ensures
        timestamp_of((before + digits + after).push(44) + rest) == Some(ts),
        timestamp_of(before + digits + after) == Some(ts),
{
    let field = before + digits + after;
    let line = field.push(44) + rest;
    assert forall|i: int| 0 <= i < field.len() implies #[trigger] field[i] < 128 && field[i] != 44 by {
        if i < before.len() {
            assert(field[i] == before[i]);
        } else if i < before.len() + digits.len() {
            assert(field[i] == digits[i - before.len()]);
        } else {
            assert(field[i] == after[i - before.len() - digits.len()]);
        }
    }
    assert forall|i: int| 0 <= i < field.len() implies line[i] != 44 by {
        assert(line[i] == field[i]);
    }
    assert(line[field.len() as int] == 44);
    text::lemma_pieces_front(line, 44, field.len() as int);
    assert(line.take(field.len() as int) =~= field);
    assert(!field.contains(44));
    text::lemma_pieces_single(field, 44);
    text::ascii_bytes_are_characters(field);
    let s = decode_utf8(field);
    let (a, b) = (before.len() as int, (before.len() + digits.len()) as int);
    let (x, t, y) = (s.take(a), s.subrange(a, b), s.skip(b));
    assert(s =~= x + t + y);
    assert forall|i: int| 0 <= i < x.len() implies text::is_white_space(#[trigger] x[i]) by {
        assert(s[i] as int == field[i] && field[i] == before[i]);
    }
    assert forall|i: int| 0 <= i < y.len() implies text::is_white_space(#[trigger] y[i]) by {
        assert(s[b + i] as int == field[b + i] && field[b + i] == after[i]);
    }
    assert forall|i: int| 0 <= i < t.len() implies (#[trigger] t[i]) as int == digits[i] by {
        assert(s[a + i] as int == field[a + i] && field[a + i] == digits[i]);
    }
    assert(t[0] as int == digits[0] && t[t.len() - 1] as int == digits[digits.len() - 1]);
    text::printing_characters_are_no_white_space(t[0]);
    text::printing_characters_are_no_white_space(t.last());
    text::trimming_takes_white_space_off(x, t, y);
    assert forall|i: int| 0 <= i < digits.len() implies #[trigger] digits[i] < 128 by {}
    text::ascii_bytes_are_characters(digits);
    assert(t =~= decode_utf8(digits)) by {
        assert forall|i: int| 0 <= i < t.len() implies t[i] == decode_utf8(digits)[i] by {
            assert(t[i] as int == digits[i] && decode_utf8(digits)[i] as int == digits[i]);
        }
    }
    decode_utf8_encode_utf8(digits);
    text::digits_are_read(digits);
}

/// Some lines, one after another.
pub open spec fn concatenated(lines: Seq<Seq<u8>>) -> Seq<u8>
    decreases lines.len(),
{
    if lines.len() == 0 {
        Seq::empty()
    } else {
        lines[0] + concatenated(lines.drop_first())
    }
}

/// A line: it has one line feed, at its end; the last one may have none.
pub open spec fn is_line(line: Seq<u8>, last: bool) -> bool {
    &&& line.len() > 0
    &&& forall|i: int| 0 <= i < line.len() - 1 ==> #[trigger] line[i] != 10
    &&& line.last() == 10 || last
}

/// A line holds a record of the given time, or, where none is given, is blank.
pub open spec fn has_time(line: Seq<u8>, time: Option<i64>) -> bool {
    match time {
        Some(ts) => exists|digits: Seq<u8>, rest: Seq<u8>|
            writes_time(digits, ts) && line == #[trigger] (digits.push(44) + rest),
        None => forall|i: int|
            0 <= i < line.len() ==> #[trigger] line[i] == 9 || line[i] == 10 || line[i] == 12
                || line[i] == 13 || line[i] == 32,
    }
}

/// A list of records and blank lines, with the times of the records.
pub open spec fn is_list(lines: Seq<Seq<u8>>, times: Seq<Option<i64>>) -> bool {
    &&& lines.len() == times.len()
    &&& forall|i: int|
        0 <= i < lines.len() ==> is_line(#[trigger] lines[i], i == lines.len() - 1) && has_time(
            lines[i],
            times[i],
        )
}

/// The records whose time is from `lo` to before `hi`, one after another.
pub open spec fn lines_between(
    lines: Seq<Seq<u8>>,
    times: Seq<Option<i64>>,
    lo: int,
    hi: int,
) -> Seq<u8>
    decreases lines.len(),
{
    if lines.len() == 0 {
        Seq::empty()
    } else {
        let rest = lines_between(lines.drop_first(), times.drop_first(), lo, hi);
        if times[0] is Some && lo <= times[0]->0 < hi {
            lines[0] + rest
        } else {
            rest
        }
    }
}

/// How many records have a time from `lo` to before `hi`.
pub open spec fn count_between(times: Seq<Option<i64>>, lo: int, hi: int) -> nat
    decreases times.len(),
{
    if times.len() == 0 {
        0
    } else {
        count_between(times.drop_first(), lo, hi) + if times[0] is Some && lo <= times[0]->0 < hi {
            1nat
        } else {
            0
        }
    }
}

/// Where a chunk begins.
pub open spec fn lower_bound(b: BoundariesView, c: int) -> int {
    if c == 0 {
        b.start_ts as int
    } else {
        b.upper[c - 1] as int
    }
}

/// The records in range are sorted by time.
pub open spec fn times_ascend(times: Seq<Option<i64>>, b: BoundariesView) -> bool {
    forall|i: int, j: int|
        0 <= i <= j < times.len() && (#[trigger] times[i]) is Some && (#[trigger] times[j]) is Some
            && b.start_ts <= times[i]->0 && b.start_ts <= times[j]->0 < b.upper.last() ==> times[i]->0
            <= times[j]->0
}

/// Splitting a list that is sorted by time puts every record, byte for byte, into
/// the chunk whose interval its time is in, in the order of the list, and
/// nothing else into any chunk: blank lines and records out of range are left
/// out. Every record is counted where it goes.
pub proof fn every_record_goes_to_its_chunk(
    lines: Seq<Seq<u8>>,
    times: Seq<Option<i64>>,
    b: BoundariesView,
    skip: bool,
)
    requires
        is_list(lines, times),
        0 < b.upper.len() <= usize::MAX,
        ascending(b.upper),
        b.start_ts <= b.upper[0],
        times_ascend(times, b),
        skip || forall|i: int|
            0 <= i < times.len() && (#[trigger] times[i]) is Some ==> times[i]->0 < b.upper.last(),
        lines.len() <= u64::MAX,
    ensures
        ({
            let r = split_from(
                SplitState::initial(b.upper.len()),
                no_records(b.upper.len()),
                concatenated(lines),
                b,
                skip,
            );
            &&& r is Ok
            &&& r->Ok_0.1.len() == b.upper.len()
            &&& forall|c: int|
                0 <= c < b.upper.len() ==> #[trigger] r->Ok_0.1[c] == lines_between(
                    lines,
                    times,
                    lower_bound(b, c),
                    b.upper[c] as int,
                )
            &&& forall|c: int|
                0 <= c < b.upper.len() ==> (#[trigger] r->Ok_0.0.stats.chunks[c]).records
                    == count_between(times, lower_bound(b, c), b.upper[c] as int)
            &&& r->Ok_0.0.stats.records_written == count_between(
                times,
                b.start_ts as int,
                b.upper.last() as int,
            )
            &&& r->Ok_0.0.stats.records_before_start == count_between(
                times,
                i64::MIN as int,
                b.start_ts as int,
            )
        }),
{
    let n = b.upper.len();
    let state = SplitState::initial(n);
    lemma_split_list(state, no_records(n), lines, times, b, skip);
    let r = split_from(state, no_records(n), concatenated(lines), b, skip);
    assert forall|c: int| 0 <= c < n implies #[trigger] r->Ok_0.1[c] == lines_between(
        lines,
        times,
        lower_bound(b, c),
        b.upper[c] as int,
    ) by {
        assert(r->Ok_0.1[c] =~= lines_between(lines, times, lower_bound(b, c), b.upper[c] as int));
    }
}

proof fn lemma_first_line(line: Seq<u8>, rest: Seq<u8>)
    requires
        is_line(line, rest.len() == 0),
    ensures
        crate::edge_list::first_line_len(line + rest) == line.len(),
        (line + rest).take(line.len() as int) == line,
        (line + rest).skip(line.len() as int) == rest,
{
    let all = line + rest;
    assert(all.take(line.len() as int) =~= line);
    assert(all.skip(line.len() as int) =~= rest);
    let p = if line.last() == 10 {
        line.len() - 1
    } else {
        line.len() as int
    };
    assert forall|i: int| 0 <= i < p implies all[i] != 10 by {
        assert(all[i] == line[i]);
        if i == line.len() - 1 {
            assert(line[i] == line.last());
        }
    }
    crate::edge_list::lemma_first_line_end(all, p);
}

proof fn lemma_concatenated_empty(lines: Seq<Seq<u8>>)
    requires
        lines.len() > 0,
        lines[0].len() > 0,
    ensures
        concatenated(lines).len() > 0,
{
}

/// What holds of the times of a list holds of those after its first line.
proof fn lemma_list_tail(
    current: nat,
    lines: Seq<Seq<u8>>,
    times: Seq<Option<i64>>,
    b: BoundariesView,
    skip: bool,
)
    requires
        lines.len() > 0,
        is_list(lines, times),
        times_ascend(times, b),
        skip || forall|i: int|
            0 <= i < times.len() && (#[trigger] times[i]) is Some ==> times[i]->0 < b.upper.last(),
        current > 0 ==> forall|i: int|
            0 <= i < times.len() && (#[trigger] times[i]) is Some && b.start_ts <= times[i]->0
                ==> b.upper[current - 1] <= times[i]->0,
    ensures
        is_list(lines.drop_first(), times.drop_first()),
        times_ascend(times.drop_first(), b),
        skip || forall|i: int|
            0 <= i < times.drop_first().len() && (#[trigger] times.drop_first()[i]) is Some
                ==> times.drop_first()[i]->0 < b.upper.last(),
        current > 0 ==> forall|i: int|
            0 <= i < times.drop_first().len() && (#[trigger] times.drop_first()[i]) is Some
                && b.start_ts <= times.drop_first()[i]->0 ==> b.upper[current - 1]
                <= times.drop_first()[i]->0,
{
    let rest = lines.drop_first();
    let later = times.drop_first();
    assert forall|i: int| 0 <= i < rest.len() implies is_line(
        #[trigger] rest[i],
        i == rest.len() - 1,
    ) && has_time(rest[i], later[i]) by {
        assert(rest[i] == lines[i + 1]);
        assert(later[i] == times[i + 1]);
    }
    assert forall|i: int, j: int|
        0 <= i <= j < later.len() && (#[trigger] later[i]) is Some && (#[trigger] later[j]) is Some
            && b.start_ts <= later[i]->0 && b.start_ts <= later[j]->0 < b.upper.last() implies later[i]->0
        <= later[j]->0 by {
        assert(later[i] == times[i + 1] && later[j] == times[j + 1]);
    }
    assert forall|i: int| 0 <= i < later.len() && (#[trigger] later[i]) is Some && !skip implies later[i]->0
        < b.upper.last() by {
        assert(later[i] == times[i + 1]);
    }
    if current > 0 {
        assert forall|i: int|
            0 <= i < later.len() && (#[trigger] later[i]) is Some && b.start_ts <= later[i]->0 implies b.upper[current
            - 1] <= later[i]->0 by {
            assert(later[i] == times[i + 1]);
        }
    }
}

/// A time in one interval is in no other, and one out of range is in none.
proof fn lemma_one_interval(b: BoundariesView, ts: i64, c: int, t: int)
    requires
        0 <= c < b.upper.len(),
        0 <= t < b.upper.len(),
        ascending(b.upper),
        b.start_ts <= b.upper[0],
    ensures
        c != t && lower_bound(b, t) <= ts < b.upper[t] ==> !(lower_bound(b, c) <= ts < b.upper[c]),
        ts < b.start_ts || ts >= b.upper.last() ==> !(lower_bound(b, c) <= ts < b.upper[c]),
{
    let n = b.upper.len() as int;
    if c < n - 1 {
        assert(b.upper[c] < b.upper[n - 1]);
    }
    if c > 1 {
        assert(b.upper[0] < b.upper[c - 1]);
    }
    if c < t - 1 {
        assert(b.upper[c] < b.upper[t - 1]);
    }
    if t < c - 1 {
        assert(b.upper[t] < b.upper[c - 1]);
    }
}

#[verifier::spinoff_prover]
#[verifier::rlimit(60)]
proof fn lemma_split_list(
    state: SplitState,
    chunks: Seq<Seq<u8>>,
    lines: Seq<Seq<u8>>,
    times: Seq<Option<i64>>,
    b: BoundariesView,
    skip: bool,
)
    requires
        is_list(lines, times),
        state.current < b.upper.len() == chunks.len() == state.stats.chunks.len() <= usize::MAX,
        ascending(b.upper),
        b.start_ts <= b.upper[0],
        times_ascend(times, b),
        skip || forall|i: int|
            0 <= i < times.len() && (#[trigger] times[i]) is Some ==> times[i]->0 < b.upper.last(),
        state.current > 0 ==> forall|i: int|
            0 <= i < times.len() && (#[trigger] times[i]) is Some && b.start_ts <= times[i]->0
                ==> b.upper[state.current - 1] <= times[i]->0,
        state.stats.records_written + lines.len() <= u64::MAX,
        state.stats.records_before_start + lines.len() <= u64::MAX,
        forall|c: int|
            0 <= c < chunks.len() ==> (#[trigger] state.stats.chunks[c]).records + lines.len()
                <= u64::MAX,
    ensures
        ({
            let r = split_from(state, chunks, concatenated(lines), b, skip);
            &&& r is Ok
            &&& r->Ok_0.1.len() == chunks.len()
            &&& r->Ok_0.0.stats.chunks.len() == chunks.len()
            &&& forall|c: int|
                0 <= c < chunks.len() ==> #[trigger] r->Ok_0.1[c] == chunks[c] + lines_between(
                    lines,
                    times,
                    lower_bound(b, c),
                    b.upper[c] as int,
                )
            &&& forall|c: int|
                0 <= c < chunks.len() ==> (#[trigger] r->Ok_0.0.stats.chunks[c]).records
                    == state.stats.chunks[c].records + count_between(
                    times,
                    lower_bound(b, c),
                    b.upper[c] as int,
                )
            &&& r->Ok_0.0.stats.records_written == state.stats.records_written + count_between(
                times,
                b.start_ts as int,
                b.upper.last() as int,
            )
            &&& r->Ok_0.0.stats.records_before_start == state.stats.records_before_start
                + count_between(times, i64::MIN as int, b.start_ts as int)
        }),
    decreases lines.len(),
{
    let all = concatenated(lines);
    if lines.len() == 0 {
        assert forall|c: int| 0 <= c < chunks.len() implies #[trigger] chunks[c] == chunks[c]
            + lines_between(lines, times, lower_bound(b, c), b.upper[c] as int) by {
            assert(chunks[c] =~= chunks[c] + lines_between(
                lines,
                times,
                lower_bound(b, c),
                b.upper[c] as int,
            ));
        }
    } else {
        let line = lines[0];
        let rest = lines.drop_first();
        let later = times.drop_first();
        assert(is_line(lines[0], 0 == lines.len() - 1));
        if lines.len() > 1 {
            assert(rest[0] == lines[1]);
            assert(is_line(lines[1], 1 == lines.len() - 1));
            lemma_concatenated_empty(rest);
        } else {
            assert(rest =~= Seq::empty());
        }
        lemma_first_line(line, concatenated(rest));
        assert(all.len() > 0);
        lemma_list_tail(state.current, lines, times, b, skip);
        assert(has_time(lines[0], times[0]));
        if times[0] is None {
            only_white_space_is_blank(line, 0);
            let next = state.after(line, b, skip)->Ok_0.0;
            lemma_split_list(next, chunks, rest, later, b, skip);
        } else {
            let ts = times[0]->0;
            let (digits, tail) = choose|digits: Seq<u8>, tail: Seq<u8>|
                writes_time(digits, ts) && line == #[trigger] (digits.push(44) + tail);
            records_begin_with_their_time(digits, tail, ts);
            let next = state.after(line, b, skip)->Ok_0.0;
            if ts < b.start_ts || ts >= b.upper.last() {
                assert forall|c: int| 0 <= c < chunks.len() implies !(lower_bound(b, c) <= ts
                    < #[trigger] b.upper[c]) by {
                    lemma_one_interval(b, ts, c, c);
                }
                lemma_split_list(next, chunks, rest, later, b, skip);
            } else {
                records_go_forward(b.upper, state.current, ts);
                let t = route(b.upper, state.current, ts) as int;
                let more = chunks.update(t, chunks[t] + line);
                if t > 0 {
                    assert(b.upper[t - 1] <= ts);
                }
                assert(lower_bound(b, t) <= ts < b.upper[t]);
                if next.current > 0 {
                    assert forall|i: int|
                        0 <= i < later.len() && (#[trigger] later[i]) is Some && b.start_ts
                            <= later[i]->0 implies b.upper[next.current - 1] <= later[i]->0 by {
                        assert(later[i] == times[i + 1]);
                        if later[i]->0 < b.upper.last() {
                            assert(times[0]->0 <= times[i + 1]->0);
                        } else if t - 1 < chunks.len() - 1 {
                            assert(b.upper[t - 1] < b.upper[chunks.len() - 1]);
                        }
                    }
                }
                assert forall|c: int| 0 <= c < chunks.len() && c != t implies !(lower_bound(b, c)
                    <= ts < #[trigger] b.upper[c]) by {
                    lemma_one_interval(b, ts, c, t);
                }
                lemma_split_list(next, more, rest, later, b, skip);
                let r = split_from(state, chunks, all, b, skip);
                assert forall|c: int| 0 <= c < chunks.len() implies #[trigger] r->Ok_0.1[c]
                    == chunks[c] + lines_between(
                    lines,
                    times,
                    lower_bound(b, c),
                    b.upper[c] as int,
                ) by {
                    let between = lines_between(rest, later, lower_bound(b, c), b.upper[c] as int);
                    assert(r->Ok_0.1[c] == more[c] + between);
                    if c == t {
                        assert(more[c] + between =~= chunks[c] + (line + between));
                    }
                }
            }
        }
    }
}

/// A record at or after the end ends the run, unless such records are skipped;
/// either way nothing is written of it, and the first of them is remembered.
pub proof fn the_end_is_not_written(
    state: SplitState,
    digits: Seq<u8>,
    rest: Seq<u8>,
    ts: i64,
    b: BoundariesView,
    skip: bool,
)
    requires
        writes_time(digits, ts),
        b.upper.last() <= ts,
        b.start_ts <= ts,
        state.line_no < u64::MAX,
    ensures
        ({
            let (next, action) = state.after(digits.push(44) + rest, b, skip)->Ok_0;
            &&& state.after(digits.push(44) + rest, b, skip) is Ok
            &&& action == if skip {
                SplitAction::Skip
            } else {
                SplitAction::Stop
            }
            &&& next.stats.chunks == state.stats.chunks
            &&& next.stats.records_written == state.stats.records_written
            &&& next.stats.records_before_start == state.stats.records_before_start
            &&& next.stats.stopped_early_at == if state.stats.stopped_early_at is None {
                Some(((state.line_no + 1) as u64, ts))
            } else {
                state.stats.stopped_early_at
            }
        }),
{
    records_begin_with_their_time(digits, rest, ts);
}

/// A record that is written leaves its time as the last one of its chunk, and as
/// the first where there was none, and its length in the bytes of the chunk; the
/// other chunks stay as they were. A chunk is opened when it is gone to.
pub proof fn chunks_remember_their_records(
    state: SplitState,
    digits: Seq<u8>,
    rest: Seq<u8>,
    ts: i64,
    b: BoundariesView,
    skip: bool,
    c: int,
)
    requires
        writes_time(digits, ts),
        b.start_ts <= ts < b.upper.last(),
        state.current < b.upper.len() == state.stats.chunks.len() <= usize::MAX,
        state.line_no < u64::MAX,
        0 <= c < b.upper.len(),
        state.stats.chunks[c].bytes + digits.len() + 1 + rest.len() <= u64::MAX,
    ensures
        ({
            let (next, action) = state.after(digits.push(44) + rest, b, skip)->Ok_0;
            &&& action matches SplitAction::Write { chunk, open }
            &&& chunk == next.current
            &&& open <==> !state.writing || next.current != state.current
            &&& next.writing
            &&& c != next.current ==> next.stats.chunks[c] == state.stats.chunks[c]
            &&& c == next.current ==> {
                &&& next.stats.chunks[c].last_ts == Some(ts)
                &&& next.stats.chunks[c].first_ts == if state.stats.chunks[c].first_ts is None {
                    Some(ts)
                } else {
                    state.stats.chunks[c].first_ts
                }
                &&& next.stats.chunks[c].bytes == state.stats.chunks[c].bytes + digits.len() + 1
                    + rest.len()
            }
        }),
{
    records_begin_with_their_time(digits, rest, ts);
    records_go_forward(b.upper, state.current, ts);
}

/// A date is read as it is written: a year, a month and a day, with `-` between
/// them, and nothing else is a date.
pub proof fn dates_are_read_as_written(parts: Seq<Seq<u8>>)
    requires
        parts.len() > 0,
        text::free_of(parts, 45),
    ensures
        parts.len() == 3 && text::i32_value(parts[0]) is Some && text::u32_value(parts[1]) is Some
            && text::u32_value(parts[2]) is Some ==> date_of(text::joined_by(parts, 45)) == Some(
            (
                text::i32_value(parts[0])->0,
                text::u32_value(parts[1])->0,
                text::u32_value(parts[2])->0,
            ),
        ),
        parts.len() != 3 || text::i32_value(parts[0]) is None || text::u32_value(parts[1]) is None
            || text::u32_value(parts[2]) is None ==> date_of(text::joined_by(parts, 45)) is None,
{
    text::cutting_undoes_joining(parts, 45);
}

/// The end of a chunk is the midnight that the first day of a month begins with:
/// of the month that comes `months` months after the one before, twelve to a
/// year. There are as many chunks as it takes to come to the end's month.
pub proof fn chunks_end_with_months(
    start: Seq<char>,
    end: Seq<char>,
    months: u32,
    tz: Seq<char>,
    i: int,
    y: i32,
    m: u32,
)
    requires
        boundaries_of(start, end, months, tz) is Ok,
        0 <= i < boundaries_of(start, end, months, tz)->Ok_0.upper.len(),
        1 <= m <= 12,
        ({
            let (sy, sm, sd) = date_of(encode_utf8(start))->0;
            12 * y + m == 12 * sy + sm + (i + 1) * months
        }),
    ensures
        ({
            let b = boundaries_of(start, end, months, tz)->Ok_0;
            let (sy, sm, sd) = date_of(encode_utf8(start))->0;
            let (ey, em, ed) = date_of(encode_utf8(end))->0;
            &&& calendar::midnight_in(b.tz, y, m, 1) == Some(b.upper[i])
            &&& calendar::midnight_in(b.tz, sy, sm, sd) == Some(b.start_ts)
            &&& calendar::midnight_in(b.tz, ey, em, ed) == Some(b.upper.last())
            &&& 12 * sy + sm + (b.upper.len() - 1) * months < 12 * ey + em <= 12 * sy + sm
                + b.upper.len() * months
        }),
{
    let b = boundaries_of(start, end, months, tz)->Ok_0;
    let (sy, sm, sd) = date_of(encode_utf8(start))->0;
    let (ey, em, ed) = date_of(encode_utf8(end))->0;
    boundaries_are_month_starts(start, end, months, tz);
    let k = month_index(sy as int, sm as int);
    lemma_bounds_from(b.tz, k, month_index(ey as int, em as int), months as nat, Seq::empty());
    let n = k + (i + 1) * months;
    assert(month_midnight(b.tz, n) == Some(b.upper[i]));
    assert(n == 12 * y + (m - 1));
    assert(n / 12 == y && n % 12 == m - 1);
}

/// Boundaries are given wherever they can be: for a zone and two dates that can
/// be read, whose midnights there are, where the months come out at the end's
/// month, its midnights all exist, and the last of them is the end.
pub proof fn boundaries_are_given(
    start: Seq<char>,
    end: Seq<char>,
    months: u32,
    tz: Seq<char>,
    chunks: nat,
)
    requires
        months > 0,
        zone_of(tz) is Some,
        date_of(encode_utf8(start)) is Some,
        date_of(encode_utf8(end)) is Some,
        0 < chunks <= 100_000,
        ({
            let zone = zone_of(tz)->0;
            let (sy, sm, sd) = date_of(encode_utf8(start))->0;
            let (ey, em, ed) = date_of(encode_utf8(end))->0;
            &&& 12 * ey + em == 12 * sy + sm + chunks * months
            &&& calendar::midnight_in(zone, sy, sm, sd) is Some
            &&& calendar::midnight_in(zone, ey, em, ed) is Some
            &&& calendar::midnight_in(zone, ey, em, ed) == month_midnight(zone, 12 * ey + em - 1)
            &&& forall|j: int|
                0 < j <= chunks ==> (#[trigger] month_midnight(
                    zone,
                    12 * sy + sm - 1 + j * months,
                )) is Some
        }),
    ensures
        boundaries_of(start, end, months, tz) is Ok,
        boundaries_of(start, end, months, tz)->Ok_0.upper.len() == chunks,
{
    let zone = zone_of(tz)->0;
    let (sy, sm, sd) = date_of(encode_utf8(start))->0;
    let (ey, em, ed) = date_of(encode_utf8(end))->0;
    let k = month_index(sy as int, sm as int);
    assert(k + 0 * months == k) by (nonlinear_arith);
    lemma_bounds_given(zone, k, months as nat, chunks, 0, Seq::empty());
    let upper = bounds_from(zone, k, k + chunks * months, months as nat, Seq::empty())->Ok_0;
    lemma_bounds_from(zone, k, k + chunks * months, months as nat, Seq::empty());
    assert(chunks * months > 0) by (nonlinear_arith)
        requires
            chunks > 0,
            months > 0,
    ;
    assert(month_midnight(zone, k + (chunks - 1 + 1 - 0) * months) == Some(upper[chunks - 1]));
}

proof fn lemma_bounds_given(
    zone: Seq<char>,
    k: int,
    months: nat,
    chunks: nat,
    done: nat,
    got: Seq<i64>,
)
    requires
        months > 0,
        done <= chunks <= 100_000,
        got.len() == done,
        forall|j: int| 0 < j <= chunks ==> (#[trigger] month_midnight(zone, k + j * months)) is Some,
    ensures
        bounds_from(zone, k + done * months, k + chunks * months, months, got) is Ok,
        bounds_from(zone, k + done * months, k + chunks * months, months, got)->Ok_0.len() == chunks,
    decreases chunks - done,
{
    if done < chunks {
        assert(k + done * months < k + chunks * months) by (nonlinear_arith)
            requires
                done < chunks,
                months > 0,
        ;
        assert(k + done * months + months == k + (done + 1) * months) by (nonlinear_arith);
        let t = month_midnight(zone, k + (done + 1) * months)->0;
        lemma_bounds_given(zone, k, months, chunks, done + 1, got.push(t));
    }
}

/// Every line counts as one, with all of its bytes, whatever becomes of it.
pub proof fn every_line_that_is_read_counts(
    state: SplitState,
    line: Seq<u8>,
    b: BoundariesView,
    skip: bool,
)
    requires
        state.line_no < u64::MAX,
        state.bytes_read + line.len() <= u64::MAX,
        state.after(line, b, skip) is Ok,
    ensures
        state.after(line, b, skip)->Ok_0.0.line_no == state.line_no + 1,
        state.after(line, b, skip)->Ok_0.0.bytes_read == state.bytes_read + line.len(),
        state.after(line, b, skip)->Ok_0.1 is Write ==> state.after(line, b, skip)->Ok_0.0.writing,
        !(state.after(line, b, skip)->Ok_0.1 is Write) ==> {
            let next = state.after(line, b, skip)->Ok_0.0;
            &&& next.current == state.current
            &&& next.writing == state.writing
            &&& next.stats.chunks == state.stats.chunks
            &&& next.stats.records_written == state.stats.records_written
        },
{
}

/// A zone is named by its name; `UTC` may be written in either case, letter by
/// letter.
pub proof fn zones_are_named_by_their_names(name: Seq<char>)
    ensures
        name.len() == 3 && (name[0] == 'u' || name[0] == 'U') && (name[1] == 't' || name[1] == 'T')
            && (name[2] == 'c' || name[2] == 'C') ==> zone_of(name) == Some("UTC"@),
        zone_of(name) is None ==> !calendar::is_zone(name),
        calendar::is_zone(name) && name.len() != 3 ==> zone_of(name) == Some(name),
        !calendar::is_zone(name) && name.len() != 3 && is_ascii_chars(name) ==> zone_of(
            name,
        ) is None,
        zone_of(name) is Some ==> zone_of(name)->0 == name || zone_of(name)->0 == "UTC"@,
{
    if is_ascii_chars(name) {
        is_ascii_chars_encode_utf8(name);
    }
    if name.len() == 3 && (name[0] == 'u' || name[0] == 'U') && (name[1] == 't' || name[1] == 'T')
        && (name[2] == 'c' || name[2] == 'C') {
        assert(is_ascii_chars(name));
        is_ascii_chars_encode_utf8(name);
        assert(encode_utf8(name)[0] == name[0] as u8);
        assert(encode_utf8(name)[1] == name[1] as u8);
        assert(encode_utf8(name)[2] == name[2] as u8);
    }
    if is_utc(encode_utf8(name)) {
        let b = encode_utf8(name);
        text::ascii_bytes_are_characters(b);
        encode_utf8_decode_utf8(name);
        assert(name.len() == 3);
    }
}

/// A date is written as it is read: in four, two and two digits, with `-`
/// between them.
pub proof fn dates_are_written_as_they_are_read(y: i32, m: u32, d: u32)
    requires
        y >= 0,
    ensures
        date_of(encode_utf8(date_text(y as int, m as nat, d as nat))) == Some((y, m, d)),
        y <= 9999 && m <= 99 && d <= 99 ==> {
            let s = date_text(y as int, m as nat, d as nat);
            s.len() == 10 && s[4] == '-' && s[7] == '-'
        },
{
    let ty = text::signed_padded(y as int, 4);
    let tm = text::padded(m as nat, 2);
    let td = text::padded(d as nat, 2);
    let s = date_text(y as int, m as nat, d as nat);
    text::padding_is_zeros(y as nat, 4);
    lemma_padded_is_read(y as nat, 4);
    lemma_padded_is_read(m as nat, 2);
    lemma_padded_is_read(d as nat, 2);
    reveal_strlit("-");
    assert("-"@ =~= seq!['-']);
    assert(encode_utf8("-"@) =~= seq![45u8]) by {
        is_ascii_chars_encode_utf8("-"@);
    }
    text::lemma_encode_concat(ty + "-"@ + tm + "-"@, td);
    text::lemma_encode_concat(ty + "-"@ + tm, "-"@);
    text::lemma_encode_concat(ty + "-"@, tm);
    text::lemma_encode_concat(ty, "-"@);
    let (a, b, c) = (encode_utf8(ty), encode_utf8(tm), encode_utf8(td));
    let parts = seq![a, b, c];
    assert(text::joined_by(seq![a], 45) == a);
    assert(seq![a, b].drop_last() =~= seq![a]);
    assert(text::joined_by(seq![a, b], 45) == a.push(45) + b);
    assert(parts.drop_last() =~= seq![a, b]);
    assert(text::joined_by(parts, 45) =~= (a.push(45) + b).push(45) + c);
    assert(encode_utf8(s) =~= text::joined_by(parts, 45));
    dates_are_read_as_written(parts);
    if y <= 9999 && m <= 99 && d <= 99 {
        lemma_short(y as nat, 4);
        lemma_short(m as nat, 2);
        lemma_short(d as nat, 2);
        text::padding_is_zeros(m as nat, 2);
        text::padding_is_zeros(d as nat, 2);
    }
}

/// A number below ten to some power has no more digits than that.
proof fn lemma_short(n: nat, width: nat)
    requires
        width == 2 && n <= 99 || width == 4 && n <= 9999,
    ensures
        text::decimal(n).len() <= width,
{
    reveal_with_fuel(text::decimal, 5);
}

/// A padded number is read as itself.
proof fn lemma_padded_is_read(n: nat, width: nat)
    ensures
        ({
            let b = encode_utf8(text::padded(n, width));
            &&& b.len() > 0
            &&& forall|i: int| 0 <= i < b.len() ==> 48 <= #[trigger] b[i] <= 57
            &&& text::digits_value(b) == n
            &&& n <= i32::MAX ==> text::i32_value(b) == Some(n as i32)
            &&& n <= u32::MAX ==> text::u32_value(b) == Some(n as u32)
        }),
{
    let s = text::padded(n, width);
    let b = encode_utf8(s);
    let k = s.len() - text::decimal(n).len();
    text::padding_is_zeros(n, width);
    text::numbers_are_written_in_digits(n);
    let t = text::decimal(n);
    let d = text::decimal_bytes(n);
    assert(s.skip(k) =~= t);
    assert forall|i: int| 0 <= i < s.len() implies 48 <= (#[trigger] s[i]) as int <= 57 && s[i] as int
        == if i < k {
        48
    } else {
        d[i - k] as int
    } by {
        if i >= k {
            assert(s[i] == s.skip(k)[i - k]);
            assert(t[i - k] as int == d[i - k]);
        }
    }
    assert(is_ascii_chars(s));
    is_ascii_chars_encode_utf8(s);
    assert forall|i: int| 0 <= i < b.len() implies 48 <= #[trigger] b[i] <= 57 by {
        assert(s[i] as u8 == b[i]);
    }
    let zeros = Seq::new(k as nat, |i: int| 48u8);
    assert(b =~= zeros + d) by {
        assert forall|i: int| 0 <= i < b.len() implies b[i] == (zeros + d)[i] by {
            assert(s[i] as u8 == b[i]);
        }
    }
    text::digits_have_places(zeros, d, 48);
    lemma_zeros(zeros);
    assert(0 * vstd::arithmetic::power::pow(10, d.len()) == 0) by (nonlinear_arith);
    text::digits_are_read(b);
}

proof fn lemma_zeros(z: Seq<u8>)
    requires
        forall|i: int| 0 <= i < z.len() ==> #[trigger] z[i] == 48,
    ensures
        text::digits_value(z) == 0,
    decreases z.len(),
{
    if z.len() > 0 {
        assert(z[z.len() - 1] == 48);
        lemma_zeros(z.drop_last());
    }
}

/// Boundaries that cannot be are refused, and it is said why: for the number of
/// months, the zone, a date, or an end that no chunk ends with.
pub proof fn other_boundaries_are_refused(
    start: Seq<char>,
    end: Seq<char>,
    months: u32,
    tz: Seq<char>,
    start_ts: i64,
    upper: Seq<i64>,
    end_ts: i64,
)
    ensures
        months == 0 ==> boundaries_of(start, end, months, tz) is Err,
        months > 0 && zone_of(tz) is None ==> boundaries_of(start, end, months, tz) == Err::<
            BoundariesView,
            crate::error::ErrorView,
        >(crate::error::ErrorView::BadTimezone(tz)),
        months > 0 && zone_of(tz) is Some && date_of(encode_utf8(start)) is None ==> boundaries_of(
            start,
            end,
            months,
            tz,
        ) == Err::<BoundariesView, crate::error::ErrorView>(
            crate::error::ErrorView::BadDate(start),
        ),
        months > 0 && zone_of(tz) is Some && date_of(encode_utf8(start)) is Some && date_of(
            encode_utf8(end),
        ) is None ==> boundaries_of(start, end, months, tz) == Err::<
            BoundariesView,
            crate::error::ErrorView,
        >(crate::error::ErrorView::BadDate(end)),
        upper.len() == 0 ==> closed_boundaries(start_ts, upper, end_ts, tz) == Err::<
            BoundariesView,
            crate::error::ErrorView,
        >(crate::error::ErrorView::BoundaryMismatch { last: start_ts, end: end_ts }),
        upper.len() > 0 && upper.last() != end_ts ==> closed_boundaries(
            start_ts,
            upper,
            end_ts,
            tz,
        ) == Err::<BoundariesView, crate::error::ErrorView>(
            crate::error::ErrorView::BoundaryMismatch { last: upper.last(), end: end_ts },
        ),
        closed_boundaries(start_ts, upper.push(end_ts), end_ts, tz) == Ok::<
            BoundariesView,
            crate::error::ErrorView,
        >(BoundariesView { start_ts, upper: upper.push(end_ts), tz }),
{
}

/// The rows of the table follow each other: each chunk has its number, counted
/// from one, and begins with the date that the one before it ends with; the
/// first begins with the start.
pub proof fn table_rows_follow_each_other(zone: Seq<char>, b: BoundariesView, n: nat)
    requires
        n < b.upper.len(),
    ensures
        table_rows(zone, b, n + 1) == table_rows(zone, b, n) + row_text(
            n + 1,
            civil_text(zone, if n == 0 {
                b.start_ts
            } else {
                b.upper[n - 1]
            }),
            civil_text(zone, b.upper[n as int]),
            b.upper[n as int],
            utc_midnight_value(zone, b.upper[n as int]),
        ),
        table_rows(zone, b, 0) == Seq::<char>::empty(),
{
}

/// The dates of the table are those of the calendar in its zone, and the midnight
/// of a date is that of the calendar too. A zone that is not known is taken for
/// UTC.
pub proof fn tables_show_the_calendar(zone: Seq<char>, ts: i64, y: i32, m: u32, d: u32)
    requires
        calendar::civil_in(zone, ts) == Some((y, m, d)),
        calendar::is_date(y as int, m as int, d as int),
    ensures
        civil_text(zone, ts) == date_text(y as int, m as nat, d as nat),
        utc_midnight_value(zone, ts) == calendar::utc_midnight(y as int, m as int, d as int) as i64,
        zone_of(zone) is Some ==> table_zone(zone) == zone_of(zone)->0,
        zone_of(zone) is None ==> table_zone(zone) == "UTC"@,
{
}

/// Splitting a list that is sorted by time gives, for each chunk, a file in the
/// directory that is numbered as the chunk is, and in it the records of its
/// interval, byte for byte and in the order of the list.
pub proof fn a_split_puts_every_record_in_its_file(
    bounds: Boundaries,
    input: &[u8],
    out_dir: &str,
    skip: bool,
    lines: Seq<Seq<u8>>,
    times: Seq<Option<i64>>,
    r: Result<(SplitStats, Vec<Vec<u8>>)>,
    c: int,
)
    requires
        call_ensures(split_at, (bounds, input, out_dir, skip), r),
        input@ == concatenated(lines),
        is_list(lines, times),
        0 < bounds@.upper.len() <= usize::MAX,
        ascending(bounds@.upper),
        bounds@.start_ts <= bounds@.upper[0],
        times_ascend(times, bounds@),
        skip || forall|i: int|
            0 <= i < times.len() && (#[trigger] times[i]) is Some ==> times[i]->0
                < bounds@.upper.last(),
        lines.len() <= u64::MAX,
        0 <= c < bounds@.upper.len(),
    ensures
        r is Ok,
        ({
            let (stats, contents) = r->Ok_0;
            let (lo, hi) = (lower_bound(bounds@, c), bounds@.upper[c] as int);
            &&& contents@.len() == bounds@.upper.len()
            &&& contents@[c]@ == lines_between(lines, times, lo, hi)
            &&& stats.chunks@[c].records == count_between(times, lo, hi)
            &&& stats.chunks@[c].index == c + 1
            &&& stats.chunks@[c].path@ == path::path_in(
                out_dir@,
                "chunk_"@ + text::padded((c + 1) as nat, 2) + ".txt"@,
            )
        }),
{
    every_record_goes_to_its_chunk(lines, times, bounds@, skip);
    let n = bounds@.upper.len();
    let s = split_from(SplitState::initial(n), no_records(n), input@, bounds@, skip)->Ok_0;
    let (stats, contents) = r->Ok_0;
    assert(byte_views(contents@)[c] == s.1[c]);
    assert(stats@.chunks[c] == s.0.stats.chunks[c]);
    assert(stats@.chunks[c] == stats.chunks@[c]@);
}

/// What is said of a midnight tells the date and the zone.
pub proof fn missing_midnights_are_told(zone: Seq<char>, y: int, m: nat, d: nat)
    ensures
        no_midnight(zone, y, m, d) matches crate::error::ErrorView::Other(msg) && {
            &&& date_text(y, m, d).is_prefix_of(msg)
            &&& text::tells(msg, " 00:00:00 does not exist exactly once in "@ + zone)
        },
{
    if let crate::error::ErrorView::Other(msg) = no_midnight(zone, y, m, d) {
        let date = date_text(y, m, d);
        assert(msg.take(date.len() as int) =~= date);
        text::lemma_tells(
            msg,
            date,
            " 00:00:00 does not exist exactly once in "@ + zone,
            "; pick another boundary or timezone"@,
        );
    }
}

/// Some months later it is that many months later, twelve to a year.
pub proof fn months_are_counted_on(y: i32, m: u32, months: u32, r: (i32, u32))
    requires
        1 <= m <= 12,
        y <= 1_000_000,
        call_ensures(months_later, (y, m, months), r),
    ensures
        1 <= r.1 <= 12,
        12 * r.0 + r.1 == 12 * y + m + months,
{
}

} // verus!
