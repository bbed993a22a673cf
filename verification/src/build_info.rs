//! The build identification line and the build time as a PDF timestamp.

use typst::foundations::Datetime;
use typst_pdf::Timestamp;
use vstd::prelude::*;

use crate::regions::{before_first, first_index_of, lemma_first_index_at, scan_to};
use crate::text::chars_of;

verus! {

/// `typst-diff {version} built {built_utc}`.
pub open spec fn report_line(version: Seq<char>, built_utc: Seq<char>) -> Seq<char> {
    "typst-diff "@ + version + " built "@ + built_utc
}

/// The line that identifies the build: the package version and the UTC time
/// it was built at.
pub fn build_report_line(version: &str, built_utc: &str) -> (line: String)
    ensures
        line@ == report_line(version@, built_utc@),
{
    let mut line = "typst-diff ".to_owned();
    line.append(version);
    line.append(" built ");
    line.append(built_utc);
    line
}

// ---------------------------------------------------------------------------
// Build time
// ---------------------------------------------------------------------------

/// The characters after the first `c`; none when there is no `c`.
pub open spec fn after_first(cs: Seq<char>, c: char) -> Seq<char> {
    match first_index_of(cs, c) {
        Some(i) => cs.skip(i + 1),
        None => Seq::empty(),
    }
}

/// The `k`-th piece that `str::split(c)` yields, if it yields that many.
pub open spec fn nth_piece(cs: Seq<char>, c: char, k: nat) -> Option<Seq<char>>
    decreases k,
{
    if k == 0 {
        Some(before_first(cs, c))
    } else if cs.contains(c) {
        nth_piece(after_first(cs, c), c, (k - 1) as nat)
    } else {
        None
    }
}

/// Whether a character is an ASCII digit.
pub open spec fn is_digit(c: char) -> bool {
    '0' <= c && c <= '9'
}

/// The value of a sequence of ASCII digits.
pub open spec fn digits_value(ds: Seq<char>) -> nat
    decreases ds.len(),
{
    if ds.len() == 0 {
        0
    } else {
        digits_value(ds.drop_last()) * 10 + (ds.last() as nat - '0' as nat) as nat
    }
}

/// The value of an unsigned decimal numeral as `str::parse` reads it: an
/// optional `+`, then one or more ASCII digits.
pub open spec fn numeral_value(cs: Seq<char>) -> Option<nat> {
    if numeral_digits(cs).len() > 0 && all_digits(numeral_digits(cs)) {
        Some(digits_value(numeral_digits(cs)))
    } else {
        None
    }
}

/// The digits of a numeral: the text without a leading `+`.
pub open spec fn numeral_digits(cs: Seq<char>) -> Seq<char> {
    if cs.len() > 0 && cs[0] == '+' { cs.skip(1) } else { cs }
}

/// Every character is an ASCII digit.
pub open spec fn all_digits(ds: Seq<char>) -> bool {
    forall|k: int| 0 <= k < ds.len() ==> is_digit(#[trigger] ds[k])
}

/// The numeral of a piece, when it fits below `max`.
pub open spec fn piece_value(piece: Option<Seq<char>>, max: nat) -> Option<nat> {
    match piece {
        Some(p) => match numeral_value(p) {
            Some(v) => if v <= max { Some(v) } else { None },
            None => None,
        },
        None => None,
    }
}

/// The numerals of the first three pieces of `cs` split at `c`: the first at
/// most `first_max`, the other two at most `u8::MAX`.
#[verifier::opaque]
pub open spec fn three_parts(cs: Seq<char>, c: char, first_max: nat) -> Option<(nat, nat, nat)> {
    let a = piece_value(nth_piece(cs, c, 0), first_max);
    let b = piece_value(nth_piece(cs, c, 1), u8::MAX as nat);
    let d = piece_value(nth_piece(cs, c, 2), u8::MAX as nat);
    if a is Some && b is Some && d is Some {
        Some((a.unwrap(), b.unwrap(), d.unwrap()))
    } else {
        None
    }
}

/// A build time: calendar date and time of day, in UTC.
#[derive(Clone, Copy, Debug, PartialEq, Eq, Structural)]
pub struct BuildTime {
    pub year: i32,
    pub month: u8,
    pub day: u8,
    pub hour: u8,
    pub minute: u8,
    pub second: u8,
}

/// The components of `YYYY-MM-DDTHH:MM:SSZ`: the text must end in `Z`; the
/// part before the first `T` gives year, month and day split at `-`, the
/// part after it hour, minute and second split at `:`; each of the first
/// three pieces on either side must be a numeral that fits its type.
pub open spec fn build_time_spec(text: Seq<char>) -> Option<BuildTime> {
    if text.len() == 0 || text.last() != 'Z' {
        None
    } else {
        let body = text.drop_last();
        match first_index_of(body, 'T') {
            None => None,
            Some(t) => {
                match (three_parts(body.take(t), '-', i32::MAX as nat), three_parts(body.skip(t + 1), ':', u8::MAX as nat)) {
                    (Some(date), Some(time)) => if date.1 <= u8::MAX && date.2 <= u8::MAX {
                        Some(
                            BuildTime {
                                year: date.0 as i32,
                                month: date.1 as u8,
                                day: date.2 as u8,
                                hour: time.0 as u8,
                                minute: time.1 as u8,
                                second: time.2 as u8,
                            },
                        )
                    } else {
                        None
                    },
                    _ => None,
                }
            },
        }
    }
}


proof fn lemma_digits_value_step(ds: Seq<char>, k: int)
    requires
        0 <= k < ds.len(),
    ensures
        digits_value(ds.take(k + 1)) == digits_value(ds.take(k)) * 10 + (ds[k] as nat - '0' as nat) as nat,
{
    assert(ds.take(k + 1).drop_last() =~= ds.take(k));
}

/// The numeral in `cs[from..to]`, when its value is at most `max`.
fn parse_numeral(cs: &[char], from: usize, to: usize, max: u32) -> (v: Option<u32>)
    requires
        from <= to <= cs@.len(),
        max < u32::MAX,
    ensures
        match piece_value(Some(cs@.subrange(from as int, to as int)), max as nat) {
            Some(x) => v == Some(x as u32),
            None => v is None,
        },
{
    let ghost sub = cs@.subrange(from as int, to as int);
    let mut start = from;
    if start < to && cs[start] == '+' {
        start += 1;
    }
    let ghost ds = cs@.subrange(start as int, to as int);
    assert(ds =~= numeral_digits(sub));
    if start == to {
        return None;
    }
    let mut value: u64 = 0;
    let mut i = start;
    while i < to
        invariant
            from <= start <= i <= to <= cs@.len(),
            sub == cs@.subrange(from as int, to as int),
            ds == cs@.subrange(start as int, to as int),
            ds == numeral_digits(sub),
            max < u32::MAX,
            forall|k: int| 0 <= k < i - start ==> is_digit(#[trigger] ds[k]),
            value == if digits_value(ds.take(i - start)) <= max as nat {
                digits_value(ds.take(i - start))
            } else {
                max as nat + 1
            },
        decreases to - i,
    {
        let c = cs[i];
        assert(ds[i - start] == c);
        if !('0' <= c && c <= '9') {
            assert(!is_digit(ds[i - start]));
            assert(!all_digits(ds));
            return None;
        }
        proof {
            lemma_digits_value_step(ds, i - start);
        }
        let d = (c as u32 - '0' as u32) as u64;
        let next = value * 10 + d;
        value = if next > max as u64 { max as u64 + 1 } else { next };
        i += 1;
    }
    assert(ds.take(ds.len() as int) =~= ds);
    if value > max as u64 {
        None
    } else {
        Some(value as u32)
    }
}

/// The bounds of the `k`-th piece of `cs[from..to]` split at `c`.
#[verifier::rlimit(40)]
fn piece_bounds(cs: &[char], from: usize, to: usize, c: char, k: usize) -> (bounds: Option<(usize, usize)>)
    requires
        from <= to <= cs@.len(),
    ensures
        match nth_piece(cs@.subrange(from as int, to as int), c, k as nat) {
            Some(p) => bounds is Some && from <= bounds.unwrap().0 <= bounds.unwrap().1 <= to
                && cs@.subrange(bounds.unwrap().0 as int, bounds.unwrap().1 as int) == p,
            None => bounds is None,
        },
{
    let mut a = from;
    let mut j: usize = 0;
    while j < k
        invariant
            from <= a <= to <= cs@.len(),
            j <= k,
            nth_piece(cs@.subrange(from as int, to as int), c, k as nat)
                == nth_piece(cs@.subrange(a as int, to as int), c, (k - j) as nat),
        decreases k - j,
    {
        let ghost sub = cs@.subrange(a as int, to as int);
        let pos = scan_to(cs, a, to, c);
        proof {
            assert forall|m: int| 0 <= m < pos - a implies sub[m] != c by {
                assert(sub[m] == cs@[a + m]);
            }
            if pos < to {
                assert(sub[pos - a] == cs@[pos as int]);
            }
            lemma_first_index_at(sub, c, pos - a);
        }
        if pos == to {
            assert(!sub.contains(c));
            return None;
        }
        assert(sub.contains(c));
        assert(after_first(sub, c) =~= cs@.subrange(pos + 1, to as int));
        a = pos + 1;
        j += 1;
    }
    let ghost sub = cs@.subrange(a as int, to as int);
    let b = scan_to(cs, a, to, c);
    proof {
        assert forall|m: int| 0 <= m < b - a implies sub[m] != c by {
            assert(sub[m] == cs@[a + m]);
        }
        if b < to {
            assert(sub[b - a] == cs@[b as int]);
        }
        lemma_first_index_at(sub, c, b - a);
        assert(before_first(sub, c) =~= cs@.subrange(a as int, b as int));
    }
    Some((a, b))
}

/// The numeral of the `k`-th piece of `cs[from..to]` split at `c`, when it
/// is at most `max`.
fn piece_numeral(cs: &[char], from: usize, to: usize, c: char, k: usize, max: u32) -> (v: Option<u32>)
    requires
        from <= to <= cs@.len(),
        max < u32::MAX,
    ensures
        match piece_value(nth_piece(cs@.subrange(from as int, to as int), c, k as nat), max as nat) {
            Some(x) => v == Some(x as u32),
            None => v is None,
        },
{
    match piece_bounds(cs, from, to, c, k) {
        Some((a, b)) => parse_numeral(cs, a, b, max),
        None => None,
    }
}

/// The numerals of the first three pieces of `cs[from..to]` split at `c`.
fn parse_three(cs: &[char], from: usize, to: usize, c: char, first_max: u32) -> (parts: Option<(u32, u32, u32)>)
    requires
        from <= to <= cs@.len(),
        first_max < u32::MAX,
    ensures
        match three_parts(cs@.subrange(from as int, to as int), c, first_max as nat) {
            Some(p) => p.0 <= first_max && p.1 <= 255 && p.2 <= 255
                && parts == Some((p.0 as u32, p.1 as u32, p.2 as u32)),
            None => parts is None,
        },
{
    reveal(three_parts);
    let a = piece_numeral(cs, from, to, c, 0, first_max);
    let b = piece_numeral(cs, from, to, c, 1, 255);
    let d = piece_numeral(cs, from, to, c, 2, 255);
    match (a, b, d) {
        (Some(x), Some(y), Some(z)) => Some((x, y, z)),
        _ => None,
    }
}

/// Reads the build time `YYYY-MM-DDTHH:MM:SSZ`; see [`build_time_spec`].
#[verifier::rlimit(40)]
pub fn parse_build_time(text: &str) -> (time: Option<BuildTime>)
    ensures
        time == build_time_spec(text@),
{
    let cs = chars_of(text);
    let n = cs.len();
    if n == 0 || cs[n - 1] != 'Z' {
        return None;
    }
    let ghost body = cs@.drop_last();
    let t = scan_to(cs.as_slice(), 0, n - 1, 'T');
    proof {
        assert(body =~= cs@.subrange(0, n - 1));
        assert forall|m: int| 0 <= m < t implies body[m] != 'T' by {}
        lemma_first_index_at(body, 'T', t as int);
    }
    if t == n - 1 {
        return None;
    }
    assert(body.take(t as int) =~= cs@.subrange(0, t as int));
    assert(body.skip(t + 1) =~= cs@.subrange(t + 1, n - 1));
    let date = parse_three(cs.as_slice(), 0, t, '-', 0x7fff_ffff);
    let time = parse_three(cs.as_slice(), t + 1, n - 1, ':', 255);
    match (date, time) {
        (Some((y, mo, d)), Some((h, mi, s))) => {
            if mo <= 255 && d <= 255 {
                Some(BuildTime { year: y as i32, month: mo as u8, day: d as u8, hour: h as u8, minute: mi as u8, second: s as u8 })
            } else {
                None
            }
        },
        _ => None,
    }
}


// ---------------------------------------------------------------------------
// PDF timestamp
// ---------------------------------------------------------------------------

#[verifier::external_type_specification]
#[verifier::external_body]
pub struct ExTimestamp(Timestamp);

/// A leap year of the proleptic Gregorian calendar.
pub open spec fn is_leap_year(year: int) -> bool {
    (year % 4 == 0 && year % 100 != 0) || year % 400 == 0
}

/// The number of days of a month (1 to 12) in a year.
pub open spec fn days_in_month(month: int, year: int) -> int {
    if month == 2 {
        if is_leap_year(year) { 29 } else { 28 }
    } else if month == 4 || month == 6 || month == 9 || month == 11 {
        30
    } else {
        31
    }
}

/// A calendar date and a time of day that both exist.
pub open spec fn valid_date_time(t: BuildTime) -> bool {
    &&& 1 <= t.month <= 12
    &&& 1 <= t.day <= days_in_month(t.month as int, t.year as int)
    &&& t.hour < 24
    &&& t.minute < 60
    &&& t.second < 60
}

/// The UTC timestamp that `Timestamp::new_utc` makes of the datetime that
/// `Datetime::from_ymd_hms` builds from year, month, day, hour, minute and
/// second.
pub uninterp spec fn utc_timestamp(year: i32, month: u8, day: u8, hour: u8, minute: u8, second: u8) -> Timestamp;

/// The timestamp of a build time; see [`utc_timestamp`].
pub open spec fn build_timestamp(t: BuildTime) -> Timestamp {
    utc_timestamp(t.year, t.month, t.day, t.hour, t.minute, t.second)
}

/// Trusted call of `typst::foundations::Datetime::from_ymd_hms`, whose
/// datetime is converted into a PDF timestamp in UTC with
/// `typst_pdf::Timestamp::new_utc`.
///
/// In the version brought, `from_ymd_hms` builds a `time::Date` from year,
/// month and day (the month must be 1 to 12, the day must exist in that
/// month of the proleptic Gregorian calendar, the year must lie in the
/// `time` crate's range) and a `time::Time` from hour, minute and second
/// (below 24, 60 and 60), and returns `None` when either fails. The contract
/// states that a timestamp comes back only for a valid date and time, and
/// that one does come back for any valid date and time with a year from
/// -9999 to 9999, which both ranges of the `time` crate include. The
/// timestamp that comes back is a function of the six fields alone, named by
/// [`utc_timestamp`].
#[verifier::external_body]
fn utc_timestamp_of(t: BuildTime) -> (timestamp: Option<Timestamp>)
    ensures
        timestamp is Some ==> timestamp == Some(utc_timestamp(t.year, t.month, t.day, t.hour, t.minute, t.second)),
        timestamp is Some ==> valid_date_time(t),
        valid_date_time(t) && -9999 <= t.year <= 9999 ==> timestamp is Some,
{
    Datetime::from_ymd_hms(t.year, t.month, t.day, t.hour, t.minute, t.second).map(Timestamp::new_utc)
}

/// The build time as a PDF timestamp in UTC: `None` when the text is not a
/// build time or not a valid date and time.
pub fn pdf_timestamp(build_utc: &str) -> (timestamp: Option<Timestamp>)
    ensures
        timestamp is Some ==> timestamp == Some(build_timestamp(build_time_spec(build_utc@).unwrap())),
        timestamp is Some ==> build_time_spec(build_utc@) is Some && valid_date_time(
            build_time_spec(build_utc@).unwrap(),
        ),
        (build_time_spec(build_utc@) is Some && valid_date_time(build_time_spec(build_utc@).unwrap())
            && -9999 <= build_time_spec(build_utc@).unwrap().year <= 9999) ==> timestamp is Some,
{
    match parse_build_time(build_utc) {
        Some(t) => utc_timestamp_of(t),
        None => None,
    }
}

} // verus!
