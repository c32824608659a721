//! Calendar timestamps as plain values. An image's capture instant and the
//! bounds of a gallery date filter are held field by field, ordered
//! lexicographically, and read from two fixed-width grammars: the embedded
//! metadata form `YYYY:MM:DD HH:MM:SS` and the filter form `YYYY-MM-DD`.

use vstd::prelude::*;
use crate::text::is_digit;

verus! {

/// A calendar timestamp. Validity (months in range, days within the month,
/// leap years respected) is `spec_valid`; the parsers only produce valid
/// values.
#[derive(Clone, Copy, PartialEq, Eq, Structural, Debug)]
pub struct DateTime {
    pub year: u32,
    pub month: u32,
    pub day: u32,
    pub hour: u32,
    pub minute: u32,
    pub second: u32,
}

pub open spec fn is_leap_year(y: int) -> bool {
    (y % 4 == 0 && y % 100 != 0) || y % 400 == 0
}

pub open spec fn spec_days_in_month(y: int, m: int) -> int {
    if m == 2 {
        if is_leap_year(y) {
            29
        } else {
            28
        }
    } else if m == 4 || m == 6 || m == 9 || m == 11 {
        30
    } else {
        31
    }
}

pub fn days_in_month(y: u32, m: u32) -> (r: u32)
    ensures
        r == spec_days_in_month(y as int, m as int),
{
    if m == 2 {
        if (y % 4 == 0 && y % 100 != 0) || y % 400 == 0 {
            29
        } else {
            28
        }
    } else if m == 4 || m == 6 || m == 9 || m == 11 {
        30
    } else {
        31
    }
}

impl DateTime {
    /// A real calendar instant: fields in range, the day within its month.
    pub open spec fn spec_valid(self) -> bool {
        &&& self.year <= 9999
        &&& 1 <= self.month <= 12
        &&& 1 <= self.day <= spec_days_in_month(self.year as int, self.month as int)
        &&& self.hour <= 23
        &&& self.minute <= 59
        &&& self.second <= 59
    }
}

/// Strict lexicographic order on (year, month, day, hour, minute, second).
pub open spec fn dt_lt(a: DateTime, b: DateTime) -> bool {
    if a.year != b.year {
        a.year < b.year
    } else if a.month != b.month {
        a.month < b.month
    } else if a.day != b.day {
        a.day < b.day
    } else if a.hour != b.hour {
        a.hour < b.hour
    } else if a.minute != b.minute {
        a.minute < b.minute
    } else {
        a.second < b.second
    }
}

pub open spec fn dt_le(a: DateTime, b: DateTime) -> bool {
    dt_lt(a, b) || a == b
}

/// The order is total: any two timestamps compare.
pub proof fn lemma_dt_order_total(a: DateTime, b: DateTime)
    ensures
        dt_lt(a, b) || dt_lt(b, a) || a == b,
        !(dt_lt(a, b) && dt_lt(b, a)),
{
}

pub proof fn lemma_dt_order_transitive(a: DateTime, b: DateTime, c: DateTime)
    ensures
        dt_lt(a, b) && dt_lt(b, c) ==> dt_lt(a, c),
{
}

/// Compare two timestamps: `a` not after `b`.
pub fn dt_not_after(a: &DateTime, b: &DateTime) -> (r: bool)
    ensures
        r == dt_le(*a, *b),
{
    if a.year != b.year {
        a.year < b.year
    } else if a.month != b.month {
        a.month < b.month
    } else if a.day != b.day {
        a.day < b.day
    } else if a.hour != b.hour {
        a.hour < b.hour
    } else if a.minute != b.minute {
        a.minute < b.minute
    } else {
        a.second <= b.second
    }
}

/// Strict comparison: `a` before `b`.
pub fn dt_before(a: &DateTime, b: &DateTime) -> (r: bool)
    ensures
        r == dt_lt(*a, *b),
{
    if a.year != b.year {
        a.year < b.year
    } else if a.month != b.month {
        a.month < b.month
    } else if a.day != b.day {
        a.day < b.day
    } else if a.hour != b.hour {
        a.hour < b.hour
    } else if a.minute != b.minute {
        a.minute < b.minute
    } else {
        a.second < b.second
    }
}

/// The numeric value of one digit character.
pub open spec fn dval(c: char) -> int {
    c as u32 - '0' as u32
}

/// The value of the `len` digits of `s` starting at `start`.
pub open spec fn num_val(s: Seq<char>, start: int, len: int) -> int
    decreases len,
{
    if len <= 0 {
        0
    } else {
        num_val(s, start, len - 1) * 10 + dval(s[start + len - 1])
    }
}

pub open spec fn digits_in_range(s: Seq<char>, start: int, len: int) -> bool {
    forall|j: int| start <= j < start + len ==> is_digit(s[j])
}

pub open spec fn spec_pow10(k: nat) -> int
    decreases k,
{
    if k == 0 {
        1
    } else {
        10 * spec_pow10((k - 1) as nat)
    }
}

proof fn lemma_num_val_bound(s: Seq<char>, start: int, len: int)
    requires
        len >= 0,
        digits_in_range(s, start, len),
    ensures
        0 <= num_val(s, start, len) < spec_pow10(len as nat),
    decreases len,
{
    if len > 0 {
        lemma_num_val_bound(s, start, len - 1);
        assert(is_digit(s[start + len - 1]));
    }
}

/// Read `len` digit characters starting at `start` as a number.
fn read_number(s: &str, start: usize, len: usize) -> (r: Option<u32>)
    requires
        start + len <= s@.len(),
        start <= 20,
        len <= 4,
    ensures
        r == (if digits_in_range(s@, start as int, len as int) {
            Some(num_val(s@, start as int, len as int) as u32)
        } else {
            None::<u32>
        }),
{
    let mut acc: u32 = 0;
    let mut j: usize = 0;
    while j < len
        invariant
            j <= len <= 4,
            start <= 20,
            start + len <= s@.len(),
            digits_in_range(s@, start as int, j as int),
            acc == num_val(s@, start as int, j as int),
            acc < spec_pow10(j as nat),
        decreases len - j,
    {
        let c = s.get_char(start + j);
        let cu = c as u32;
        if cu < '0' as u32 || cu > '9' as u32 {
            proof {
                assert(!is_digit(s@[start + j]));
            }
            return None;
        }
        proof {
            assert(spec_pow10(0) == 1);
            assert(spec_pow10(1) == 10);
            assert(spec_pow10(2) == 100);
            assert(spec_pow10(3) == 1000);
            assert(spec_pow10(j as nat) <= 1000);
        }
        acc = acc * 10 + (cu - '0' as u32);
        j = j + 1;
    }
    proof {
        lemma_num_val_bound(s@, start as int, len as int);
    }
    Some(acc)
}

/// The shape of the embedded-metadata timestamp: `YYYY:MM:DD HH:MM:SS`.
pub open spec fn exif_shape(s: Seq<char>) -> bool {
    &&& s.len() == 19
    &&& s[4] == ':'
    &&& s[7] == ':'
    &&& s[10] == ' '
    &&& s[13] == ':'
    &&& s[16] == ':'
    &&& digits_in_range(s, 0, 4)
    &&& digits_in_range(s, 5, 2)
    &&& digits_in_range(s, 8, 2)
    &&& digits_in_range(s, 11, 2)
    &&& digits_in_range(s, 14, 2)
    &&& digits_in_range(s, 17, 2)
}

pub open spec fn exif_fields(s: Seq<char>) -> DateTime {
    DateTime {
        year: num_val(s, 0, 4) as u32,
        month: num_val(s, 5, 2) as u32,
        day: num_val(s, 8, 2) as u32,
        hour: num_val(s, 11, 2) as u32,
        minute: num_val(s, 14, 2) as u32,
        second: num_val(s, 17, 2) as u32,
    }
}

/// What the embedded-metadata timestamp parser accepts and yields: the
/// fixed-width shape, and a valid calendar instant.
pub open spec fn spec_parse_exif(s: Seq<char>) -> Option<DateTime> {
    if exif_shape(s) && exif_fields(s).spec_valid() {
        Some(exif_fields(s))
    } else {
        None
    }
}

/// Parse a capture timestamp in the form `YYYY:MM:DD HH:MM:SS`.
pub fn parse_exif_datetime(s: &str) -> (r: Option<DateTime>)
    ensures
        r == spec_parse_exif(s@),
{
    let n = s.unicode_len();
    if n != 19 {
        return None;
    }
    if s.get_char(4) != ':' || s.get_char(7) != ':' || s.get_char(10) != ' ' || s.get_char(13)
        != ':' || s.get_char(16) != ':' {
        return None;
    }
    let year = match read_number(s, 0, 4) {
        Some(v) => v,
        None => {
            return None;
        },
    };
    let month = match read_number(s, 5, 2) {
        Some(v) => v,
        None => {
            return None;
        },
    };
    let day = match read_number(s, 8, 2) {
        Some(v) => v,
        None => {
            return None;
        },
    };
    let hour = match read_number(s, 11, 2) {
        Some(v) => v,
        None => {
            return None;
        },
    };
    let minute = match read_number(s, 14, 2) {
        Some(v) => v,
        None => {
            return None;
        },
    };
    let second = match read_number(s, 17, 2) {
        Some(v) => v,
        None => {
            return None;
        },
    };
    let dt = DateTime { year, month, day, hour, minute, second };
    if month < 1 || month > 12 {
        return None;
    }
    if day < 1 || day > days_in_month(year, month) {
        return None;
    }
    if hour > 23 || minute > 59 || second > 59 {
        return None;
    }
    proof {
        lemma_num_val_bound(s@, 0, 4);
        assert(spec_pow10(0) == 1);
        assert(spec_pow10(1) == 10);
        assert(spec_pow10(2) == 100);
        assert(spec_pow10(3) == 1000);
        assert(spec_pow10(4) == 10000);
        assert(exif_shape(s@));
        assert(dt == exif_fields(s@));
        assert(exif_fields(s@).spec_valid());
    }
    Some(dt)
}

/// The shape of a filter date: `YYYY-MM-DD`.
pub open spec fn date_shape(s: Seq<char>) -> bool {
    &&& s.len() == 10
    &&& s[4] == '-'
    &&& s[7] == '-'
    &&& digits_in_range(s, 0, 4)
    &&& digits_in_range(s, 5, 2)
    &&& digits_in_range(s, 8, 2)
}

pub open spec fn date_fields(s: Seq<char>) -> DateTime {
    DateTime {
        year: num_val(s, 0, 4) as u32,
        month: num_val(s, 5, 2) as u32,
        day: num_val(s, 8, 2) as u32,
        hour: 0,
        minute: 0,
        second: 0,
    }
}

/// What the filter-date parser accepts and yields: `YYYY-MM-DD`, a valid
/// calendar day, at midnight.
pub open spec fn spec_parse_date(s: Seq<char>) -> Option<DateTime> {
    if date_shape(s) && date_fields(s).spec_valid() {
        Some(date_fields(s))
    } else {
        None
    }
}

/// Parse a filter date in the form `YYYY-MM-DD`; the result is that day at
/// midnight.
pub fn parse_date(s: &str) -> (r: Option<DateTime>)
    ensures
        r == spec_parse_date(s@),
{
    let n = s.unicode_len();
    if n != 10 {
        return None;
    }
    if s.get_char(4) != '-' || s.get_char(7) != '-' {
        return None;
    }
    let year = match read_number(s, 0, 4) {
        Some(v) => v,
        None => {
            return None;
        },
    };
    let month = match read_number(s, 5, 2) {
        Some(v) => v,
        None => {
            return None;
        },
    };
    let day = match read_number(s, 8, 2) {
        Some(v) => v,
        None => {
            return None;
        },
    };
    let dt = DateTime { year, month, day, hour: 0, minute: 0, second: 0 };
    if month < 1 || month > 12 {
        return None;
    }
    if day < 1 || day > days_in_month(year, month) {
        return None;
    }
    proof {
        lemma_num_val_bound(s@, 0, 4);
        assert(spec_pow10(0) == 1);
        assert(spec_pow10(1) == 10);
        assert(spec_pow10(2) == 100);
        assert(spec_pow10(3) == 1000);
        assert(spec_pow10(4) == 10000);
        assert(date_shape(s@));
        assert(dt == date_fields(s@));
        assert(date_fields(s@).spec_valid());
    }
    Some(dt)
}

/// The lower fallback bound of a date filter: the epoch day at midnight.
pub open spec fn spec_epoch() -> DateTime {
    DateTime { year: 1970, month: 1, day: 1, hour: 0, minute: 0, second: 0 }
}

pub fn epoch_start() -> (r: DateTime)
    ensures
        r == spec_epoch(),
{
    DateTime { year: 1970, month: 1, day: 1, hour: 0, minute: 0, second: 0 }
}

/// The upper fallback bound used when an upper filter date does not parse:
/// two centuries past the epoch, end of day.
pub open spec fn spec_far_future() -> DateTime {
    DateTime { year: 2170, month: 1, day: 1, hour: 23, minute: 59, second: 59 }
}

pub fn far_future() -> (r: DateTime)
    ensures
        r == spec_far_future(),
{
    DateTime { year: 2170, month: 1, day: 1, hour: 23, minute: 59, second: 59 }
}

/// The lower bound a gallery filter denotes: an absent or empty field means
/// the epoch, a well-formed date means that day at midnight, and anything
/// else falls back to the epoch.
pub open spec fn spec_filter_from(o: Option<Seq<char>>) -> DateTime {
    match o {
        Option::None => spec_epoch(),
        Option::Some(s) => {
            if s.len() == 0 {
                spec_epoch()
            } else {
                match spec_parse_date(s) {
                    Option::Some(d) => d,
                    Option::None => spec_epoch(),
                }
            }
        },
    }
}

pub fn filter_from_bound(from: &Option<String>) -> (r: DateTime)
    ensures
        r == spec_filter_from(from.deep_view()),
{
    match from {
        Option::None => epoch_start(),
        Option::Some(s) => {
            if s.as_str().unicode_len() == 0 {
                epoch_start()
            } else {
                match parse_date(s.as_str()) {
                    Option::Some(d) => d,
                    Option::None => epoch_start(),
                }
            }
        },
    }
}

/// The upper bound a gallery filter denotes: an absent or empty field means
/// the current instant, a well-formed date means that day's last second, and
/// anything else falls back to the far-future bound.
pub open spec fn spec_filter_to(o: Option<Seq<char>>, now: DateTime) -> DateTime {
    match o {
        Option::None => now,
        Option::Some(s) => {
            if s.len() == 0 {
                now
            } else {
                match spec_parse_date(s) {
                    Option::Some(d) => DateTime {
                        hour: 23,
                        minute: 59,
                        second: 59,
                        ..d
                    },
                    Option::None => spec_far_future(),
                }
            }
        },
    }
}

pub fn filter_to_bound(to: &Option<String>, now: DateTime) -> (r: DateTime)
    ensures
        r == spec_filter_to(to.deep_view(), now),
{
    match to {
        Option::None => now,
        Option::Some(s) => {
            if s.as_str().unicode_len() == 0 {
                now
            } else {
                match parse_date(s.as_str()) {
                    Option::Some(d) => DateTime {
                        year: d.year,
                        month: d.month,
                        day: d.day,
                        hour: 23,
                        minute: 59,
                        second: 59,
                    },
                    Option::None => far_future(),
                }
            }
        },
    }
}

} // verus!
