//! Timestamps as the RomM API writes them (`2024-05-01T12:34:56.789+00:00`),
//! read as seconds since the Unix epoch.
use vstd::prelude::*;

use crate::text::chars_of;

verus! {

pub open spec fn is_digit(c: char) -> bool {
    '0' <= c && c <= '9'
}

pub open spec fn digit_value(c: char) -> int {
    c as int - 48
}

/// The `n` characters of `s` from `i` on are digits.
pub open spec fn digits_at(s: Seq<char>, i: int, n: int) -> bool {
    forall|k: int| i <= k < i + n ==> is_digit(#[trigger] s[k])
}

/// The two-digit number at `i`.
pub open spec fn num2(s: Seq<char>, i: int) -> int {
    digit_value(s[i]) * 10 + digit_value(s[i + 1])
}

/// The four-digit number at `i`.
pub open spec fn num4(s: Seq<char>, i: int) -> int {
    num2(s, i) * 100 + num2(s, i + 2)
}

/// `YYYY-MM-DD`, then `T` or a space, then `HH:MM:SS`.
pub open spec fn stamp_shape(s: Seq<char>) -> bool {
    &&& s.len() >= 19
    &&& digits_at(s, 0, 4)
    &&& s[4] == '-'
    &&& digits_at(s, 5, 2)
    &&& s[7] == '-'
    &&& digits_at(s, 8, 2)
    &&& (s[10] == 'T' || s[10] == ' ')
    &&& digits_at(s, 11, 2)
    &&& s[13] == ':'
    &&& digits_at(s, 14, 2)
    &&& s[16] == ':'
    &&& digits_at(s, 17, 2)
}

/// Where the run of digits starting at `j` ends.
pub open spec fn digits_end(s: Seq<char>, j: int) -> int
    decreases s.len() - j,
{
    if 0 <= j < s.len() && is_digit(s[j]) {
        digits_end(s, j + 1)
    } else {
        j
    }
}

/// The zone designator from `k` to the end, as an offset east of UTC in
/// seconds: nothing or `Z` is UTC, `+HH:MM` / `-HH:MM` an offset; anything
/// else is not a zone.
pub open spec fn zone_offset(s: Seq<char>, k: int) -> Option<int> {
    if k == s.len() {
        Some(0)
    } else if k + 1 == s.len() && s[k] == 'Z' {
        Some(0)
    } else if k + 6 == s.len() && (s[k] == '+' || s[k] == '-') && digits_at(s, k + 1, 2) && s[k
        + 3] == ':' && digits_at(s, k + 4, 2) && num2(s, k + 1) <= 23 && num2(s, k + 4) <= 59 {
        let off = num2(s, k + 1) * 3600 + num2(s, k + 4) * 60;
        Some(
            if s[k] == '+' {
                off
            } else {
                -off
            },
        )
    } else {
        None
    }
}

pub open spec fn is_leap(y: int) -> bool {
    (y % 4 == 0 && y % 100 != 0) || y % 400 == 0
}

pub open spec fn year_days(y: int) -> int {
    if is_leap(y) {
        366
    } else {
        365
    }
}

pub open spec fn month_days(y: int, m: int) -> int {
    if m == 2 {
        if is_leap(y) {
            29
        } else {
            28
        }
    } else if m == 4 || m == 6 || m == 9 || m == 11 {
        30
    } else {
        31
    }
}

/// Days from 1970-01-01 to the first day of year `y` (`y >= 1970`).
pub open spec fn days_before_year(y: int) -> int
    decreases y - 1970,
{
    if y <= 1970 {
        0
    } else {
        days_before_year(y - 1) + year_days(y - 1)
    }
}

/// Days from the first of January of year `y` to the first of month `m`.
pub open spec fn days_before_month(y: int, m: int) -> int
    decreases m,
{
    if m <= 1 {
        0
    } else {
        days_before_month(y, m - 1) + month_days(y, m - 1)
    }
}

/// The seconds since 1970-01-01T00:00:00Z that the timestamp `s` names,
/// when it is one: the date and time (an optional fraction of a second,
/// dropped), then an optional zone; year 1970 or later, a real calendar
/// date, hours to 23, minutes and seconds to 59, and not before the epoch.
pub open spec fn timestamp_secs(s: Seq<char>) -> Option<u64> {
    if !stamp_shape(s) {
        None
    } else {
        let y = num4(s, 0);
        let mo = num2(s, 5);
        let d = num2(s, 8);
        let h = num2(s, 11);
        let mi = num2(s, 14);
        let se = num2(s, 17);
        let has_frac = s.len() > 19 && s[19] == '.';
        let zone_at = if has_frac {
            digits_end(s, 20)
        } else {
            19
        };
        if y < 1970 || mo < 1 || mo > 12 || d < 1 || d > month_days(y, mo) || h > 23 || mi > 59
            || se > 59 || (has_frac && zone_at == 20) {
            None
        } else {
            match zone_offset(s, zone_at) {
                None => None,
                Some(off) => {
                    let secs = (days_before_year(y) + days_before_month(y, mo) + d - 1) * 86400 + h
                        * 3600 + mi * 60 + se - off;
                    if secs < 0 {
                        None
                    } else {
                        Some(secs as u64)
                    }
                },
            }
        }
    }
}

fn digit(c: char) -> (d: u64)
    requires
        is_digit(c),
    ensures
        d == digit_value(c),
{
    (c as u32 - 48) as u64
}

fn leap(y: u64) -> (r: bool)
    ensures
        r == is_leap(y as int),
{
    (y % 4 == 0 && y % 100 != 0) || y % 400 == 0
}

fn days_in_month(y: u64, m: u64) -> (r: u64)
    ensures
        r == month_days(y as int, m as int),
{
    if m == 2 {
        if leap(y) {
            29
        } else {
            28
        }
    } else if m == 4 || m == 6 || m == 9 || m == 11 {
        30
    } else {
        31
    }
}

fn all_digits(s: &Vec<char>, i: usize, n: usize) -> (r: bool)
    requires
        i + n <= s@.len(),
    ensures
        r == digits_at(s@, i as int, n as int),
{
    let l = s.len();
    let stop = i + n;
    let mut k: usize = i;
    while k < stop
        invariant
            i <= k <= stop,
            stop == i + n,
            stop <= s@.len(),
            forall|j: int| i <= j < k ==> is_digit(#[trigger] s@[j]),
        decreases stop - k,
    {
        if !('0' <= s[k] && s[k] <= '9') {
            return false;
        }
        k = k + 1;
    }
    true
}

fn two(s: &Vec<char>, i: usize) -> (r: u64)
    requires
        i + 2 <= s@.len(),
        digits_at(s@, i as int, 2),
    ensures
        r == num2(s@, i as int),
        r <= 99,
{
    let l = s.len();
    assert(is_digit(s@[i as int]) && is_digit(s@[i + 1]));
    digit(s[i]) * 10 + digit(s[i + 1])
}

/// The seconds since the Unix epoch that the timestamp `s` names, or `None`
/// when `s` is not one (see `timestamp_secs`).
pub fn parse_timestamp(s: &str) -> (r: Option<u64>)
    ensures
        r == timestamp_secs(s@),
{
    let c = chars_of(s);
    if c.len() < 19 || !all_digits(&c, 0, 4) || c[4] != '-' || !all_digits(&c, 5, 2) || c[7] != '-'
        || !all_digits(&c, 8, 2) || !(c[10] == 'T' || c[10] == ' ') || !all_digits(&c, 11, 2)
        || c[13] != ':' || !all_digits(&c, 14, 2) || c[16] != ':' || !all_digits(&c, 17, 2) {
        return None;
    }
    let y = two(&c, 0) * 100 + two(&c, 2);
    let mo = two(&c, 5);
    let d = two(&c, 8);
    let h = two(&c, 11);
    let mi = two(&c, 14);
    let se = two(&c, 17);
    let has_frac = c.len() > 19 && c[19] == '.';
    let mut zone_at: usize = 19;
    if has_frac {
        zone_at = 20;
        while zone_at < c.len() && '0' <= c[zone_at] && c[zone_at] <= '9'
            invariant
                20 <= zone_at <= c@.len(),
                digits_end(c@, 20) == digits_end(c@, zone_at as int),
            decreases c@.len() - zone_at,
        {
            zone_at = zone_at + 1;
        }
        proof {
            assert(digits_end(c@, zone_at as int) == zone_at);
        }
    }
    if y < 1970 || mo < 1 || mo > 12 || d < 1 || d > days_in_month(y, mo) || h > 23 || mi > 59
        || se > 59 || (has_frac && zone_at == 20) {
        return None;
    }
    let rest = c.len() - zone_at;
    let off: u64;
    let east: bool;
    if rest == 0 {
        off = 0;
        east = true;
    } else if rest == 1 && c[zone_at] == 'Z' {
        off = 0;
        east = true;
    } else if rest == 6 && (c[zone_at] == '+' || c[zone_at] == '-') && all_digits(&c, zone_at + 1, 2)
        && c[zone_at + 3] == ':' && all_digits(&c, zone_at + 4, 2) && two(&c, zone_at + 1) <= 23
        && two(&c, zone_at + 4) <= 59 {
        off = two(&c, zone_at + 1) * 3600 + two(&c, zone_at + 4) * 60;
        east = c[zone_at] == '+';
    } else {
        return None;
    }
    let mut days: u64 = 0;
    let mut yy: u64 = 1970;
    while yy < y
        invariant
            1970 <= yy <= y,
            y <= 9999,
            days == days_before_year(yy as int),
            days <= 366 * (yy - 1970),
        decreases y - yy,
    {
        days = days + if leap(yy) {
            366
        } else {
            365
        };
        yy = yy + 1;
    }
    let mut mm: u64 = 1;
    let mut mdays: u64 = 0;
    while mm < mo
        invariant
            1 <= mm <= mo,
            mo <= 12,
            mdays == days_before_month(y as int, mm as int),
            mdays <= 31 * (mm - 1),
        decreases mo - mm,
    {
        mdays = mdays + days_in_month(y, mm);
        mm = mm + 1;
    }
    let base: u64 = (days + mdays + d - 1) * 86400 + h * 3600 + mi * 60 + se;
    if east {
        if base < off {
            None
        } else {
            Some(base - off)
        }
    } else {
        Some(base + off)
    }
}

/// The calendar the epoch count follows: a year has 366 days when it is
/// divisible by 4 but not by 100, or by 400, and 365 otherwise; the months
/// have 31, 28 (29 in such a year), 31, 30, 31, 30, 31, 31, 30, 31, 30 and
/// 31 days; and 1970 starts at day 0.
pub proof fn law_calendar(y: int, m: int)
    requires
        y >= 1970,
        1 <= m <= 12,
    ensures
        days_before_year(1970) == 0,
        days_before_year(y + 1) - days_before_year(y) == if (y % 4 == 0 && y % 100 != 0) || y
            % 400 == 0 {
            366int
        } else {
            365int
        },
        days_before_month(y, 1) == 0,
        days_before_month(y, m + 1) - days_before_month(y, m) == if m == 2 {
            if (y % 4 == 0 && y % 100 != 0) || y % 400 == 0 {
                29int
            } else {
                28int
            }
        } else if m == 4 || m == 6 || m == 9 || m == 11 {
            30int
        } else {
            31int
        },
{
}

/// The prefix `YYYY-MM-DDTHH:MM:SS` of a stamp decides everything but the
/// part after it.
proof fn lemma_same_head(a: Seq<char>, b: Seq<char>)
    requires
        a.len() >= 19,
        b.len() >= 19,
        a.take(19) == b.take(19),
    ensures
        stamp_shape(a) == stamp_shape(b),
        num4(a, 0) == num4(b, 0),
        num2(a, 5) == num2(b, 5),
        num2(a, 8) == num2(b, 8),
        num2(a, 11) == num2(b, 11),
        num2(a, 14) == num2(b, 14),
        num2(a, 17) == num2(b, 17),
{
    assert forall|i: int| 0 <= i < 19 implies a[i] == b[i] by {
        assert(a[i] == a.take(19)[i]);
        assert(b[i] == b.take(19)[i]);
    }
    assert(digits_at(a, 0, 4) == digits_at(b, 0, 4));
    assert(digits_at(a, 5, 2) == digits_at(b, 5, 2));
    assert(digits_at(a, 8, 2) == digits_at(b, 8, 2));
    assert(digits_at(a, 11, 2) == digits_at(b, 11, 2));
    assert(digits_at(a, 14, 2) == digits_at(b, 14, 2));
    assert(digits_at(a, 17, 2) == digits_at(b, 17, 2));
}

/// The zone moves the instant by its offset: a stamp without a zone or
/// with `Z` is UTC; with `+HH:MM` it names the UTC time `HH:MM` earlier and
/// with `-HH:MM` the UTC time that much later. A fraction of a second after
/// the seconds changes nothing.
pub proof fn law_zone_and_fraction(
    base: Seq<char>,
    sign: char,
    h1: char,
    h2: char,
    m1: char,
    m2: char,
    frac: Seq<char>,
)
    requires
        base.len() == 19,
        sign == '+' || sign == '-',
        '0' <= h1 <= '9',
        '0' <= h2 <= '9',
        '0' <= m1 <= '9',
        '0' <= m2 <= '9',
        (h1 as int - 48) * 10 + (h2 as int - 48) <= 23,
        (m1 as int - 48) * 10 + (m2 as int - 48) <= 59,
        frac.len() > 0,
        forall|i: int| 0 <= i < frac.len() ==> '0' <= #[trigger] frac[i] <= '9',
    ensures
        timestamp_secs(base) == timestamp_secs(base + seq!['Z']),
        timestamp_secs(base + seq!['.'] + frac + seq!['Z']) == timestamp_secs(base + seq!['Z']),
        ({
            let off = ((h1 as int - 48) * 10 + (h2 as int - 48)) * 3600 + ((m1 as int - 48) * 10
                + (m2 as int - 48)) * 60;
            let zoned = timestamp_secs(base + seq![sign, h1, h2, ':', m1, m2]);
            &&& zoned is Some ==> timestamp_secs(base + seq!['Z']) is Some
            &&& zoned is Some ==> zoned->0 == if sign == '+' {
                timestamp_secs(base + seq!['Z'])->0 - off
            } else {
                timestamp_secs(base + seq!['Z'])->0 + off
            }
        }),
{
    let z = base + seq!['Z'];
    let zoned = base + seq![sign, h1, h2, ':', m1, m2];
    let fr = base + seq!['.'] + frac + seq!['Z'];
    assert(z.take(19) =~= base.take(19));
    assert(zoned.take(19) =~= base.take(19));
    assert(fr.take(19) =~= base.take(19));
    lemma_same_head(base, z);
    lemma_same_head(base, zoned);
    lemma_same_head(base, fr);
    assert(z[19] == 'Z');
    assert(zone_offset(z, 19) == Some(0int));
    assert(zone_offset(base, 19) == Some(0int));
    assert(zoned[19] == sign);
    assert(zoned[20] == h1 && zoned[21] == h2 && zoned[22] == ':' && zoned[23] == m1 && zoned[24]
        == m2);
    assert(digits_at(zoned, 20, 2));
    assert(digits_at(zoned, 23, 2));
    assert(fr[19] == '.');
    lemma_digits_run(fr, 20, frac.len() as int);
    assert(fr[20 + frac.len() as int] == 'Z');
    assert(zone_offset(fr, 20 + frac.len() as int) == Some(0int));
    if stamp_shape(base) && num4(base, 0) >= 1970 && 1 <= num2(base, 5) <= 12 {
        lemma_day_counts_bounded(num4(base, 0), num2(base, 5));
        assert(num4(base, 0) <= 9999);
    }
}

proof fn lemma_digits_run(s: Seq<char>, j: int, n: int)
    requires
        0 <= j,
        0 <= n,
        j + n < s.len(),
        forall|k: int| j <= k < j + n ==> is_digit(#[trigger] s[k]),
        !is_digit(s[j + n]),
    ensures
        digits_end(s, j) == j + n,
    decreases n,
{
    if n > 0 {
        lemma_digits_run(s, j + 1, n - 1);
    }
}

proof fn lemma_day_counts_bounded(y: int, m: int)
    requires
        1970 <= y,
        1 <= m <= 13,
    ensures
        0 <= days_before_year(y) <= 366 * (y - 1970),
        0 <= days_before_month(y, m) <= 31 * (m - 1),
    decreases y - 1970 + m,
{
    if y > 1970 {
        lemma_day_counts_bounded(y - 1, m);
    }
    if m > 1 {
        lemma_day_counts_bounded(y, m - 1);
    }
}

proof fn lemma_same_tail(a: Seq<char>, b: Seq<char>, j: int)
    requires
        a.len() == b.len(),
        19 <= j,
        forall|i: int| 19 <= i < a.len() ==> #[trigger] a[i] == b[i],
    ensures
        digits_end(a, j) == digits_end(b, j),
        zone_offset(a, j) == zone_offset(b, j),
    decreases a.len() - j,
{
    if j < a.len() {
        lemma_same_tail(a, b, j + 1);
    }
    if j + 6 == a.len() {
        assert(a[j + 1] == b[j + 1] && a[j + 2] == b[j + 2]);
        assert(a[j + 4] == b[j + 4] && a[j + 5] == b[j + 5]);
        assert(digits_at(a, j + 1, 2) <==> is_digit(a[j + 1]) && is_digit(a[j + 2]));
        assert(digits_at(b, j + 1, 2) <==> is_digit(b[j + 1]) && is_digit(b[j + 2]));
        assert(digits_at(a, j + 4, 2) <==> is_digit(a[j + 4]) && is_digit(a[j + 5]));
        assert(digits_at(b, j + 4, 2) <==> is_digit(b[j + 4]) && is_digit(b[j + 5]));
    }
}

/// Within one month of one year, and with the same zone (and fraction),
/// two stamps lie apart by their difference in days, hours, minutes and
/// seconds: 86400 seconds a day, 3600 an hour, 60 a minute.
pub proof fn law_time_of_day(a: Seq<char>, b: Seq<char>)
    requires
        a.len() == b.len(),
        a.len() >= 19,
        forall|i: int| 19 <= i < a.len() ==> #[trigger] a[i] == b[i],
        timestamp_secs(a) is Some,
        timestamp_secs(b) is Some,
        num4(a, 0) == num4(b, 0),
        num2(a, 5) == num2(b, 5),
    ensures
        timestamp_secs(a)->0 - timestamp_secs(b)->0 == (num2(a, 8) - num2(b, 8)) * 86400 + (num2(
            a,
            11,
        ) - num2(b, 11)) * 3600 + (num2(a, 14) - num2(b, 14)) * 60 + (num2(a, 17) - num2(b, 17)),
{
    lemma_same_tail(a, b, 19);
    lemma_same_tail(a, b, 20);
    lemma_day_counts_bounded(num4(a, 0), num2(a, 5));
    assert(num4(a, 0) <= 9999);
    let zone_at = if a.len() > 19 && a[19] == '.' {
        digits_end(a, 20)
    } else {
        19
    };
    if zone_at >= 19 {
        lemma_same_tail(a, b, zone_at);
    }
}

} // verus!
