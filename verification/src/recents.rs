//! Recently used files: from the desktop's list of bookmarks, and from the usual folders.

use vstd::prelude::*;
use vstd::slice::slice_subrange;
use vstd::utf8::{is_ascii_chars, is_ascii_chars_encode_utf8};

use crate::dedup::views;
use crate::filepath::{
    byte_views, bytes_of, components, components_before, components_lt, joined,
    lemma_components_laws, opt_path_view, same_path, split_components, FilePath,
};
use crate::order::{
    arrange, arranged, key_views, lemma_ranking_covers, lemma_ranking_exists, lex_lt, precedes,
    rank, ranking, Rank,
};
use crate::text::{
    all_digits, append_str, chars_of, digits_value, find, find_from, i64_value, index_of_first,
    is_digit, law_find_from, law_split_once, opt_view, parse_i64, split, split_at_char, split_once, string_of,
};

verus! {

/// A file, and when it was last changed: seconds since 1970.
#[derive(Debug)]
pub struct Recent {
    pub path: FilePath,
    pub mtime: u64,
}

/// A path and a time.
#[verifier::ext_equal]
pub struct DatedPath {
    pub path: Seq<u8>,
    pub mtime: u64,
}

impl View for Recent {
    type V = DatedPath;

    open spec fn view(&self) -> DatedPath {
        DatedPath { path: self.path@, mtime: self.mtime }
    }
}

impl Clone for Recent {
    fn clone(&self) -> (r: Self)
        ensures
            r@ == self@,
    {
        Recent { path: self.path.clone(), mtime: self.mtime }
    }
}

// ---------------------------------------------------------------------------
// Dates
// ---------------------------------------------------------------------------

/// Division that rounds towards zero.
pub open spec fn quotient(a: int, b: int) -> int {
    if a >= 0 {
        a / b
    } else {
        -((-a) / b)
    }
}

/// Years counted from March, so that a leap day is the last of its year.
pub open spec fn march_year(y: i64, m: i64) -> i64 {
    if m <= 2 {
        y.wrapping_sub(1)
    } else {
        y
    }
}

/// The 400-year era of a year.
pub open spec fn era_of(y: i64) -> i64 {
    quotient(
        if y >= 0 {
            y as int
        } else {
            y.wrapping_sub(399) as int
        },
        400,
    ) as i64
}

/// The day of the year counted from March.
pub open spec fn march_day(m: i64, d: i64) -> i64 {
    let month = if m > 2 {
        m.wrapping_sub(3)
    } else {
        m.wrapping_add(9)
    };
    let days = quotient(153i64.wrapping_mul(month).wrapping_add(2) as int, 5) as i64;
    days.wrapping_add(d).wrapping_sub(1)
}

/// The day number of a date, in 64-bit arithmetic that wraps around.
pub open spec fn civil_days(y: i64, m: i64, d: i64) -> i64 {
    let year = march_year(y, m);
    let era = era_of(year);
    let yoe = year.wrapping_sub(era.wrapping_mul(400));
    let doe = yoe.wrapping_mul(365).wrapping_add(quotient(yoe as int, 4) as i64).wrapping_sub(
        quotient(yoe as int, 100) as i64,
    ).wrapping_add(march_day(m, d));
    era.wrapping_mul(146097).wrapping_add(doe).wrapping_sub(719468)
}

/// The number of days from 1970-01-01 to a date of the proleptic Gregorian calendar.
pub fn days_from_civil(y: i64, m: i64, d: i64) -> (r: i64)
    ensures
        r == civil_days(y, m, d),
{
    let year: i64 = if m <= 2 {
        y.wrapping_sub(1)
    } else {
        y
    };
    let era: i64 = (if year >= 0 {
        year
    } else {
        year.wrapping_sub(399)
    }) / 400;
    let yoe: i64 = year.wrapping_sub(era.wrapping_mul(400));
    let month: i64 = if m > 2 {
        m.wrapping_sub(3)
    } else {
        m.wrapping_add(9)
    };
    let days: i64 = 153i64.wrapping_mul(month).wrapping_add(2) / 5;
    let doy: i64 = days.wrapping_add(d).wrapping_sub(1);
    let doe: i64 = yoe.wrapping_mul(365).wrapping_add(yoe / 4).wrapping_sub(yoe / 100).wrapping_add(
        doy,
    );
    era.wrapping_mul(146097).wrapping_add(doe).wrapping_sub(719468)
}

/// Whether a year has a leap day.
pub open spec fn is_leap(y: int) -> bool {
    y % 4 == 0 && (y % 100 != 0 || y % 400 == 0)
}

/// The length of a month.
pub open spec fn days_in_month(y: int, m: int) -> int {
    if m == 2 {
        if is_leap(y) {
            29
        } else {
            28
        }
    } else if m == 4 || m == 6 || m == 9 || m == 11 {
        30
    } else {
        31
    }
}

/// Whether a date exists.
pub open spec fn is_date(y: int, m: int, d: int) -> bool {
    1 <= m <= 12 && 1 <= d <= days_in_month(y, m)
}

/// The date after a date.
pub open spec fn next_date(y: int, m: int, d: int) -> (int, int, int) {
    if d < days_in_month(y, m) {
        (y, m, d + 1)
    } else if m < 12 {
        (y, m + 1, 1)
    } else {
        (y + 1, 1, 1)
    }
}

/// The years whose day numbers fit in 64 bits.
pub open spec fn is_year(y: int) -> bool {
    -20_000_000_000_000_000 <= y <= 20_000_000_000_000_000
}

/// The first day of a year counted from March, in days.
#[verifier::opaque]
spec fn march_start(y: int) -> int {
    (y / 400) * 146097 + (y % 400) * 365 + (y % 400) / 4 - (y % 400) / 100 - 719468
}

/// The days of a year before a month, both counted from March.
spec fn month_start(m: int) -> int {
    (153 * (if m > 2 {
        m - 3
    } else {
        m + 9
    }) + 2) / 5
}

/// The day number of a date.
spec fn day_number(y: int, m: int, d: int) -> int {
    march_start(
        if m <= 2 {
            y - 1
        } else {
            y
        },
    ) + month_start(m) + d - 1
}

proof fn lemma_era(year: i64)
    requires
        -20_000_000_000_000_001 <= year <= 20_000_000_000_000_000,
    ensures
        era_of(year) == year as int / 400,
        year.wrapping_sub(era_of(year).wrapping_mul(400)) == year as int % 400,
{
    let era = year as int / 400;
    assert(quotient(
        if year >= 0 {
            year as int
        } else {
            year - 399
        },
        400,
    ) == era);
    assert(era_of(year) == era);
    assert(era_of(year).wrapping_mul(400) == era * 400);
}

proof fn lemma_march_day(m: i64, d: i64)
    requires
        1 <= m <= 12,
        0 <= d <= 31,
    ensures
        march_day(m, d) == month_start(m as int) + d - 1,
{
}

#[verifier::spinoff_prover]
proof fn lemma_civil_days(y: i64, m: i64, d: i64)
    requires
        is_year(y as int),
        1 <= m <= 12,
        0 <= d <= 31,
    ensures
        civil_days(y, m, d) == day_number(y as int, m as int, d as int),
{
    let year = march_year(y, m);
    let era = era_of(year);
    let yoe = year as int % 400;
    lemma_era(year);
    lemma_march_day(m, d);
    reveal(march_start);
    let doe = yoe * 365 + yoe / 4 - yoe / 100 + march_day(m, d);
    assert(-1 <= doe <= 146097 + 400);
    assert(era.wrapping_mul(146097) == era * 146097);
}

proof fn lemma_quarter(r: int)
    ensures
        r / 4 - (r - 1) / 4 == (if r % 4 == 0 {
            1int
        } else {
            0int
        }),
{
    let q = r / 4;
    assert(r == 4 * q + r % 4);
    if r % 4 == 0 {
        assert((r - 1) / 4 == q - 1);
    } else {
        assert((r - 1) / 4 == q);
    }
}

proof fn lemma_century(r: int)
    ensures
        r / 100 - (r - 1) / 100 == (if r % 100 == 0 {
            1int
        } else {
            0int
        }),
{
    let q = r / 100;
    assert(r == 100 * q + r % 100);
    if r % 100 == 0 {
        assert((r - 1) / 100 == q - 1);
    } else {
        assert((r - 1) / 100 == q);
    }
}

proof fn lemma_year_before(y: int)
    ensures
        y % 400 == 0 ==> (y - 1) / 400 == y / 400 - 1 && (y - 1) % 400 == 399,
        y % 400 != 0 ==> (y - 1) / 400 == y / 400 && (y - 1) % 400 == y % 400 - 1,
{
}

proof fn lemma_leap(y: int)
    ensures
        is_leap(y) == ((y % 400) % 4 == 0 && ((y % 400) % 100 != 0 || y % 400 == 0)),
{
    assert((y % 400) % 4 == y % 4);
    assert((y % 400) % 100 == y % 100);
}

proof fn lemma_march_start(y: int)
    ensures
        march_start(y) - march_start(y - 1) == 365 + (if is_leap(y) {
            1int
        } else {
            0int
        }),
{
    lemma_year_before(y);
    lemma_leap(y);
    lemma_quarter(y % 400);
    lemma_century(y % 400);
    assert(march_start(y) == (y / 400) * 146097 + (y % 400) * 365 + (y % 400) / 4 - (y % 400) / 100
        - 719468) by {
        reveal(march_start);
    }
    let z = y - 1;
    assert(march_start(z) == (z / 400) * 146097 + (z % 400) * 365 + (z % 400) / 4 - (z % 400) / 100
        - 719468) by {
        reveal(march_start);
    }
}

proof fn lemma_next_day(y: int, m: int, d: int)
    requires
        is_date(y, m, d),
    ensures
        ({
            let (y2, m2, d2) = next_date(y, m, d);
            day_number(y2, m2, d2) == day_number(y, m, d) + 1
        }),
{
    if d == days_in_month(y, m) {
        if m == 2 {
            lemma_march_start(y);
            assert(month_start(2) == 337);
            assert(month_start(3) == 0);
        } else if m < 12 {
            lemma_month_length(y, m);
        } else {
            assert(month_start(12) == 275);
            assert(month_start(1) == 306);
        }
    }
}

proof fn lemma_month_length(y: int, m: int)
    requires
        1 <= m < 12,
        m != 2,
    ensures
        month_start(m + 1) - month_start(m) == days_in_month(y, m),
{
    if m == 1 {
    } else if m == 3 {
    } else if m == 4 {
    } else if m == 5 {
    } else if m == 6 {
    } else if m == 7 {
    } else if m == 8 {
    } else if m == 9 {
    } else if m == 10 {
    } else {
    }
}

/// Day 0 is 1970-01-01.
pub proof fn law_epoch()
    ensures
        civil_days(1970, 1, 1) == 0,
{
    lemma_civil_days(1970, 1, 1);
    reveal(march_start);
}

/// The day after a date has the next number. With [`law_epoch`] this fixes the number of
/// every date.
pub proof fn law_next_day(y: int, m: int, d: int)
    requires
        is_year(y),
        is_year(y + 1),
        is_date(y, m, d),
    ensures
        ({
            let (y2, m2, d2) = next_date(y, m, d);
            civil_days(y2 as i64, m2 as i64, d2 as i64) == civil_days(
                y as i64,
                m as i64,
                d as i64,
            ) + 1
        }),
{
    let (y2, m2, d2) = next_date(y, m, d);
    lemma_civil_days(y as i64, m as i64, d as i64);
    lemma_civil_days(y2 as i64, m2 as i64, d2 as i64);
    lemma_next_day(y, m, d);
}

/// A text without the `Z`s at its end.
pub open spec fn without_zone(s: Seq<char>) -> Seq<char>
    decreases s.len(),
{
    if s.len() > 0 && s.last() == 'Z' {
        without_zone(s.drop_last())
    } else {
        s
    }
}

/// Whether the whole seconds of a time end at a place: before a fraction, or before an offset
/// from universal time. A sign in front is that of the number.
pub open spec fn ends_seconds(s: Seq<char>, i: int) -> bool {
    s[i] == '.' || (i > 0 && (s[i] == '+' || s[i] == '-'))
}

/// The first place at or after `from` where the whole seconds end.
pub open spec fn seconds_end(s: Seq<char>, from: int) -> int
    decreases s.len() - from,
{
    if from >= s.len() {
        s.len() as int
    } else if ends_seconds(s, from) {
        from
    } else {
        seconds_end(s, from + 1)
    }
}

/// The seconds of a time without a fraction and without an offset from universal time.
pub open spec fn whole_seconds(s: Seq<char>) -> Seq<char> {
    s.take(seconds_end(s, 0))
}

/// The first three pieces of a text, as whole numbers.
pub open spec fn three_numbers(pieces: Seq<Seq<char>>) -> Option<(i64, i64, i64)> {
    if pieces.len() < 3 {
        None
    } else {
        match (i64_value(pieces[0]), i64_value(pieces[1]), i64_value(pieces[2])) {
            (Some(a), Some(b), Some(c)) => Some((a as i64, b as i64, c as i64)),
            _ => None,
        }
    }
}

/// The pieces of a time of day, the third without its fraction and the offset behind it.
pub open spec fn time_pieces(time: Seq<char>) -> Seq<Seq<char>> {
    let pieces = split(time, ':');
    if pieces.len() < 3 {
        pieces
    } else {
        pieces.update(2, whole_seconds(pieces[2]))
    }
}

/// The seconds from 1970 to a time of a day with the given number, in 64-bit arithmetic that
/// wraps around; 0 for a time before 1970.
pub open spec fn day_time(days: i64, time: (i64, i64, i64)) -> u64 {
    let seconds = days.wrapping_mul(86400).wrapping_add(time.0.wrapping_mul(3600)).wrapping_add(
        time.1.wrapping_mul(60),
    ).wrapping_add(time.2);
    if seconds < 0 {
        0
    } else {
        seconds as u64
    }
}

/// The seconds from 1970 to a date and a time.
pub open spec fn unix_time(date: (i64, i64, i64), time: (i64, i64, i64)) -> u64 {
    day_time(civil_days(date.0, date.1, date.2), time)
}

/// A day has 86400 seconds, an hour 3600 and a minute 60.
pub proof fn law_day_time(days: i64, time: (i64, i64, i64))
    requires
        0 <= days <= 100_000_000_000_000,
        0 <= time.0 < 24,
        0 <= time.1 < 60,
        0 <= time.2 <= 60,
    ensures
        day_time(days, time) == 86400 * days + 3600 * time.0 + 60 * time.1 + time.2,
{
    assert(days.wrapping_mul(86400) == 86400 * days);
}

/// The seconds from 1970 to a time such as `2024-05-03T12:34:56Z`.
pub open spec fn iso8601(s: Seq<char>) -> Option<u64> {
    match split_once(without_zone(s), 'T') {
        None => None,
        Some((date, time)) => match (
            three_numbers(split(date, '-')),
            three_numbers(time_pieces(time)),
        ) {
            (Some(date), Some(time)) => Some(unix_time(date, time)),
            _ => None,
        },
    }
}

/// The first three of a list of pieces, as whole numbers.
fn parse_three(pieces: &Vec<Vec<char>>) -> (r: Option<(i64, i64, i64)>)
    ensures
        r == three_numbers(views(pieces@)),
{
    if pieces.len() < 3 {
        return None;
    }
    let ghost all = views(pieces@);
    assert(all[0] == pieces@[0]@ && all[1] == pieces@[1]@ && all[2] == pieces@[2]@);
    match (
        parse_i64(pieces[0].as_slice()),
        parse_i64(pieces[1].as_slice()),
        parse_i64(pieces[2].as_slice()),
    ) {
        (Some(a), Some(b), Some(c)) => Some((a, b, c)),
        _ => None,
    }
}

/// The place where the whole seconds of a time end.
fn find_seconds_end(s: &[char]) -> (r: usize)
    ensures
        r == seconds_end(s@, 0),
        r <= s@.len(),
{
    let mut i: usize = 0;
    while i < s.len()
        invariant
            i <= s@.len(),
            seconds_end(s@, 0) == seconds_end(s@, i as int),
        decreases s.len() - i,
    {
        if s[i] == '.' || (i > 0 && (s[i] == '+' || s[i] == '-')) {
            return i;
        }
        i += 1;
    }
    i
}

/// The seconds from 1970 to a time such as `2024-05-03T12:34:56Z`. A fraction of a second and
/// an offset from universal time are ignored.
pub fn parse_iso8601(s: &str) -> (r: Option<u64>)
    ensures
        r == iso8601(s@),
{
    let chars = chars_of(s);
    let mut n: usize = chars.len();
    assert(chars@.take(n as int) =~= s@);
    while n > 0 && chars[n - 1] == 'Z'
        invariant
            n <= chars@.len(),
            without_zone(s@) == without_zone(chars@.take(n as int)),
        decreases n,
    {
        assert(chars@.take(n as int).drop_last() =~= chars@.take(n - 1));
        n -= 1;
    }
    let text = slice_subrange(chars.as_slice(), 0, n);
    assert(text@ =~= chars@.take(n as int));
    let i = match index_of_first(text, 'T') {
        Some(i) => i,
        None => return None,
    };
    let date = slice_subrange(text, 0, i);
    let time = slice_subrange(text, i + 1, n);
    assert(date@ =~= text@.take(i as int));
    assert(time@ =~= text@.skip(i + 1));
    let date_pieces = split_at_char(date, '-');
    let mut time_pieces = split_at_char(time, ':');
    assert(views(date_pieces@) =~= split(date@, '-'));
    assert(views(time_pieces@) =~= split(time@, ':'));
    if time_pieces.len() >= 3 {
        let ghost all = time_pieces@;
        let ghost pieces = views(all);
        assert(pieces[2] == all[2]@);
        let end: usize = find_seconds_end(time_pieces[2].as_slice());
        time_pieces[2].truncate(end);
        assert(time_pieces@[2]@ =~= all[2]@.take(end as int));
        assert(views(time_pieces@) =~= pieces.update(2, whole_seconds(pieces[2])));
    }
    assert(views(time_pieces@) == crate::recents::time_pieces(time@));
    let date = match parse_three(&date_pieces) {
        Some(date) => date,
        None => return None,
    };
    let time = match parse_three(&time_pieces) {
        Some(time) => time,
        None => return None,
    };
    let days: i64 = days_from_civil(date.0, date.1, date.2);
    let seconds: i64 = days.wrapping_mul(86400).wrapping_add(time.0.wrapping_mul(3600)).wrapping_add(
        time.1.wrapping_mul(60),
    ).wrapping_add(time.2);
    Some(
        if seconds < 0 {
            0
        } else {
            seconds as u64
        },
    )
}

proof fn lemma_split_at(a: Seq<char>, c: char, b: Seq<char>)
    requires
        !a.contains(c),
    ensures
        split_once(a.push(c) + b, c) == Some((a, b)),
        split(a.push(c) + b, c) == seq![a] + split(b, c),
{
    let s = a.push(c) + b;
    s.index_of_first_ensures(c);
    assert(s[a.len() as int] == c);
    assert(s.contains(c));
    let i = s.index_of_first(c)->0;
    if i < a.len() {
        assert(a[i] == s[i]);
    }
    assert(s.take(i) =~= a);
    assert(s.skip(i + 1) =~= b);
}

proof fn lemma_one_piece(a: Seq<char>, c: char)
    requires
        !a.contains(c),
    ensures
        split(a, c) == seq![a],
{
    a.index_of_first_ensures(c);
}

proof fn lemma_first_piece(a: Seq<char>, c: char)
    ensures
        split(a, c).len() > 0,
        split(a, c)[0].is_prefix_of(a),
        a.len() > 0 && a[0] != c ==> split(a, c)[0].len() > 0,
{
    a.index_of_first_ensures(c);
}

/// The first piece of a text behind one without the separator.
proof fn lemma_piece_behind(a: Seq<char>, b: Seq<char>, c: char)
    requires
        !a.contains(c),
    ensures
        split(a + b, c).len() > 0,
        split(a + b, c)[0] == a + split(b, c)[0],
{
    let s = a + b;
    s.index_of_first_ensures(c);
    b.index_of_first_ensures(c);
    if b.contains(c) {
        let j = b.index_of_first(c)->0;
        assert(s[a.len() + j] == c);
        assert(s.contains(c));
        let i = s.index_of_first(c)->0;
        if i < a.len() {
            assert(a[i] == s[i]);
        } else {
            assert(b[i - a.len()] == s[i]);
            assert(b.take(j).contains(b[i - a.len()]) || i >= a.len() + j) by {
                if i < a.len() + j {
                    assert(b.take(j)[i - a.len()] == c);
                }
            }
            if i > a.len() + j {
                assert(s.take(i)[a.len() + j] == c);
            }
        }
        assert(s.take(i) =~= a + b.take(j));
    } else {
        if s.contains(c) {
            let i = choose|i: int| 0 <= i < s.len() && s[i] == c;
            if i < a.len() {
                assert(a[i] == c);
            } else {
                assert(b[i - a.len()] == c);
            }
        }
    }
}

proof fn lemma_seconds_end(s: Seq<char>, from: int, n: int)
    requires
        0 <= from <= n <= s.len(),
        forall|k: int| from <= k < n ==> !#[trigger] ends_seconds(s, k),
    ensures
        seconds_end(s, from) == seconds_end(s, n),
    decreases n - from,
{
    if from < n {
        lemma_seconds_end(s, from + 1, n);
    }
}

proof fn lemma_without_zone(base: Seq<char>, suffix: Seq<char>)
    requires
        suffix.len() > 0,
        suffix[0] != 'Z',
    ensures
        exists|kept: Seq<char>|
            kept.len() > 0 && kept[0] == suffix[0] && #[trigger] without_zone(base + suffix) == base
                + kept,
    decreases suffix.len(),
{
    let s = base + suffix;
    assert(s.last() == suffix.last());
    if suffix.last() == 'Z' {
        let shorter = suffix.drop_last();
        assert(s.drop_last() =~= base + shorter);
        lemma_without_zone(base, shorter);
        let kept = choose|kept: Seq<char>|
            kept.len() > 0 && kept[0] == shorter[0] && #[trigger] without_zone(base + shorter)
                == base + kept;
        assert(without_zone(s) == base + kept);
    } else {
        assert(without_zone(s) == base + suffix);
    }
}

/// A date and a time, from their pieces.
pub open spec fn moment(
    date: Seq<char>,
    hour: Seq<char>,
    minute: Seq<char>,
    second: Seq<char>,
) -> Seq<char> {
    date.push('T') + (hour.push(':') + (minute.push(':') + second))
}

/// Whether a date and the pieces of a time hold none of what parts them.
pub open spec fn are_pieces(
    date: Seq<char>,
    hour: Seq<char>,
    minute: Seq<char>,
    second: Seq<char>,
) -> bool {
    &&& !date.contains('T')
    &&& !hour.contains(':')
    &&& !minute.contains(':')
    &&& !second.contains(':')
    &&& second.len() > 0
    &&& second.last() != 'Z'
    &&& forall|k: int| 0 <= k < second.len() ==> !#[trigger] ends_seconds(second, k)
}

/// What a moment comes to, given the text behind its seconds without the zone.
proof fn lemma_moment(
    date: Seq<char>,
    hour: Seq<char>,
    minute: Seq<char>,
    second: Seq<char>,
    kept: Seq<char>,
)
    requires
        are_pieces(date, hour, minute, second),
        kept.len() > 0 ==> kept[0] == '.' || kept[0] == '+' || kept[0] == '-',
    ensures
        ({
            let text = moment(date, hour, minute, second) + kept;
            &&& split_once(text, 'T') matches Some(parts) && parts.0 == date && three_numbers(
                time_pieces(parts.1),
            ) == three_numbers(seq![hour, minute, second])
        }),
{
    let text = moment(date, hour, minute, second) + kept;
    let tail = second + kept;
    let time = hour.push(':') + (minute.push(':') + tail);
    assert(text =~= date.push('T') + time);
    lemma_split_at(date, 'T', time);
    lemma_split_at(hour, ':', minute.push(':') + tail);
    lemma_split_at(minute, ':', tail);
    lemma_piece_behind(second, kept, ':');
    lemma_first_piece(kept, ':');
    let pieces = split(time, ':');
    let third = split(tail, ':')[0];
    assert(pieces[0] == hour && pieces[1] == minute && pieces[2] == third);
    let rest = split(kept, ':')[0];
    assert(third == second + rest);
    assert forall|k: int| 0 <= k < second.len() implies !#[trigger] ends_seconds(third, k) by {
        assert(third[k] == second[k]);
        assert(!ends_seconds(second, k));
    }
    lemma_seconds_end(third, 0, second.len() as int);
    if kept.len() > 0 {
        assert(rest.len() > 0);
        assert(third[second.len() as int] == kept[0]);
        assert(ends_seconds(third, second.len() as int));
    } else {
        assert(rest.len() == 0);
    }
    assert(whole_seconds(third) =~= second);
    assert(time_pieces(time)[0] == hour && time_pieces(time)[1] == minute && time_pieces(time)[2]
        == second);
}

/// A fraction and an offset from universal time are ignored: a time comes to the same without
/// what stands behind its seconds.
pub proof fn law_offset_is_ignored(
    date: Seq<char>,
    hour: Seq<char>,
    minute: Seq<char>,
    second: Seq<char>,
    suffix: Seq<char>,
)
    requires
        are_pieces(date, hour, minute, second),
        suffix.len() > 0,
        suffix[0] == '.' || suffix[0] == '+' || suffix[0] == '-' || suffix == seq!['Z'],
    ensures
        iso8601(moment(date, hour, minute, second) + suffix) == iso8601(
            moment(date, hour, minute, second),
        ),
{
    let base = moment(date, hour, minute, second);
    let none = Seq::<char>::empty();
    assert(base.last() == second.last());
    assert(without_zone(base) == base);
    assert(base + none =~= base);
    lemma_moment(date, hour, minute, second, none);
    if suffix == seq!['Z'] {
        assert((base + suffix).drop_last() =~= base);
        assert(without_zone(base + suffix) == without_zone(base));
    } else {
        lemma_without_zone(base, suffix);
        let kept = choose|kept: Seq<char>|
            kept.len() > 0 && kept[0] == suffix[0] && #[trigger] without_zone(base + suffix) == base
                + kept;
        lemma_moment(date, hour, minute, second, kept);
    }
}

/// A time in the form `2024-05-03T12:34:56.789Z`, by its pieces; the fraction may be missing.
pub struct Stamp {
    pub year: Seq<char>,
    pub month: Seq<char>,
    pub day: Seq<char>,
    pub hour: Seq<char>,
    pub minute: Seq<char>,
    pub second: Seq<char>,
    pub fraction: Option<Seq<char>>,
}

/// Whether a text is a number of the given length.
pub open spec fn is_number(s: Seq<char>, len: nat) -> bool {
    s.len() == len && all_digits(s)
}

impl Stamp {
    /// The date.
    pub open spec fn date(self) -> Seq<char> {
        self.year.push('-') + (self.month.push('-') + self.day)
    }

    /// The text without the fraction and the zone.
    pub open spec fn whole(self) -> Seq<char> {
        moment(self.date(), self.hour, self.minute, self.second)
    }

    /// The text.
    pub open spec fn text(self) -> Seq<char> {
        match self.fraction {
            Some(fraction) => self.whole() + (seq!['.'] + fraction).push('Z'),
            None => self.whole() + seq!['Z'],
        }
    }

    /// The numbers of the pieces, the year first.
    pub open spec fn numbers(self) -> Seq<int> {
        seq![
            digits_value(self.year) as int,
            digits_value(self.month) as int,
            digits_value(self.day) as int,
            digits_value(self.hour) as int,
            digits_value(self.minute) as int,
            digits_value(self.second) as int,
        ]
    }

    /// Whether the pieces are numbers of the right length and make a date and a time of day.
    /// A minute may have a leap second.
    pub open spec fn is_valid(self) -> bool {
        &&& is_number(self.year, 4)
        &&& is_number(self.month, 2)
        &&& is_number(self.day, 2)
        &&& is_number(self.hour, 2)
        &&& is_number(self.minute, 2)
        &&& is_number(self.second, 2)
        &&& is_date(self.numbers()[0], self.numbers()[1], self.numbers()[2])
        &&& self.numbers()[3] < 24
        &&& self.numbers()[4] < 60
        &&& self.numbers()[5] <= 60
    }

    /// The seconds from 1970, a leap second counted as the one after it; 0 before 1970.
    pub open spec fn seconds(self) -> int {
        let n = self.numbers();
        let total = 86400 * civil_days(n[0] as i64, n[1] as i64, n[2] as i64) + 3600 * n[3] + 60
            * n[4] + n[5];
        if total < 0 {
            0
        } else {
            total
        }
    }
}

proof fn lemma_number(s: Seq<char>, len: nat, c: char)
    requires
        is_number(s, len),
        0 < len <= 4,
    ensures
        digits_value(s) < 10_000,
        i64_value(s) == Some(digits_value(s) as int),
        !is_digit(c) ==> !s.contains(c),
        forall|k: int| 0 <= k < s.len() ==> !#[trigger] ends_seconds(s, k),
{
    assert(is_digit(s[0]));
    assert forall|k: int| 0 <= k < s.len() implies !#[trigger] ends_seconds(s, k) by {
        assert(is_digit(s[k]));
    }
    reveal_with_fuel(digits_value, 5);
    assert(is_digit(s[len - 1]));
    if len > 1 {
        assert(is_digit(s[len - 2]));
    }
    if len > 2 {
        assert(is_digit(s[len - 3]));
    }
}

proof fn lemma_months(y: int, m: int, later: int)
    requires
        1 <= m < later <= 12,
    ensures
        day_number(y, m, days_in_month(y, m)) < day_number(y, later, 1),
    decreases later - m,
{
    lemma_next_day(y, m, days_in_month(y, m));
    if m + 1 < later {
        lemma_months(y, m + 1, later);
        assert(days_in_month(y, m + 1) >= 1);
    }
}

proof fn lemma_years(y: int, later: int)
    requires
        y < later,
    ensures
        day_number(y, 12, 31) < day_number(later, 1, 1),
    decreases later - y,
{
    lemma_next_day(y, 12, 31);
    if y + 1 < later {
        lemma_years(y + 1, later);
        lemma_months(y + 1, 1, 12);
    }
}

/// A later date has a greater number.
proof fn lemma_later_date(y: int, m: int, d: int, y2: int, m2: int, d2: int)
    requires
        is_date(y, m, d),
        is_date(y2, m2, d2),
        y < y2 || (y == y2 && (m < m2 || (m == m2 && d < d2))),
    ensures
        day_number(y, m, d) < day_number(y2, m2, d2),
{
    if y < y2 {
        lemma_years(y, y2);
        if m < 12 {
            lemma_months(y, m, 12);
        }
        if 1 < m2 {
            lemma_months(y2, 1, m2);
        }
    } else if m < m2 {
        lemma_months(y, m, m2);
    }
}

proof fn lemma_stamp_parts(s: Stamp)
    requires
        s.is_valid(),
    ensures
        are_pieces(s.date(), s.hour, s.minute, s.second),
        without_zone(s.whole()) == s.whole(),
        s.numbers()[0] < 10_000,
        ({
            let n = s.numbers();
            &&& split_once(s.whole(), 'T') matches Some(parts) && three_numbers(
                split(parts.0, '-'),
            ) == Some((n[0] as i64, n[1] as i64, n[2] as i64)) && three_numbers(
                time_pieces(parts.1),
            ) == Some((n[3] as i64, n[4] as i64, n[5] as i64))
        }),
{
    lemma_number(s.year, 4, '-');
    lemma_number(s.month, 2, '-');
    lemma_number(s.day, 2, '-');
    lemma_number(s.hour, 2, ':');
    lemma_number(s.minute, 2, ':');
    lemma_number(s.second, 2, ':');
    assert(s.second.last() != 'Z') by {
        assert(is_digit(s.second[1]));
    }
    let date = s.date();
    assert(!date.contains('T')) by {
        lemma_number(s.year, 4, 'T');
        lemma_number(s.month, 2, 'T');
        lemma_number(s.day, 2, 'T');
        if date.contains('T') {
            let k = choose|k: int| 0 <= k < date.len() && date[k] == 'T';
            if k < 4 {
                assert(s.year[k] == 'T');
            } else if 5 <= k < 7 {
                assert(s.month[k - 5] == 'T');
            } else if 8 <= k {
                assert(s.day[k - 8] == 'T');
            }
        }
    }
    let none = Seq::<char>::empty();
    let base = s.whole();
    assert(base.last() == s.second.last());
    assert(without_zone(base) == base);
    assert(base + none =~= base);
    lemma_moment(date, s.hour, s.minute, s.second, none);
    lemma_split_at(s.year, '-', s.month.push('-') + s.day);
    lemma_split_at(s.month, '-', s.day);
    lemma_one_piece(s.day, '-');
    assert(split(date, '-') =~= seq![s.year, s.month, s.day]);
}

proof fn lemma_days_in_range(y: int, m: int, d: int)
    requires
        0 <= y < 10_000,
        is_date(y, m, d),
    ensures
        -10_000_000 <= day_number(y, m, d) <= 10_000_000,
        y < 1970 ==> day_number(y, m, d) < 0,
{
    assert(day_number(1970, 1, 1) == 0) by {
        reveal(march_start);
    }
    assert(day_number(0, 1, 1) >= -10_000_000) by {
        reveal(march_start);
    }
    assert(day_number(10_000, 1, 1) <= 10_000_000) by {
        reveal(march_start);
    }
    lemma_later_date(y, m, d, 10_000, 1, 1);
    if y > 0 || m > 1 || d > 1 {
        lemma_later_date(0, 1, 1, y, m, d);
    }
    if y < 1970 {
        lemma_later_date(y, m, d, 1970, 1, 1);
    }
}

/// The seconds to a time of a day with the given number.
spec fn total(days: int, n: Seq<int>) -> int {
    86400 * days + 3600 * n[3] + 60 * n[4] + n[5]
}

proof fn lemma_day_time(days: i64, n: Seq<int>)
    requires
        -10_000_000 <= days <= 10_000_000,
        0 <= n[3] < 24,
        0 <= n[4] < 60,
        0 <= n[5] <= 60,
    ensures
        day_time(days, (n[3] as i64, n[4] as i64, n[5] as i64)) == (if total(days as int, n) < 0 {
            0
        } else {
            total(days as int, n)
        }),
        days < 0 ==> total(days as int, n) <= 0,
{
    assert(days.wrapping_mul(86400) == 86400 * days);
}

/// A valid time is read, and comes to its seconds since 1970, whether or not it has a
/// fraction. A time before 1970 comes to 0.
pub proof fn law_valid_times_are_read(s: Stamp)
    requires
        s.is_valid(),
    ensures
        iso8601(s.text()) == Some(s.seconds() as u64),
        iso8601(s.text()) == iso8601(Stamp { fraction: None, ..s }.text()),
        s.numbers()[0] < 1970 ==> iso8601(s.text()) == Some(0u64),
{
    let n = s.numbers();
    lemma_stamp_parts(s);
    law_offset_is_ignored(s.date(), s.hour, s.minute, s.second, seq!['Z']);
    if let Some(fraction) = s.fraction {
        law_offset_is_ignored(
            s.date(),
            s.hour,
            s.minute,
            s.second,
            (seq!['.'] + fraction).push('Z'),
        );
    }
    assert(Stamp { fraction: None, ..s }.text() == s.whole() + seq!['Z']);
    lemma_civil_days(n[0] as i64, n[1] as i64, n[2] as i64);
    lemma_days_in_range(n[0], n[1], n[2]);
    lemma_day_time(civil_days(n[0] as i64, n[1] as i64, n[2] as i64), n);
}

/// Of two valid times, the later never comes to a smaller number.
pub proof fn law_later_times_are_not_less(a: Stamp, b: Stamp)
    requires
        a.is_valid(),
        b.is_valid(),
        !lex_lt(b.numbers(), a.numbers()),
    ensures
        iso8601(a.text()) is Some,
        iso8601(b.text()) is Some,
        iso8601(a.text())->0 <= iso8601(b.text())->0,
{
    lemma_seconds_of(a);
    lemma_seconds_of(b);
    lemma_total_grows(a.numbers(), b.numbers());
}

proof fn lemma_seconds_of(s: Stamp)
    requires
        s.is_valid(),
    ensures
        ({
            let n = s.numbers();
            let t = total(day_number(n[0], n[1], n[2]), n);
            iso8601(s.text()) matches Some(seconds) && seconds == (if t < 0 {
                0
            } else {
                t
            })
        }),
{
    let n = s.numbers();
    law_valid_times_are_read(s);
    lemma_stamp_parts(s);
    lemma_civil_days(n[0] as i64, n[1] as i64, n[2] as i64);
    lemma_days_in_range(n[0], n[1], n[2]);
}

proof fn lemma_total_grows(m: Seq<int>, n: Seq<int>)
    requires
        m.len() == 6,
        n.len() == 6,
        is_date(m[0], m[1], m[2]),
        is_date(n[0], n[1], n[2]),
        0 <= m[3] < 24 && 0 <= m[4] < 60 && 0 <= m[5] <= 60,
        0 <= n[3] < 24 && 0 <= n[4] < 60 && 0 <= n[5] <= 60,
        !lex_lt(n, m),
    ensures
        total(day_number(m[0], m[1], m[2]), m) <= total(day_number(n[0], n[1], n[2]), n),
{
    reveal_with_fuel(lex_lt, 7);
    if m[0] != n[0] || m[1] != n[1] || m[2] != n[2] {
        lemma_later_date(m[0], m[1], m[2], n[0], n[1], n[2]);
    }
}

// ---------------------------------------------------------------------------
// Bookmarks
// ---------------------------------------------------------------------------

/// The value of an attribute of a tag: what stands between `name="` and the next quote.
pub open spec fn attribute(tag: Seq<char>, name: Seq<char>) -> Option<Seq<char>> {
    let needle = name + "=\""@;
    match find_from(tag, needle, 0) {
        None => None,
        Some(i) => match split_once(tag.skip(i + needle.len()), '"') {
            Some((value, _)) => Some(value),
            None => None,
        },
    }
}

/// The value of an attribute of a tag.
pub fn extract_attr(tag: &[char], name: &str) -> (r: Option<String>)
    ensures
        opt_view(r) == attribute(tag@, name@),
{
    let mut needle = chars_of(name);
    append_str(&mut needle, "=\"");
    let i = match find(tag, needle.as_slice(), 0) {
        Some(i) => i,
        None => return None,
    };
    let n: usize = tag.len();
    let after = slice_subrange(tag, i + needle.len(), n);
    assert(after@ =~= tag@.skip(i + needle@.len()));
    match index_of_first(after, '"') {
        Some(j) => {
            let value = slice_subrange(after, 0, j);
            assert(value@ =~= after@.take(j as int));
            Some(string_of(value))
        },
        None => None,
    }
}

/// The value of a hexadecimal digit.
pub open spec fn hex_digit(b: u8) -> Option<int> {
    if 48 <= b <= 57 {
        Some(b - 48)
    } else if 97 <= b <= 102 {
        Some(b - 87)
    } else if 65 <= b <= 70 {
        Some(b - 55)
    } else {
        None
    }
}

/// The value of two characters as a hexadecimal number; a plus sign may come first.
pub open spec fn hex_pair(a: u8, b: u8) -> Option<int> {
    if a == 43 {
        hex_digit(b)
    } else {
        match (hex_digit(a), hex_digit(b)) {
            (Some(x), Some(y)) => Some(x * 16 + y),
            _ => None,
        }
    }
}

/// What the bytes of an encoded path stand for, one character a byte: `%` and two digits
/// for the character with that number, unless fewer than two bytes follow the `%`.
pub open spec fn unescaped(bytes: Seq<u8>) -> Option<Seq<char>>
    decreases bytes.len(),
{
    if bytes.len() == 0 {
        Some(Seq::empty())
    } else if bytes[0] == 37 && bytes.len() > 2 {
        match (hex_pair(bytes[1], bytes[2]), unescaped(bytes.skip(3))) {
            (Some(value), Some(rest)) => Some(seq![value as u8 as char] + rest),
            _ => None,
        }
    } else {
        match unescaped(bytes.skip(1)) {
            Some(rest) => Some(seq![bytes[0] as char] + rest),
            None => None,
        }
    }
}

/// The path in a `file://` address.
pub open spec fn url_path(url: Seq<char>) -> Option<Seq<u8>> {
    if "file://"@.is_prefix_of(url) {
        match unescaped(bytes_of(url.skip("file://"@.len() as int))) {
            Some(path) => Some(bytes_of(path)),
            None => None,
        }
    } else {
        None
    }
}

/// An address in ASCII without a `%` stands for the path as it is written.
pub proof fn law_plain_address(path: Seq<char>)
    requires
        is_ascii_chars(path),
        !path.contains('%'),
    ensures
        url_path("file://"@ + path) == Some(bytes_of(path)),
{
    let url = "file://"@ + path;
    let n = "file://"@.len() as int;
    assert("file://"@ =~= url.subrange(0, n));
    assert(url.skip(n) =~= path);
    is_ascii_chars_encode_utf8(path);
    lemma_plain_bytes(path, bytes_of(path));
}

proof fn lemma_plain_bytes(path: Seq<char>, bytes: Seq<u8>)
    requires
        is_ascii_chars(path),
        !path.contains('%'),
        bytes.len() == path.len(),
        forall|i: int| 0 <= i < path.len() ==> #[trigger] bytes[i] == path[i] as u8,
    ensures
        unescaped(bytes) == Some(path),
    decreases path.len(),
{
    if path.len() == 0 {
        assert(path =~= Seq::empty());
    } else {
        let rest = path.skip(1);
        assert forall|i: int| 0 <= i < rest.len() implies rest[i] != '%' by {
            assert(path.contains(path[i + 1]));
        }
        assert forall|i: int| 0 <= i < rest.len() implies #[trigger] bytes.skip(1)[i] == rest[i] as u8 by {
            assert(bytes[i + 1] == path[i + 1] as u8);
        }
        lemma_plain_bytes(rest, bytes.skip(1));
        assert(path.contains(path[0]));
        assert(bytes[0] == path[0] as u8);
        assert(bytes[0] as char == path[0]);
        assert(seq![path[0]] + rest =~= path);
    }
}

fn hex_digit_value(b: u8) -> (r: Option<u8>)
    ensures
        hex_digit(b) == (match r {
            Some(v) => Some(v as int),
            None => None,
        }),
        r matches Some(v) ==> v < 16,
{
    if 48 <= b && b <= 57 {
        Some(b - 48)
    } else if 97 <= b && b <= 102 {
        Some(b - 87)
    } else if 65 <= b && b <= 70 {
        Some(b - 55)
    } else {
        None
    }
}

fn hex_pair_value(a: u8, b: u8) -> (r: Option<u8>)
    ensures
        hex_pair(a, b) == (match r {
            Some(v) => Some(v as int),
            None => None,
        }),
{
    if a == 43 {
        return hex_digit_value(b);
    }
    match (hex_digit_value(a), hex_digit_value(b)) {
        (Some(x), Some(y)) => Some(x * 16 + y),
        _ => None,
    }
}

/// The path in a `file://` address.
pub fn decode_file_url(s: &str) -> (r: Option<FilePath>)
    ensures
        opt_path_view(r) == url_path(s@),
{
    let url = chars_of(s);
    let prefix = chars_of("file://");
    if !crate::text::starts_with(url.as_slice(), prefix.as_slice()) {
        return None;
    }
    let rest = slice_subrange(url.as_slice(), prefix.len(), url.len());
    assert(rest@ =~= s@.skip(prefix@.len() as int));
    let encoded = string_of(rest);
    let bytes = encoded.as_str().as_bytes();
    let mut out: Vec<char> = Vec::new();
    let mut i: usize = 0;
    let ghost whole = unescaped(bytes@);
    assert(bytes@.skip(0) =~= bytes@);
    proof {
        if let Some(rest) = whole {
            assert(out@ + rest =~= rest);
        }
    }
    while i < bytes.len()
        invariant
            i <= bytes@.len(),
            whole is None ==> url_path(s@) is None,
            whole == (match unescaped(bytes@.skip(i as int)) {
                Some(rest) => Some(out@ + rest),
                None => None,
            }),
        decreases bytes.len() - i,
    {
        let ghost left = bytes@.skip(i as int);
        let ghost before = out@;
        assert(left[0] == bytes@[i as int]);
        if bytes[i] == 37 && bytes.len() - i > 2 {
            assert(left[1] == bytes@[i + 1] && left[2] == bytes@[i + 2]);
            assert(left.skip(3) =~= bytes@.skip(i + 3));
            match hex_pair_value(bytes[i + 1], bytes[i + 2]) {
                Some(value) => {
                    out.push(value as char);
                    proof {
                        if let Some(rest) = unescaped(left.skip(3)) {
                            assert(before + (seq![value as char] + rest) =~= out@ + rest);
                        }
                    }
                },
                None => return None,
            }
            i += 3;
        } else {
            assert(left.skip(1) =~= bytes@.skip(i + 1));
            let b = bytes[i];
            out.push(b as char);
            proof {
                if let Some(rest) = unescaped(left.skip(1)) {
                    assert(before + (seq![b as char] + rest) =~= out@ + rest);
                }
            }
            i += 1;
        }
    }
    assert(out@ + Seq::<char>::empty() =~= out@);
    Some(FilePath::new(string_of(out.as_slice()).as_str()))
}

/// The bookmark in a tag: its address, and when it was changed or else added. A time that
/// cannot be read counts as the oldest.
pub open spec fn bookmark(tag: Seq<char>) -> Option<DatedPath> {
    let modified = match attribute(tag, "modified"@) {
        Some(time) => Some(time),
        None => attribute(tag, "added"@),
    };
    match (attribute(tag, "href"@), modified) {
        (Some(href), Some(modified)) => match url_path(href) {
            Some(path) => Some(
                DatedPath {
                    path,
                    mtime: match iso8601(modified) {
                        Some(time) => time,
                        None => 0,
                    },
                },
            ),
            None => None,
        },
        _ => None,
    }
}

/// The bookmarks in a text from a place on: those in its `<bookmark ...>` tags.
pub open spec fn bookmarks(text: Seq<char>, from: int) -> Seq<DatedPath>
    decreases text.len() - from,
{
    match find_from(text, "<bookmark"@, from) {
        None => Seq::empty(),
        Some(start) => match find_from(text, ">"@, start) {
            None => Seq::empty(),
            Some(end) => if from <= end < text.len() {
                let rest = bookmarks(text, end + 1);
                match bookmark(text.subrange(start, end)) {
                    Some(b) => seq![b] + rest,
                    None => rest,
                }
            } else {
                Seq::empty()
            },
        },
    }
}

/// The bookmark in a tag.
fn read_bookmark(tag: &[char]) -> (r: Option<Recent>)
    ensures
        bookmark(tag@) == (match r {
            Some(b) => Some(b@),
            None => None,
        }),
{
    let href = match extract_attr(tag, "href") {
        Some(href) => href,
        None => return None,
    };
    let modified = match extract_attr(tag, "modified") {
        Some(time) => time,
        None => match extract_attr(tag, "added") {
            Some(time) => time,
            None => return None,
        },
    };
    match decode_file_url(href.as_str()) {
        Some(path) => {
            let mtime: u64 = match parse_iso8601(modified.as_str()) {
                Some(time) => time,
                None => 0,
            };
            Some(Recent { path, mtime })
        },
        None => None,
    }
}

/// The bookmarks in the text of a list of recently used files.
pub fn parse_xbel(text: &str) -> (r: Vec<Recent>)
    ensures
        views(r@) == bookmarks(text@, 0),
{
    let chars = chars_of(text);
    let open = chars_of("<bookmark");
    let close = chars_of(">");
    let mut out: Vec<Recent> = Vec::new();
    let mut cursor: usize = 0;
    let n: usize = chars.len();
    proof {
        reveal_strlit("<bookmark");
        reveal_strlit(">");
    }
    assert(views(out@) + bookmarks(text@, 0) =~= bookmarks(text@, 0));
    loop
        invariant
            cursor <= n,
            n == chars@.len(),
            chars@ == text@,
            open@ == "<bookmark"@,
            close@ == ">"@,
            close@.len() == 1,
            bookmarks(text@, 0) == views(out@) + bookmarks(text@, cursor as int),
        decreases n - cursor,
    {
        let ghost before = views(out@);
        assert(before + Seq::<DatedPath>::empty() =~= before);
        let start = match find(chars.as_slice(), open.as_slice(), cursor) {
            Some(start) => start,
            None => return out,
        };
        let end = match find(chars.as_slice(), close.as_slice(), start) {
            Some(end) => end,
            None => return out,
        };
        let tag = slice_subrange(chars.as_slice(), start, end);
        let ghost rest = bookmarks(text@, end + 1);
        if let Some(b) = read_bookmark(tag) {
            out.push(b);
            assert(views(out@) =~= before.push(b@));
            assert(before + (seq![b@] + rest) =~= views(out@) + rest);
        }
        cursor = end + 1;
    }
}

/// The list of recently used files, below `HOME`.
pub fn xbel_path(home: Option<FilePath>) -> (r: Option<FilePath>)
    ensures
        opt_path_view(r) == (match home {
            Some(home) => Some(joined(home@, bytes_of(".local/share/recently-used.xbel"@))),
            None => None,
        }),
{
    match home {
        Some(home) => Some(home.join_str(".local/share/recently-used.xbel")),
        None => None,
    }
}

/// The folders whose files count as recent, below `HOME`.
pub fn recent_dirs(home: Option<FilePath>) -> (r: Vec<FilePath>)
    ensures
        views(r@) == (match home {
            Some(home) => seq![
                joined(home@, bytes_of("Downloads"@)),
                joined(home@, bytes_of("Documents"@)),
                joined(home@, bytes_of("Desktop"@)),
            ],
            None => Seq::empty(),
        }),
{
    let mut dirs: Vec<FilePath> = Vec::new();
    if let Some(home) = &home {
        dirs.push(home.join_str("Downloads"));
        dirs.push(home.join_str("Documents"));
        dirs.push(home.join_str("Desktop"));
        assert(views(dirs@) =~= seq![
            joined(home@, bytes_of("Downloads"@)),
            joined(home@, bytes_of("Documents"@)),
            joined(home@, bytes_of("Desktop"@)),
        ]);
    } else {
        assert(views(dirs@) =~= Seq::empty());
    }
    dirs
}

/// What a look at a directory entry came to: its path, whether it is a regular file, and
/// when it was changed, in seconds since 1970, where that is known.
#[derive(Debug)]
pub struct DirItem {
    pub path: FilePath,
    pub is_file: bool,
    pub modified: Option<u64>,
}

/// The time of a change; one that is not known counts as the oldest.
pub open spec fn mtime_of(modified: Option<u64>) -> u64 {
    match modified {
        Some(time) => time,
        None => 0,
    }
}

/// The regular files among directory entries.
pub open spec fn files_among(items: Seq<DirItem>) -> Seq<DatedPath>
    decreases items.len(),
{
    if items.len() == 0 {
        Seq::empty()
    } else {
        let before = files_among(items.drop_last());
        if items.last().is_file {
            before.push(
                DatedPath { path: items.last().path@, mtime: mtime_of(items.last().modified) },
            )
        } else {
            before
        }
    }
}

/// The regular files among directory entries.
pub fn walk_dir(items: Vec<DirItem>) -> (r: Vec<Recent>)
    ensures
        views(r@) == files_among(items@),
{
    let ghost source = items@;
    let mut out: Vec<Recent> = Vec::new();
    assert(source.take(0) =~= Seq::empty());
    assert(views(out@) =~= Seq::empty());
    for item in iter: items
        invariant
            source == iter.seq(),
            views(out@) == files_among(source.take(iter.index() as int)),
    {
        let ghost i = iter.index() as int;
        assert(source.take(i + 1).drop_last() =~= source.take(i));
        if item.is_file {
            let ghost before = views(out@);
            let mtime: u64 = match item.modified {
                Some(time) => time,
                None => 0,
            };
            let file = Recent { path: item.path, mtime };
            out.push(file);
            assert(views(out@) =~= before.push(file@));
        }
    }
    assert(source.take(source.len() as int) =~= source);
    out
}

// ---------------------------------------------------------------------------
// The list of recent files
// ---------------------------------------------------------------------------

/// A path and a time, as a key: in path order, and the newest first for one path.
pub struct PathKey {
    pub parts: Vec<Vec<u8>>,
    pub mtime: u64,
}

impl View for PathKey {
    type V = (Seq<Seq<u8>>, int);

    open spec fn view(&self) -> (Seq<Seq<u8>>, int) {
        (byte_views(self.parts@), self.mtime as int)
    }
}

impl Rank for PathKey {
    open spec fn lt(a: (Seq<Seq<u8>>, int), b: (Seq<Seq<u8>>, int)) -> bool {
        components_lt(a.0, b.0) || (!components_lt(b.0, a.0) && a.1 > b.1)
    }

    proof fn order_laws(
        a: (Seq<Seq<u8>>, int),
        b: (Seq<Seq<u8>>, int),
        c: (Seq<Seq<u8>>, int),
    ) {
        lemma_components_laws(a.0, b.0, c.0);
        lemma_components_laws(b.0, a.0, c.0);
        lemma_components_laws(a.0, c.0, b.0);
        lemma_components_laws(b.0, c.0, a.0);
        lemma_components_laws(c.0, a.0, b.0);
        lemma_components_laws(c.0, b.0, a.0);
    }

    fn before(&self, other: &Self) -> (r: bool) {
        components_before(&self.parts, &other.parts) || (!components_before(
            &other.parts,
            &self.parts,
        ) && self.mtime > other.mtime)
    }
}

/// A time, as a key: the newest first.
pub struct NewestKey {
    pub mtime: u64,
}

impl View for NewestKey {
    type V = int;

    open spec fn view(&self) -> int {
        self.mtime as int
    }
}

impl Rank for NewestKey {
    open spec fn lt(a: int, b: int) -> bool {
        a > b
    }

    proof fn order_laws(a: int, b: int, c: int) {
    }

    fn before(&self, other: &Self) -> (r: bool) {
        self.mtime > other.mtime
    }
}

pub open spec fn path_keys(files: Seq<DatedPath>) -> Seq<(Seq<Seq<u8>>, int)> {
    Seq::new(files.len(), |i: int| (components(files[i].path), files[i].mtime as int))
}

pub open spec fn mtimes(files: Seq<DatedPath>) -> Seq<int> {
    Seq::new(files.len(), |i: int| files[i].mtime as int)
}

/// The files in path order, and the newest first for one path.
pub open spec fn by_path(files: Seq<DatedPath>) -> Seq<DatedPath> {
    arranged(files, ranking::<PathKey>(path_keys(files)))
}

/// The files in order of their times, the newest first.
pub open spec fn newest_first(files: Seq<DatedPath>) -> Seq<DatedPath> {
    arranged(files, ranking::<NewestKey>(mtimes(files)))
}

/// The first of each run of files with one path.
pub open spec fn run_heads(files: Seq<DatedPath>) -> Seq<DatedPath>
    decreases files.len(),
{
    if files.len() == 0 {
        Seq::empty()
    } else {
        let before = run_heads(files.drop_last());
        if before.len() > 0 && same_path(before.last().path, files.last().path) {
            before
        } else {
            before.push(files.last())
        }
    }
}

/// At most `limit` elements from the front.
pub open spec fn at_most<T>(s: Seq<T>, limit: int) -> Seq<T> {
    if s.len() <= limit {
        s
    } else {
        s.take(limit)
    }
}

/// The newest `limit` of the files, each path once.
pub open spec fn collected(files: Seq<DatedPath>, limit: int) -> Seq<DatedPath> {
    at_most(newest_first(run_heads(by_path(files))), limit)
}

proof fn lemma_arranged_views(items: Seq<Recent>, order: Seq<usize>)
    requires
        forall|i: int| 0 <= i < order.len() ==> #[trigger] order[i] < items.len(),
    ensures
        views(arranged(items, order)) == arranged(views(items), order),
{
    assert(views(arranged(items, order)) =~= arranged(views(items), order));
}

/// The files in order of their times, the newest first; files with one time stay in order.
pub fn sort_newest_first(files: Vec<Recent>) -> (r: Vec<Recent>)
    ensures
        views(r@) == newest_first(views(files@)),
{
    let mut keys: Vec<NewestKey> = Vec::new();
    let mut i: usize = 0;
    while i < files.len()
        invariant
            i <= files@.len(),
            keys@.len() == i,
            forall|k: int| 0 <= k < i ==> #[trigger] keys@[k]@ == files@[k].mtime as int,
        decreases files.len() - i,
    {
        keys.push(NewestKey { mtime: files[i].mtime });
        i += 1;
    }
    let order = rank(&keys);
    assert(key_views(keys@) =~= mtimes(views(files@)));
    proof {
        lemma_arranged_views(files@, order@);
    }
    arrange(files, &order)
}

fn sort_by_path(files: Vec<Recent>) -> (r: Vec<Recent>)
    ensures
        views(r@) == by_path(views(files@)),
{
    let mut keys: Vec<PathKey> = Vec::new();
    let mut i: usize = 0;
    while i < files.len()
        invariant
            i <= files@.len(),
            keys@.len() == i,
            forall|k: int|
                0 <= k < i ==> #[trigger] keys@[k]@ == (
                    components(files@[k].path@),
                    files@[k].mtime as int,
                ),
        decreases files.len() - i,
    {
        keys.push(
            PathKey {
                parts: split_components(files[i].path.bytes.as_slice()),
                mtime: files[i].mtime,
            },
        );
        i += 1;
    }
    let order = rank(&keys);
    assert(key_views(keys@) =~= path_keys(views(files@)));
    proof {
        lemma_arranged_views(files@, order@);
    }
    arrange(files, &order)
}

fn keep_run_heads(files: Vec<Recent>) -> (r: Vec<Recent>)
    ensures
        views(r@) == run_heads(views(files@)),
{
    let ghost source = views(files@);
    let mut out: Vec<Recent> = Vec::new();
    assert(source.take(0) =~= Seq::empty());
    assert(views(out@) =~= Seq::empty());
    for file in iter: files
        invariant
            source == views(iter.seq()),
            views(out@) == run_heads(source.take(iter.index() as int)),
    {
        let ghost i = iter.index() as int;
        assert(source.take(i + 1).drop_last() =~= source.take(i));
        assert(source.take(i + 1).last() == file@);
        let ghost before = views(out@);
        assert(before.len() == out@.len());
        let n: usize = out.len();
        if n > 0 {
            assert(before.last() == out@[n - 1]@);
        }
        if !(n > 0 && out[n - 1].path.same(&file.path)) {
            out.push(file);
            assert(views(out@) =~= before.push(file@));
        }
    }
    assert(source.take(source.len() as int) =~= source);
    out
}

/// A bookmark, and whether its file exists.
#[derive(Debug)]
pub struct Bookmark {
    pub recent: Recent,
    pub exists: bool,
}

/// The bookmarked files that exist.
pub open spec fn existing(bookmarks: Seq<Bookmark>) -> Seq<DatedPath>
    decreases bookmarks.len(),
{
    if bookmarks.len() == 0 {
        Seq::empty()
    } else {
        let before = existing(bookmarks.drop_last());
        if bookmarks.last().exists {
            before.push(bookmarks.last().recent@)
        } else {
            before
        }
    }
}

/// The newest `limit` of the bookmarked files that exist and the files found in folders,
/// each path once, with its latest time.
pub fn collect(limit: usize, bookmarks: Vec<Bookmark>, walked: Vec<Recent>) -> (r: Vec<Recent>)
    ensures
        views(r@) == collected(existing(bookmarks@) + views(walked@), limit as int),
{
    let ghost source = bookmarks@;
    let mut all: Vec<Recent> = Vec::new();
    assert(source.take(0) =~= Seq::empty());
    assert(views(all@) =~= Seq::empty());
    for bookmark in iter: bookmarks
        invariant
            source == iter.seq(),
            views(all@) == existing(source.take(iter.index() as int)),
    {
        let ghost i = iter.index() as int;
        assert(source.take(i + 1).drop_last() =~= source.take(i));
        if bookmark.exists {
            let ghost before = views(all@);
            all.push(bookmark.recent);
            assert(views(all@) =~= before.push(bookmark.recent@));
        }
    }
    assert(source.take(source.len() as int) =~= source);
    let mut walked = walked;
    let ghost before = views(all@);
    let ghost more = views(walked@);
    all.append(&mut walked);
    assert(views(all@) =~= before + more);
    let mut out = sort_newest_first(keep_run_heads(sort_by_path(all)));
    let ghost whole = views(out@);
    assert(whole.len() == out@.len());
    out.truncate(limit);
    assert(views(out@) =~= at_most(whole, limit as int));
    out
}

/// Whether the files are in path order, and the newest first for one path.
spec fn is_by_path(files: Seq<DatedPath>) -> bool {
    forall|i: int, j: int|
        0 <= i < j < files.len() ==> !PathKey::lt(
            #[trigger] path_keys(files)[j],
            #[trigger] path_keys(files)[i],
        )
}

/// Whether a list holds the path of `file` with a time that is no earlier.
pub open spec fn has_latest(files: Seq<DatedPath>, file: DatedPath) -> bool {
    exists|i: int|
        0 <= i < files.len() && same_path((#[trigger] files[i]).path, file.path)
            && files[i].mtime >= file.mtime
}

/// Whether no two files of a list have one path.
pub open spec fn paths_differ(files: Seq<DatedPath>) -> bool {
    forall|i: int, j: int|
        0 <= i < j < files.len() ==> !same_path((#[trigger] files[i]).path, (#[trigger] files[j]).path)
}

proof fn lemma_by_path(files: Seq<DatedPath>)
    requires
        files.len() <= usize::MAX,
    ensures
        is_by_path(by_path(files)),
        by_path(files).len() == files.len(),
        forall|i: int| 0 <= i < files.len() ==> files.contains(#[trigger] by_path(files)[i]),
        forall|i: int| 0 <= i < files.len() ==> by_path(files).contains(#[trigger] files[i]),
{
    let keys = path_keys(files);
    let order = ranking::<PathKey>(keys);
    let sorted = by_path(files);
    lemma_ranking_exists::<PathKey>(keys);
    lemma_ranking_covers::<PathKey>(keys, order);
    assert forall|i: int, j: int| 0 <= i < j < sorted.len() implies !PathKey::lt(
        #[trigger] path_keys(sorted)[j],
        #[trigger] path_keys(sorted)[i],
    ) by {
        assert(path_keys(sorted)[i] == keys[order[i] as int]);
        assert(path_keys(sorted)[j] == keys[order[j] as int]);
        assert(precedes::<PathKey>(keys, order[i] as int, order[j] as int));
        PathKey::order_laws(path_keys(sorted)[i], path_keys(sorted)[j], path_keys(sorted)[i]);
    }
    assert forall|i: int| 0 <= i < files.len() implies files.contains(#[trigger] sorted[i]) by {
        assert(sorted[i] == files[order[i] as int]);
    }
    assert forall|i: int| 0 <= i < files.len() implies sorted.contains(#[trigger] files[i]) by {
        assert(order.contains(i as usize));
        let a = choose|a: int| 0 <= a < order.len() && order[a] == i;
        assert(sorted[a] == files[i]);
    }
}

proof fn lemma_run_heads(files: Seq<DatedPath>)
    requires
        is_by_path(files),
    ensures
        run_heads(files).len() <= files.len(),
        files.len() > 0 ==> run_heads(files).len() > 0,
        files.len() > 0 ==> same_path(run_heads(files).last().path, files.last().path),
        files.len() > 0 ==> run_heads(files).last().mtime >= files.last().mtime,
        forall|i: int|
            0 <= i < run_heads(files).len() ==> files.contains(#[trigger] run_heads(files)[i]),
        paths_differ(run_heads(files)),
        forall|p: int|
            0 <= p < files.len() ==> has_latest(run_heads(files), #[trigger] files[p]),
    decreases files.len(),
{
    if files.len() > 0 {
        let init = files.drop_last();
        let last = files.last();
        let before = run_heads(init);
        let heads = run_heads(files);
        assert forall|i: int, j: int| 0 <= i < j < init.len() implies !PathKey::lt(
            #[trigger] path_keys(init)[j],
            #[trigger] path_keys(init)[i],
        ) by {
            assert(path_keys(init)[i] == path_keys(files)[i]);
            assert(path_keys(init)[j] == path_keys(files)[j]);
        }
        lemma_run_heads(init);
        assert forall|i: int| 0 <= i < before.len() implies files.contains(
            #[trigger] before[i],
        ) by {
            let p = choose|p: int| 0 <= p < init.len() && init[p] == before[i];
            assert(files[p] == before[i]);
        }
        if before.len() > 0 && same_path(before.last().path, last.path) {
            let p = choose|p: int| 0 <= p < init.len() && init[p] == before.last();
            assert(before.contains(before.last()));
            assert(init.contains(before[before.len() - 1]));
            assert(path_keys(files)[p] == (
                components(before.last().path),
                before.last().mtime as int,
            ));
            assert(!PathKey::lt(path_keys(files)[files.len() - 1], path_keys(files)[p]));
            lemma_components_laws(
                components(last.path),
                components(last.path),
                components(last.path),
            );
            assert(before.last().mtime >= last.mtime);
        } else {
            assert(heads == before.push(last));
            assert forall|i: int, j: int| 0 <= i < j < heads.len() implies !same_path(
                (#[trigger] heads[i]).path,
                (#[trigger] heads[j]).path,
            ) by {
                if j == before.len() && same_path(heads[i].path, last.path) {
                    let p = choose|p: int| 0 <= p < init.len() && init[p] == before[i];
                    assert(init.contains(before[i]));
                    let q = init.len() - 1;
                    let kp = path_keys(files)[p];
                    let kq = path_keys(files)[q];
                    let kl = path_keys(files)[files.len() - 1];
                    assert(kp.0 == components(last.path));
                    assert(kq.0 == components(init.last().path));
                    assert(kl.0 == components(last.path));
                    assert(!PathKey::lt(kl, kq));
                    assert(p < q ==> !PathKey::lt(kq, kp));
                    lemma_components_laws(kp.0, kq.0, kp.0);
                    assert(false);
                }
            }
        }
        assert forall|p: int| 0 <= p < files.len() implies has_latest(
            heads,
            #[trigger] files[p],
        ) by {
            if p < init.len() {
                assert(has_latest(before, init[p]));
                let i = choose|i: int|
                    0 <= i < before.len() && same_path((#[trigger] before[i]).path, init[p].path)
                        && before[i].mtime >= init[p].mtime;
                assert(heads[i] == before[i]);
            } else {
                assert(same_path(heads[heads.len() - 1].path, last.path));
            }
        }
        assert forall|i: int| 0 <= i < heads.len() implies files.contains(#[trigger] heads[i]) by {
            if i < before.len() {
                assert(heads[i] == before[i]);
            } else {
                assert(heads[i] == files[files.len() - 1]);
            }
        }
    }
}

proof fn lemma_newest_first(files: Seq<DatedPath>)
    requires
        files.len() <= usize::MAX,
        paths_differ(files),
    ensures
        newest_first(files).len() == files.len(),
        paths_differ(newest_first(files)),
        forall|i: int, j: int|
            0 <= i < j < files.len() ==> (#[trigger] newest_first(files)[i]).mtime >= (
            #[trigger] newest_first(files)[j]).mtime,
        forall|i: int|
            0 <= i < files.len() ==> files.contains(#[trigger] newest_first(files)[i]),
        forall|i: int|
            0 <= i < files.len() ==> newest_first(files).contains(#[trigger] files[i]),
{
    let keys = mtimes(files);
    let order = ranking::<NewestKey>(keys);
    let sorted = newest_first(files);
    lemma_ranking_exists::<NewestKey>(keys);
    lemma_ranking_covers::<NewestKey>(keys, order);
    assert forall|i: int, j: int| 0 <= i < j < files.len() implies (#[trigger] sorted[i]).mtime >= (
    #[trigger] sorted[j]).mtime && !same_path(sorted[i].path, sorted[j].path) by {
        assert(precedes::<NewestKey>(keys, order[i] as int, order[j] as int));
        let a = order[i] as int;
        let b = order[j] as int;
        assert(a != b);
        assert(sorted[i] == files[a] && sorted[j] == files[b]);
        assert(!same_path(files[a].path, files[b].path) && !same_path(files[b].path, files[a].path));
    }
    assert forall|i: int| 0 <= i < files.len() implies sorted.contains(#[trigger] files[i]) by {
        assert(order.contains(i as usize));
        let a = choose|a: int| 0 <= a < order.len() && order[a] == i;
        assert(sorted[a] == files[i]);
    }
    assert forall|i: int| 0 <= i < files.len() implies files.contains(#[trigger] sorted[i]) by {
        assert(sorted[i] == files[order[i] as int]);
    }
}

proof fn lemma_collected(files: Seq<DatedPath>)
    requires
        files.len() <= usize::MAX,
    ensures
        ({
            let whole = newest_first(run_heads(by_path(files)));
            &&& paths_differ(whole)
            &&& forall|i: int, j: int|
                0 <= i < j < whole.len() ==> (#[trigger] whole[i]).mtime >= (
                #[trigger] whole[j]).mtime
            &&& forall|i: int| 0 <= i < whole.len() ==> files.contains(#[trigger] whole[i])
            &&& forall|p: int| 0 <= p < files.len() ==> has_latest(whole, #[trigger] files[p])
        }),
{
    let sorted = by_path(files);
    let heads = run_heads(sorted);
    let whole = newest_first(heads);
    lemma_by_path(files);
    lemma_run_heads(sorted);
    lemma_newest_first(heads);
    assert forall|i: int| 0 <= i < whole.len() implies files.contains(#[trigger] whole[i]) by {
        assert(heads.contains(whole[i]));
        let h = choose|h: int| 0 <= h < heads.len() && heads[h] == whole[i];
        assert(sorted.contains(heads[h]));
        let q = choose|q: int| 0 <= q < sorted.len() && sorted[q] == heads[h];
        assert(files.contains(sorted[q]));
    }
    assert forall|p: int| 0 <= p < files.len() implies has_latest(whole, #[trigger] files[p]) by {
        assert(sorted.contains(files[p]));
        let q = choose|q: int| 0 <= q < sorted.len() && sorted[q] == files[p];
        assert(has_latest(heads, sorted[q]));
        let h = choose|h: int|
            0 <= h < heads.len() && same_path((#[trigger] heads[h]).path, sorted[q].path)
                && heads[h].mtime >= sorted[q].mtime;
        assert(whole.contains(heads[h]));
        let i = choose|i: int| 0 <= i < whole.len() && whole[i] == heads[h];
        assert(same_path(whole[i].path, files[p].path));
    }
}

/// The recent files hold each path at most once, the newest first, and no more than asked
/// for; each is one of the files that were found, with the latest time found for its path.
pub proof fn law_collected(files: Seq<DatedPath>, limit: nat)
    requires
        files.len() <= usize::MAX,
    ensures
        collected(files, limit as int).len() <= limit,
        paths_differ(collected(files, limit as int)),
        forall|i: int, j: int|
            0 <= i < j < collected(files, limit as int).len() ==> (#[trigger] collected(
                files,
                limit as int,
            )[i]).mtime >= (#[trigger] collected(files, limit as int)[j]).mtime,
        forall|i: int|
            0 <= i < collected(files, limit as int).len() ==> files.contains(
                #[trigger] collected(files, limit as int)[i],
            ),
        forall|i: int, p: int|
            0 <= i < collected(files, limit as int).len() && 0 <= p < files.len() && same_path(
                (#[trigger] collected(files, limit as int)[i]).path,
                (#[trigger] files[p]).path,
            ) ==> collected(files, limit as int)[i].mtime >= files[p].mtime,
{
    let whole = newest_first(run_heads(by_path(files)));
    let r = collected(files, limit as int);
    lemma_collected(files);
    assert forall|i: int, p: int| 0 <= i < r.len() && 0 <= p < files.len() && same_path(
        (#[trigger] r[i]).path,
        (#[trigger] files[p]).path,
    ) implies r[i].mtime >= files[p].mtime by {
        assert(has_latest(whole, files[p]));
        let k = choose|k: int|
            0 <= k < whole.len() && same_path((#[trigger] whole[k]).path, files[p].path)
                && whole[k].mtime >= files[p].mtime;
        assert(whole[i] == r[i]);
        if k < i {
            assert(!same_path(whole[k].path, whole[i].path));
        } else if i < k {
            assert(!same_path(whole[i].path, whole[k].path));
        }
    }
}

/// A file is missing from the recent files only where there are as many as asked for, none
/// of them older than it.
pub proof fn law_collected_misses_no_newer(files: Seq<DatedPath>, limit: nat, p: int)
    requires
        files.len() <= usize::MAX,
        0 <= p < files.len(),
    ensures
        has_latest(collected(files, limit as int), files[p]) || (collected(
            files,
            limit as int,
        ).len() == limit && forall|i: int|
            0 <= i < limit ==> (#[trigger] collected(files, limit as int)[i]).mtime
                >= files[p].mtime),
{
    let whole = newest_first(run_heads(by_path(files)));
    let r = collected(files, limit as int);
    lemma_collected(files);
    assert(has_latest(whole, files[p]));
    let k = choose|k: int|
        0 <= k < whole.len() && same_path((#[trigger] whole[k]).path, files[p].path)
            && whole[k].mtime >= files[p].mtime;
    if k < r.len() {
        assert(r[k] == whole[k]);
    } else {
        assert forall|i: int| 0 <= i < limit implies (#[trigger] r[i]).mtime >= files[p].mtime by {
            assert(r[i] == whole[i]);
            assert(whole[i].mtime >= whole[k].mtime);
        }
    }
}

/// Whether a pattern stands at a place in a text.
pub open spec fn stands_at(s: Seq<char>, pat: Seq<char>, i: int) -> bool {
    0 <= i && i + pat.len() <= s.len() && s.subrange(i, i + pat.len()) == pat
}

/// Whether a pattern stands at a place in a text and at none before it.
pub open spec fn stands_first_at(s: Seq<char>, pat: Seq<char>, i: int) -> bool {
    stands_at(s, pat, i) && forall|k: int| 0 <= k < i ==> !#[trigger] stands_at(s, pat, k)
}

/// Whether a value stands at a place in a text, up to the next quote.
pub open spec fn is_quoted_at(s: Seq<char>, k: int, value: Seq<char>) -> bool {
    stands_at(s, value.push('"'), k) && !value.contains('"')
}

/// The value of an attribute is what stands up to the next quote behind the first place where
/// its name, an equals sign and a quote stand.
pub proof fn law_attribute(tag: Seq<char>, name: Seq<char>, value: Seq<char>)
    ensures
        attribute(tag, name) == Some(value) <==> exists|i: int|
            #[trigger] stands_first_at(tag, name.push('=').push('"'), i) && is_quoted_at(
                tag,
                i + name.len() + 2,
                value,
            ),
{
    let needle = name.push('=').push('"');
    reveal_strlit("=\"");
    assert(name + "=\""@ =~= needle);
    law_find_from(tag, needle, 0);
    if let Some(i) = find_from(tag, needle, 0) {
        assert(stands_at(tag, needle, i));
        assert forall|k: int| 0 <= k < i implies !#[trigger] stands_at(tag, needle, k) by {
            if stands_at(tag, needle, k) {
                assert(tag.subrange(k, k + needle.len()) == needle);
            }
        }
        let rest = tag.skip(i + needle.len());
        law_split_once(rest, '"');
        if let Some((v, after)) = split_once(rest, '"') {
            let k = i + name.len() + 2;
            assert(tag.subrange(k, k + v.push('"').len()) =~= v.push('"'));
            assert(is_quoted_at(tag, k, v));
            assert(stands_first_at(tag, needle, i));
        }
    }
    if exists|i: int|
        #[trigger] stands_first_at(tag, needle, i) && is_quoted_at(
            tag,
            i + name.len() + 2,
            value,
        ) {
        let i = choose|i: int|
            #[trigger] stands_first_at(tag, needle, i) && is_quoted_at(
                tag,
                i + name.len() + 2,
                value,
            );
        assert(tag.subrange(i, i + needle.len()) == needle);
        let f = find_from(tag, needle, 0)->0;
        assert(stands_at(tag, needle, f));
        assert(f == i);
        let rest = tag.skip(i + needle.len());
        let k = i + name.len() + 2;
        let whole = value.push('"');
        assert(tag.subrange(k, k + whole.len()) == whole);
        assert forall|n: int| 0 <= n < whole.len() implies rest[n] == whole[n] by {
            assert(tag.subrange(k, k + whole.len())[n] == tag[k + n]);
        }
        assert(rest[value.len() as int] == whole[value.len() as int]);
        assert(rest.contains('"'));
        law_split_once(rest, '"');
        let (v, after) = split_once(rest, '"')->0;
        assert(rest == v.push('"') + after);
        assert forall|n: int| 0 <= n < value.len() implies rest[n] == value[n] by {
            assert(whole[n] == value[n]);
        }
        if v.len() < value.len() {
            assert(rest[v.len() as int] == '"');
            assert(value[v.len() as int] == '"');
            assert(value.contains('"'));
        } else if v.len() > value.len() {
            assert(v[value.len() as int] == '"');
            assert(v.contains('"'));
        }
        assert(v =~= value) by {
            assert forall|n: int| 0 <= n < v.len() implies v[n] == value[n] by {
                assert(rest[n] == v[n]);
            }
        }
    }
}

/// A tag with an address and a time of change is a bookmark from that time, whatever time of
/// adding it has; the time of adding decides only where there is none of change. A time that
/// cannot be read is 0. A tag without an address of a file, or without any time, is none.
pub proof fn law_bookmark(tag: Seq<char>)
    ensures
        attribute(tag, "href"@) is None ==> bookmark(tag) is None,
        attribute(tag, "modified"@) is None && attribute(tag, "added"@) is None ==> bookmark(
            tag,
        ) is None,
        attribute(tag, "href"@) matches Some(href) ==> {
            &&& url_path(href) is None ==> bookmark(tag) is None
            &&& url_path(href) matches Some(path) ==> {
                &&& attribute(tag, "modified"@) matches Some(time) ==> bookmark(tag) is Some
                    && bookmark(tag)->0.path == path && is_time(time, bookmark(tag)->0.mtime)
                &&& attribute(tag, "modified"@) is None ==> (attribute(tag, "added"@) matches Some(
                    time,
                ) ==> bookmark(tag) is Some && bookmark(tag)->0.path == path && is_time(
                    time,
                    bookmark(tag)->0.mtime,
                ))
            }
        },
{
}

/// Whether a text is read as a time, or cannot be read and the time is 0.
pub open spec fn is_time(text: Seq<char>, time: u64) -> bool {
    iso8601(text) == Some(time) || (iso8601(text) is None && time == 0)
}

/// Looking from a place on is looking in what is behind it.
proof fn lemma_find_shift(s: Seq<char>, pat: Seq<char>, from: int, by: int)
    requires
        0 <= by <= from,
        by <= s.len(),
    ensures
        find_from(s, pat, from) == (match find_from(s.skip(by), pat, from - by) {
            Some(i) => Some(i + by),
            None => None,
        }),
    decreases s.len() + 1 - from,
{
    if from + pat.len() <= s.len() {
        assert(s.skip(by).subrange(from - by, from - by + pat.len()) =~= s.subrange(
            from,
            from + pat.len(),
        ));
        if s.subrange(from, from + pat.len()) != pat {
            lemma_find_shift(s, pat, from + 1, by);
        }
    }
}

proof fn lemma_bookmarks_shift(text: Seq<char>, from: int, by: int)
    requires
        0 <= by <= from <= text.len(),
    ensures
        bookmarks(text, from) == bookmarks(text.skip(by), from - by),
    decreases text.len() - from,
{
    let rest = text.skip(by);
    lemma_find_shift(text, "<bookmark"@, from, by);
    law_find_from(text, "<bookmark"@, from);
    if let Some(start) = find_from(text, "<bookmark"@, from) {
        lemma_find_shift(text, ">"@, start, by);
        law_find_from(text, ">"@, start);
        if let Some(end) = find_from(text, ">"@, start) {
            if from <= end < text.len() {
                assert(text.subrange(start, end) =~= rest.subrange(start - by, end - by));
                lemma_bookmarks_shift(text, end + 1, by);
            }
        }
    }
}

/// The bookmarks of a text are read tag by tag: what is in front of a tag says nothing, and
/// behind the end of the tag the reading begins anew. `before` holds no beginning of a tag,
/// not even together with the one that follows, and `tag` no end.
pub proof fn law_bookmarks(before: Seq<char>, tag: Seq<char>, rest: Seq<char>)
    requires
        stands_first_at(before + ("<bookmark"@ + tag + ">"@ + rest), "<bookmark"@, before.len() as int),
        !tag.contains('>'),
    ensures
        bookmarks(before + ("<bookmark"@ + tag + ">"@ + rest), 0) == (match bookmark(
            "<bookmark"@ + tag,
        ) {
            Some(b) => seq![b],
            None => Seq::empty(),
        }) + bookmarks(rest, 0),
{
    let open = "<bookmark"@;
    let close = ">"@;
    reveal_strlit("<bookmark");
    reveal_strlit(">");
    let text = before + (open + tag + close + rest);
    let start = before.len() as int;
    let end = start + open.len() + tag.len();
    law_find_from(text, open, 0);
    assert(text.subrange(start, start + open.len()) == open);
    let f = find_from(text, open, 0)->0;
    assert(stands_at(text, open, f));
    assert(f == start);
    law_find_from(text, close, start);
    assert(text.subrange(end, end + 1) =~= close);
    let g = find_from(text, close, start)->0;
    assert(text.subrange(g, g + close.len()) == close);
    assert(text[g] == '>') by {
        assert(text.subrange(g, g + 1)[0] == text[g]);
    }
    if g < end {
        if g < start + open.len() {
            assert(text[g] == open[g - start]);
        } else {
            assert(text[g] == tag[g - start - open.len()]);
        }
    }
    assert(g == end);
    assert(text.subrange(start, end) =~= open + tag);
    lemma_bookmarks_shift(text, end + 1, end + 1);
    assert(text.skip(end + 1) =~= rest);
    assert(Seq::<DatedPath>::empty() + bookmarks(rest, 0) =~= bookmarks(rest, 0));
}

/// A text without the beginning of a tag, or without an end of one behind it, has no
/// bookmarks.
pub proof fn law_no_bookmarks(text: Seq<char>)
    requires
        forall|i: int|
            #[trigger] stands_at(text, "<bookmark"@, i) ==> !text.skip(i).contains('>'),
    ensures
        bookmarks(text, 0) == Seq::<DatedPath>::empty(),
{
    law_find_from(text, "<bookmark"@, 0);
    if let Some(start) = find_from(text, "<bookmark"@, 0) {
        assert(stands_at(text, "<bookmark"@, start));
        law_find_from(text, ">"@, start);
        reveal_strlit(">");
        if let Some(end) = find_from(text, ">"@, start) {
            assert(text.subrange(end, end + ">"@.len())[0] == '>');
            assert(text.skip(start)[end - start] == '>');
            assert(text.skip(start).contains('>'));
        }
    }
}

/// The hexadecimal digits and their values.
pub proof fn law_hex_digits(b: u8, v: int)
    requires
        0 <= v < 16,
    ensures
        hex_digit(b) == Some(v) <==> b as char == "0123456789abcdef"@[v] || b as char
            == "0123456789ABCDEF"@[v],
        hex_digit(b) matches Some(x) ==> 0 <= x < 16,
{
    reveal_strlit("0123456789abcdef");
    reveal_strlit("0123456789ABCDEF");
}

/// Two hexadecimal digits make a number, the first one counting sixteen times; a plus sign
/// makes none larger.
pub proof fn law_hex_pair(a: u8, b: u8, x: int, y: int)
    ensures
        hex_digit(a) == Some(x) && hex_digit(b) == Some(y) ==> hex_pair(a, b) == Some(16 * x + y),
        a as char == '+' ==> hex_pair(a, b) == hex_digit(b),
        a as char != '+' && (hex_digit(a) is None || hex_digit(b) is None) ==> hex_pair(a, b) is None,
{
}

/// In an address, bytes other than `%` stand for themselves, and `%` with two hexadecimal
/// digits for the byte with that number; one without is an error, but for a `%` among the last
/// two bytes, which stands for itself.
pub proof fn law_unescaped(a: u8, b: u8, c: u8, rest: Seq<u8>)
    ensures
        unescaped(Seq::empty()) == Some(Seq::<char>::empty()),
        a as char != '%' ==> unescaped(seq![a] + rest) == (match unescaped(rest) {
            Some(p) => Some(seq![a as char] + p),
            None => None,
        }),
        a as char == '%' && hex_pair(b, c) is Some ==> unescaped(seq![a, b, c] + rest) == (
        match unescaped(rest) {
            Some(p) => Some(seq![hex_pair(b, c)->0 as u8 as char] + p),
            None => None,
        }),
        a as char == '%' && hex_pair(b, c) is None ==> unescaped(seq![a, b, c] + rest) is None,
        a as char == '%' ==> unescaped(seq![a]) == Some(seq!['%']),
        a as char == '%' && b as char != '%' ==> unescaped(seq![a, b]) == Some(
            seq!['%', b as char],
        ),
{
    assert((seq![a] + rest).skip(1) =~= rest);
    assert((seq![a, b, c] + rest).skip(3) =~= rest);
    let none = Seq::<u8>::empty();
    assert(unescaped(none) == Some(Seq::<char>::empty()));
    assert(seq![a].skip(1) =~= none);
    assert(seq![b].skip(1) =~= none);
    assert(seq![a, b].skip(1) =~= seq![b]);
    assert(unescaped(seq![b]) == Some(seq![b as char] + Seq::<char>::empty()) || b as char == '%');
    assert(seq![b as char] + Seq::<char>::empty() =~= seq![b as char]);
    assert(seq!['%'] + Seq::<char>::empty() =~= seq!['%']);
    assert(seq!['%'] + seq![b as char] =~= seq!['%', b as char]);
}

/// Only addresses that begin with `file://` have a path: what stands behind, unescaped.
pub proof fn law_file_address(rest: Seq<char>, other: Seq<char>)
    ensures
        url_path("file://"@ + rest) is Some <==> unescaped(bytes_of(rest)) is Some,
        unescaped(bytes_of(rest)) matches Some(p) ==> url_path("file://"@ + rest) == Some(bytes_of(p)),
        !"file://"@.is_prefix_of(other) ==> url_path(other) is None,
{
    let url = "file://"@ + rest;
    let n = "file://"@.len() as int;
    assert("file://"@ =~= url.subrange(0, n));
    assert(url.skip(n) =~= rest);
}

/// Of the entries of a directory the regular files are listed, in their order, each with the
/// time of its change, or 0 where that is not known. `at` tells which entry each is.
pub proof fn law_files_among(items: Seq<DirItem>) -> (at: Seq<int>)
    ensures
        at.len() == files_among(items).len(),
        forall|i: int|
            0 <= i < at.len() ==> 0 <= #[trigger] at[i] < items.len() && items[at[i]].is_file
                && files_among(items)[i].path == items[at[i]].path@ && (match items[at[i]].modified {
                Some(time) => files_among(items)[i].mtime == time,
                None => files_among(items)[i].mtime == 0,
            }),
        forall|i: int, j: int| 0 <= i < j < at.len() ==> #[trigger] at[i] < #[trigger] at[j],
        forall|k: int| 0 <= k < items.len() && (#[trigger] items[k]).is_file ==> at.contains(k),
    decreases items.len(),
{
    if items.len() == 0 {
        Seq::empty()
    } else {
        let init = items.drop_last();
        let before = law_files_among(init);
        let last = items.len() - 1;
        assert(forall|k: int| 0 <= k < init.len() ==> init[k] == items[k]);
        let at = if items.last().is_file {
            before.push(last)
        } else {
            before
        };
        assert forall|k: int| 0 <= k < items.len() && (#[trigger] items[k]).is_file implies at.contains(
        k) by {
            if k < last {
                assert(init[k] == items[k]);
                assert(before.contains(k));
                let i = choose|i: int| 0 <= i < before.len() && before[i] == k;
                assert(at[i] == k);
            } else {
                assert(at[before.len() as int] == k);
            }
        }
        at
    }
}

/// Sorting puts the newest file first, keeps files with one time in their order, and loses
/// and adds none. `at` tells which of the files each is.
pub proof fn law_newest_first(files: Seq<DatedPath>) -> (at: Seq<int>)
    requires
        files.len() <= usize::MAX,
    ensures
        at.len() == files.len(),
        newest_first(files).len() == files.len(),
        forall|i: int|
            0 <= i < at.len() ==> 0 <= #[trigger] at[i] < files.len() && newest_first(files)[i]
                == files[at[i]],
        forall|i: int, j: int|
            0 <= i < j < at.len() ==> files[#[trigger] at[i]].mtime > files[#[trigger] at[j]].mtime
                || (files[at[i]].mtime == files[at[j]].mtime && at[i] < at[j]),
        forall|k: int| 0 <= k < files.len() ==> #[trigger] at.contains(k),
{
    let keys = mtimes(files);
    let order = ranking::<NewestKey>(keys);
    lemma_ranking_exists::<NewestKey>(keys);
    lemma_ranking_covers::<NewestKey>(keys, order);
    let at = Seq::new(order.len(), |i: int| order[i] as int);
    assert forall|i: int, j: int| 0 <= i < j < at.len() implies files[#[trigger] at[i]].mtime
        > files[#[trigger] at[j]].mtime || (files[at[i]].mtime == files[at[j]].mtime && at[i]
        < at[j]) by {
        assert(precedes::<NewestKey>(keys, order[i] as int, order[j] as int));
    }
    assert forall|k: int| 0 <= k < files.len() implies #[trigger] at.contains(k) by {
        assert(order.contains(k as usize));
        let i = choose|i: int| 0 <= i < order.len() && order[i] == k as usize;
        assert(at[i] == k);
    }
    at
}

/// A time is read if and only if there are three whole numbers in its date and three in its time
/// of day, the last one up to a fraction or an offset. A text without a `T` is none.
pub proof fn law_readable_times(date: Seq<char>, time: Seq<char>, other: Seq<char>)
    requires
        !date.contains('T'),
        time.len() > 0 ==> time.last() != 'Z',
        !other.contains('T'),
    ensures
        iso8601(date.push('T') + time) is Some <==> are_three_numbers(split(date, '-'))
            && are_three_numbers(time_pieces(time)),
        iso8601(other) is None,
{
    let s = date.push('T') + time;
    assert(without_zone(s) == s);
    lemma_split_at(date, 'T', time);
    lemma_zone(other);
    law_split_once(without_zone(other), 'T');
}

/// Whether the first three pieces of a text are whole numbers.
pub open spec fn are_three_numbers(pieces: Seq<Seq<char>>) -> bool {
    pieces.len() >= 3 && forall|k: int| 0 <= k < 3 ==> i64_value(#[trigger] pieces[k]) is Some
}

proof fn lemma_zone(s: Seq<char>)
    requires
        !s.contains('T'),
    ensures
        !without_zone(s).contains('T'),
    decreases s.len(),
{
    if s.len() > 0 && s.last() == 'Z' {
        let init = s.drop_last();
        if init.contains('T') {
            let i = choose|i: int| 0 <= i < init.len() && init[i] == 'T';
            assert(s[i] == 'T');
        }
        lemma_zone(init);
    }
}

/// Of the bookmarked files those that exist are kept, in their order. `at` tells which they
/// are.
pub proof fn law_existing(bookmarks: Seq<Bookmark>) -> (at: Seq<int>)
    ensures
        at.len() == existing(bookmarks).len(),
        forall|i: int|
            0 <= i < at.len() ==> 0 <= #[trigger] at[i] < bookmarks.len() && bookmarks[at[i]].exists
                && existing(bookmarks)[i] == bookmarks[at[i]].recent@,
        forall|i: int, j: int| 0 <= i < j < at.len() ==> #[trigger] at[i] < #[trigger] at[j],
        forall|k: int|
            0 <= k < bookmarks.len() && (#[trigger] bookmarks[k]).exists ==> at.contains(k),
    decreases bookmarks.len(),
{
    if bookmarks.len() == 0 {
        Seq::empty()
    } else {
        let init = bookmarks.drop_last();
        let before = law_existing(init);
        let last = bookmarks.len() - 1;
        assert(forall|k: int| 0 <= k < init.len() ==> init[k] == bookmarks[k]);
        let at = if bookmarks.last().exists {
            before.push(last)
        } else {
            before
        };
        assert forall|k: int|
            0 <= k < bookmarks.len() && (#[trigger] bookmarks[k]).exists implies at.contains(k) by {
            if k < last {
                assert(init[k] == bookmarks[k]);
                assert(before.contains(k));
                let i = choose|i: int| 0 <= i < before.len() && before[i] == k;
                assert(at[i] == k);
            } else {
                assert(at[before.len() as int] == k);
            }
        }
        at
    }
}

/// Days count on past the end of a month, and back from its start.
#[verifier::spinoff_prover]
pub proof fn law_days_run_on(y: i64, m: i64, d: i64, k: i64)
    requires
        -1_000_000 <= y <= 1_000_000,
        -1_000_000 <= m <= 1_000_000,
        -1_000_000 <= d <= 1_000_000,
        -1_000_000 <= k <= 1_000_000,
    ensures
        civil_days(y, m, (d + k) as i64) == civil_days(y, m, d) + k,
{
    let year = march_year(y, m);
    let era = era_of(year);
    let yoe = year.wrapping_sub(era.wrapping_mul(400));
    lemma_era(year);
    lemma_march_days(m, d, k);
    lemma_day_sum(era, yoe, march_day(m, d));
    lemma_day_sum(era, yoe, march_day(m, (d + k) as i64));
}

#[verifier::spinoff_prover]
proof fn lemma_march_days(m: i64, d: i64, k: i64)
    requires
        -1_000_000 <= m <= 1_000_000,
        -1_000_000 <= d <= 1_000_000,
        -1_000_000 <= k <= 1_000_000,
    ensures
        -200_000_000 <= march_day(m, d) <= 200_000_000,
        march_day(m, (d + k) as i64) == march_day(m, d) + k,
{
}

/// Adding up the days of an era, a year in it and a day of that.
#[verifier::spinoff_prover]
proof fn lemma_day_sum(era: i64, yoe: i64, x: i64)
    requires
        -1_000_000 <= era <= 1_000_000,
        0 <= yoe < 400,
        -300_000_000 <= x <= 300_000_000,
    ensures
        era.wrapping_mul(146097).wrapping_add(
            yoe.wrapping_mul(365).wrapping_add(quotient(yoe as int, 4) as i64).wrapping_sub(
                quotient(yoe as int, 100) as i64,
            ).wrapping_add(x),
        ).wrapping_sub(719468) == era * 146097 + yoe * 365 + yoe as int / 4 - yoe as int / 100 + x
            - 719468,
{
    assert(era.wrapping_mul(146097) == era * 146097);
    assert(yoe.wrapping_mul(365) == yoe * 365);
}

/// A thirteenth month is the January of the next year, a fourteenth its February, and a month
/// before the first the December of the year before.
pub proof fn law_months_run_on(y: i64, d: i64)
    requires
        -1_000_000 <= y <= 1_000_000,
    ensures
        civil_days(y, 13, d) == civil_days((y + 1) as i64, 1, d),
        civil_days(y, 14, d) == civil_days((y + 1) as i64, 2, d),
        civil_days(y, 0, d) == civil_days((y - 1) as i64, 12, d),
{
}

/// Hours, minutes and seconds add up, also where they are more than there are in a day, an hour
/// or a minute; a time before 1970 comes to 0.
pub proof fn law_times_add_up(days: i64, time: (i64, i64, i64))
    requires
        -1_000_000_000 <= days <= 1_000_000_000,
        -1_000_000_000 <= time.0 <= 1_000_000_000,
        -1_000_000_000 <= time.1 <= 1_000_000_000,
        -1_000_000_000 <= time.2 <= 1_000_000_000,
    ensures
        ({
            let seconds = 86400 * days + 3600 * time.0 + 60 * time.1 + time.2;
            &&& seconds >= 0 ==> day_time(days, time) == seconds
            &&& seconds < 0 ==> day_time(days, time) == 0
        }),
{
    assert(days.wrapping_mul(86400) == 86400 * days);
    assert(time.0.wrapping_mul(3600) == 3600 * time.0);
    assert(time.1.wrapping_mul(60) == 60 * time.1);
}

/// Recent files of one time are in the order of their paths.
pub proof fn law_collected_of_one_time(files: Seq<DatedPath>, limit: nat, i: int, j: int)
    requires
        files.len() <= usize::MAX,
        0 <= i < j < collected(files, limit as int).len(),
        collected(files, limit as int)[i].mtime == collected(files, limit as int)[j].mtime,
    ensures
        components_lt(
            components(collected(files, limit as int)[i].path),
            components(collected(files, limit as int)[j].path),
        ),
{
    let sorted = by_path(files);
    let heads = run_heads(sorted);
    lemma_by_path(files);
    lemma_run_heads(sorted);
    lemma_heads_ascend(sorted);
    let at = law_newest_first(heads);
    let whole = newest_first(heads);
    let r = collected(files, limit as int);
    assert(r[i] == whole[i] && r[j] == whole[j]);
    assert(whole[i] == heads[at[i]] && whole[j] == heads[at[j]]);
    assert(at[i] < at[j]);
}

proof fn lemma_heads_ascend(files: Seq<DatedPath>)
    requires
        is_by_path(files),
    ensures
        files.len() > 0 ==> run_heads(files).len() > 0 && same_path(
            run_heads(files).last().path,
            files.last().path,
        ),
        forall|i: int, j: int|
            0 <= i < j < run_heads(files).len() ==> components_lt(
                components((#[trigger] run_heads(files)[i]).path),
                components((#[trigger] run_heads(files)[j]).path),
            ),
    decreases files.len(),
{
    if files.len() > 0 {
        let init = files.drop_last();
        let last = files.last();
        let before = run_heads(init);
        let all = run_heads(files);
        assert forall|i: int, j: int| 0 <= i < j < init.len() implies !PathKey::lt(
            #[trigger] path_keys(init)[j],
            #[trigger] path_keys(init)[i],
        ) by {
            assert(path_keys(init)[i] == path_keys(files)[i]);
            assert(path_keys(init)[j] == path_keys(files)[j]);
        }
        lemma_heads_ascend(init);
        if before.len() > 0 && !same_path(before.last().path, last.path) {
            let q = init.len() - 1;
            let n = files.len() - 1;
            let top = components(before.last().path);
            let c = components(last.path);
            assert(path_keys(files)[q].0 == top);
            assert(path_keys(files)[n].0 == c);
            assert(!PathKey::lt(path_keys(files)[n], path_keys(files)[q]));
            lemma_components_laws(top, c, c);
            assert(components_lt(top, c));
            assert forall|i: int, j: int| 0 <= i < j < all.len() implies components_lt(
                components((#[trigger] all[i]).path),
                components((#[trigger] all[j]).path),
            ) by {
                if j < before.len() {
                    assert(all[i] == before[i] && all[j] == before[j]);
                } else {
                    assert(all[i] == before[i] && all[j] == last);
                    let b = components(before[i].path);
                    if i < before.len() - 1 {
                        let final_head = before[before.len() - 1];
                        assert(components_lt(b, components(final_head.path)));
                        lemma_components_laws(b, c, top);
                        lemma_components_laws(b, top, c);
                        lemma_components_laws(c, top, b);
                        lemma_components_laws(top, c, b);
                    }
                }
            }
        }
    }
}

/// The whole seconds of a time end at the first dot, or at the first sign behind their first
/// character; without one they are all there is.
pub proof fn law_whole_seconds(s: Seq<char>) -> (n: int)
    ensures
        0 <= n <= s.len(),
        whole_seconds(s) == s.take(n),
        forall|k: int| 0 <= k < n ==> #[trigger] s[k] != '.',
        forall|k: int| 0 < k < n ==> #[trigger] s[k] != '+' && s[k] != '-',
        n < s.len() ==> s[n] == '.' || (n > 0 && (s[n] == '+' || s[n] == '-')),
{
    lemma_first_end(s, 0);
    seconds_end(s, 0)
}

proof fn lemma_first_end(s: Seq<char>, from: int)
    requires
        0 <= from <= s.len(),
    ensures
        from <= seconds_end(s, from) <= s.len(),
        forall|k: int|
            from <= k < seconds_end(s, from) ==> #[trigger] s[k] != '.' && (k > 0 ==> s[k] != '+'
                && s[k] != '-'),
        seconds_end(s, from) < s.len() ==> s[seconds_end(s, from)] == '.' || (seconds_end(s, from)
            > 0 && (s[seconds_end(s, from)] == '+' || s[seconds_end(s, from)] == '-')),
    decreases s.len() - from,
{
    if from < s.len() && !ends_seconds(s, from) {
        lemma_first_end(s, from + 1);
    }
}

} // verus!
