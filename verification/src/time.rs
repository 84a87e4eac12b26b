//! Calendar timestamps: the `Timestamp` type, its ordering, strict parsing
//! of `YYYY-MM-DD HH:MM[:SS]` text, formatting, and the local clock.

use chrono::Datelike;
use chrono::Timelike;
use vstd::prelude::*;

verus! {

/// A calendar timestamp with second precision, interpreted as wall-clock
/// time in the local time zone of the running process.
#[derive(Clone, Copy, PartialEq, Eq, Structural, Debug)]
pub struct Timestamp {
    pub year: u16,
    pub month: u8,
    pub day: u8,
    pub hour: u8,
    pub minute: u8,
    pub second: u8,
}

/// Whether user-facing time text carries a seconds field.
#[derive(Clone, Copy, PartialEq, Eq, Structural, Debug)]
pub enum Precision {
    WithSeconds,
    WithoutSeconds,
}

/// Whether `year` is a leap year of the Gregorian calendar.
pub open spec fn is_leap_year(year: int) -> bool {
    year % 4 == 0 && (year % 100 != 0 || year % 400 == 0)
}

/// Number of days of month `month` (1-based) in year `year`.
pub open spec fn days_in_month(year: int, month: int) -> int {
    if month == 2 {
        if is_leap_year(year) {
            29
        } else {
            28
        }
    } else if month == 4 || month == 6 || month == 9 || month == 11 {
        30
    } else {
        31
    }
}

/// Number of days of year `year`.
pub open spec fn days_in_year(year: int) -> int {
    if is_leap_year(year) {
        366
    } else {
        365
    }
}

/// Number of days of the years `0, 1, ..., year - 1` together.
pub open spec fn days_before_year(year: int) -> int
    decreases year,
{
    if year <= 0 {
        0
    } else {
        days_before_year(year - 1) + days_in_year(year - 1)
    }
}

/// Number of days of the months `1, ..., month - 1` of `year` together.
pub open spec fn days_before_month(year: int, month: int) -> int
    decreases month,
{
    if month <= 1 {
        0
    } else {
        days_before_month(year, month - 1) + days_in_month(year, month - 1)
    }
}

impl Timestamp {
    /// A structurally valid timestamp: fields within calendar ranges.
    pub open spec fn wf(self) -> bool {
        &&& self.year <= 9999
        &&& 1 <= self.month <= 12
        &&& 1 <= self.day <= days_in_month(self.year as int, self.month as int)
        &&& self.hour <= 23
        &&& self.minute <= 59
        &&& self.second <= 59
    }

    /// Days elapsed since the start of year 0.
    pub open spec fn day_index(self) -> int {
        days_before_year(self.year as int) + days_before_month(
            self.year as int,
            self.month as int,
        ) + self.day - 1
    }

    /// Seconds elapsed since the start of year 0: the instant this
    /// timestamp denotes, as one number. Two timestamps compare as their
    /// instants do.
    pub open spec fn instant(self) -> int {
        self.day_index() * 86400 + self.hour * 3600 + self.minute * 60 + self.second
    }

    /// The calendar day, the grouping component of an entry's key.
    pub open spec fn day_key(self) -> DayKey {
        DayKey { year: self.year, month: self.month, day: self.day }
    }

    /// Executable calendar day of this timestamp.
    pub fn day_of(&self) -> (r: DayKey)
        ensures
            r == self.day_key(),
    {
        DayKey { year: self.year, month: self.month, day: self.day }
    }
}

/// A calendar day: the third component of a task group's defining key.
#[derive(Clone, Copy, PartialEq, Eq, Structural, Debug)]
pub struct DayKey {
    pub year: u16,
    pub month: u8,
    pub day: u8,
}

/// `a` denotes an instant no later than `b`.
pub open spec fn ts_le(a: Timestamp, b: Timestamp) -> bool {
    a.instant() <= b.instant()
}

/// Executable leap-year test.
pub fn leap_year(year: u16) -> (r: bool)
    ensures
        r == is_leap_year(year as int),
{
    year % 4 == 0 && (year % 100 != 0 || year % 400 == 0)
}

/// Executable month length.
pub fn month_length(year: u16, month: u8) -> (r: u8)
    requires
        1 <= month <= 12,
    ensures
        r as int == days_in_month(year as int, month as int),
{
    if month == 2 {
        if leap_year(year) {
            29
        } else {
            28
        }
    } else if month == 4 || month == 6 || month == 9 || month == 11 {
        30
    } else {
        31
    }
}

pub proof fn lemma_days_before_year_bound(year: int)
    requires
        0 <= year,
    ensures
        0 <= days_before_year(year) <= 366 * year,
    decreases year,
{
    if year > 0 {
        lemma_days_before_year_bound(year - 1);
    }
}

pub proof fn lemma_days_before_month_bound(year: int, month: int)
    requires
        1 <= month <= 13,
    ensures
        0 <= days_before_month(year, month) <= 31 * (month - 1),
    decreases month,
{
    if month > 1 {
        lemma_days_before_month_bound(year, month - 1);
    }
}

fn days_before_year_exec(year: u16) -> (r: u64)
    ensures
        r as int == days_before_year(year as int),
{
    let mut acc: u64 = 0;
    let mut i: u16 = 0;
    while i < year
        invariant
            i <= year,
            acc as int == days_before_year(i as int),
        decreases year - i,
    {
        proof {
            lemma_days_before_year_bound(i as int);
        }
        if leap_year(i) {
            acc = acc + 366;
        } else {
            acc = acc + 365;
        }
        i = i + 1;
    }
    acc
}

fn days_before_month_exec(year: u16, month: u8) -> (r: u64)
    requires
        1 <= month <= 13,
    ensures
        r as int == days_before_month(year as int, month as int),
{
    let mut acc: u64 = 0;
    let mut m: u8 = 1;
    while m < month
        invariant
            1 <= m <= month <= 13,
            acc as int == days_before_month(year as int, m as int),
        decreases month - m,
    {
        proof {
            lemma_days_before_month_bound(year as int, m as int);
        }
        acc = acc + month_length(year, m) as u64;
        m = m + 1;
    }
    acc
}

impl Timestamp {
    /// The instant as a machine integer.
    pub fn instant_exec(&self) -> (r: u64)
        requires
            self.wf(),
        ensures
            r as int == self.instant(),
    {
        proof {
            lemma_days_before_year_bound(self.year as int);
            lemma_days_before_month_bound(self.year as int, self.month as int);
        }
        let days = days_before_year_exec(self.year) + days_before_month_exec(self.year, self.month)
            + self.day as u64 - 1;
        days * 86400 + self.hour as u64 * 3600 + self.minute as u64 * 60 + self.second as u64
    }

    /// Whether the fields denote a real calendar date and time.
    pub fn check_wf(&self) -> (r: bool)
        ensures
            r == self.wf(),
    {
        if self.year > 9999 || self.month < 1 || self.month > 12 || self.hour > 23 || self.minute
            > 59 || self.second > 59 {
            return false;
        }
        self.day >= 1 && self.day <= month_length(self.year, self.month)
    }

    /// `self` is no later than `other`, comparing the denoted instants.
    pub fn le(&self, other: &Timestamp) -> (r: bool)
        requires
            self.wf(),
            other.wf(),
        ensures
            r == ts_le(*self, *other),
    {
        self.instant_exec() <= other.instant_exec()
    }
}

/// Hours, minutes and seconds of the span between two timestamps.
pub fn duration_hms(start: &Timestamp, stop: &Timestamp) -> (r: (u64, u64, u64))
    requires
        start.wf(),
        stop.wf(),
        ts_le(*start, *stop),
    ensures
        r.0 == (stop.instant() - start.instant()) / 3600,
        r.1 == ((stop.instant() - start.instant()) % 3600) / 60,
        r.2 == (stop.instant() - start.instant()) % 60,
{
    let total = stop.instant_exec() - start.instant_exec();
    (total / 3600, total % 3600 / 60, total % 60)
}

/// `c` is a decimal digit.
pub open spec fn is_digit(c: char) -> bool {
    '0' <= c && c <= '9'
}

/// The value of a decimal digit character.
pub open spec fn digit_val(c: char) -> int {
    c as int - 48
}

/// The character of a decimal digit value.
pub open spec fn digit_char(d: int) -> char {
    ((48 + d) as u8) as char
}

/// The value of the two digit characters of `s` at `i` and `i + 1`.
pub open spec fn two_digit(s: Seq<char>, i: int) -> int {
    digit_val(s[i]) * 10 + digit_val(s[i + 1])
}

/// The value of the four digit characters of `s` starting at `i`.
pub open spec fn four_digit(s: Seq<char>, i: int) -> int {
    digit_val(s[i]) * 1000 + digit_val(s[i + 1]) * 100 + digit_val(s[i + 2]) * 10 + digit_val(
        s[i + 3],
    )
}

/// `s` has the literal shape `YYYY-MM-DD HH:MM` followed, under
/// `Precision::WithSeconds`, by `:SS`.
pub open spec fn text_shape_ok(s: Seq<char>, p: Precision) -> bool {
    &&& s.len() == (if p == Precision::WithSeconds {
        19int
    } else {
        16int
    })
    &&& is_digit(s[0]) && is_digit(s[1]) && is_digit(s[2]) && is_digit(s[3])
    &&& s[4] == '-' && is_digit(s[5]) && is_digit(s[6])
    &&& s[7] == '-' && is_digit(s[8]) && is_digit(s[9])
    &&& s[10] == ' ' && is_digit(s[11]) && is_digit(s[12])
    &&& s[13] == ':' && is_digit(s[14]) && is_digit(s[15])
    &&& (p == Precision::WithSeconds ==> s[16] == ':' && is_digit(s[17]) && is_digit(s[18]))
}

/// The fields read from text of the accepted shape; the seconds field is 0
/// when the text carries none.
pub open spec fn text_fields(s: Seq<char>, p: Precision) -> Timestamp {
    Timestamp {
        year: four_digit(s, 0) as u16,
        month: two_digit(s, 5) as u8,
        day: two_digit(s, 8) as u8,
        hour: two_digit(s, 11) as u8,
        minute: two_digit(s, 14) as u8,
        second: if p == Precision::WithSeconds {
            two_digit(s, 17) as u8
        } else {
            0u8
        },
    }
}

/// `s` is accepted time text: the literal shape, and fields that denote a
/// real calendar date and time.
pub open spec fn parse_ok(s: Seq<char>, p: Precision) -> bool {
    text_shape_ok(s, p) && text_fields(s, p).wf()
}

/// Read the digit at position `i`.
fn digit_at(s: &str, i: usize) -> (r: Option<u8>)
    requires
        i < s@.len(),
    ensures
        r is Some <==> is_digit(s@[i as int]),
        r is Some ==> r->Some_0 <= 9 && r->Some_0 as int == digit_val(s@[i as int]),
{
    let c = s.get_char(i);
    if '0' <= c && c <= '9' {
        Some((c as u32 - 48) as u8)
    } else {
        None
    }
}

/// Read the two-digit number at positions `i` and `i + 1`.
fn two_digits_at(s: &str, i: usize) -> (r: Option<u8>)
    requires
        i + 2 <= s@.len(),
        s@.len() <= usize::MAX,
    ensures
        r is Some <==> is_digit(s@[i as int]) && is_digit(s@[i as int + 1]),
        r is Some ==> r->Some_0 <= 99 && r->Some_0 as int == two_digit(s@, i as int),
{
    match (digit_at(s, i), digit_at(s, i + 1)) {
        (Some(a), Some(b)) => Some(a * 10 + b),
        _ => None,
    }
}

/// Read the four-digit number starting at position `i`.
fn four_digits_at(s: &str, i: usize) -> (r: Option<u16>)
    requires
        i + 4 <= s@.len(),
        s@.len() <= usize::MAX,
    ensures
        r is Some <==> is_digit(s@[i as int]) && is_digit(s@[i as int + 1]) && is_digit(
            s@[i as int + 2],
        ) && is_digit(s@[i as int + 3]),
        r is Some ==> r->Some_0 <= 9999 && r->Some_0 as int == four_digit(s@, i as int),
{
    match (digit_at(s, i), digit_at(s, i + 1), digit_at(s, i + 2), digit_at(s, i + 3)) {
        (Some(a), Some(b), Some(c), Some(d)) => Some(
            a as u16 * 1000 + b as u16 * 100 + c as u16 * 10 + d as u16,
        ),
        _ => None,
    }
}

/// Turn formatted time text into a validated timestamp. Exactly the texts
/// of the literal format `YYYY-MM-DD HH:MM:SS` (`YYYY-MM-DD HH:MM` under
/// `Precision::WithoutSeconds`) that denote a real calendar date and time
/// are accepted; any other text is rejected as an invalid format.
pub fn parse_timestamp(s: &str, p: Precision) -> (r: Option<Timestamp>)
    ensures
        r is Some <==> parse_ok(s@, p),
        r is Some ==> r->Some_0 == text_fields(s@, p) && r->Some_0.wf(),
{
    let with_seconds = p == Precision::WithSeconds;
    let need: usize = if with_seconds {
        19
    } else {
        16
    };
    if s.unicode_len() != need {
        return None;
    }
    let year = match four_digits_at(s, 0) {
        Some(v) => v,
        None => { return None },
    };
    if s.get_char(4) != '-' || s.get_char(7) != '-' || s.get_char(10) != ' ' || s.get_char(13)
        != ':' {
        return None;
    }
    let month = match two_digits_at(s, 5) {
        Some(v) => v,
        None => { return None },
    };
    let day = match two_digits_at(s, 8) {
        Some(v) => v,
        None => { return None },
    };
    let hour = match two_digits_at(s, 11) {
        Some(v) => v,
        None => { return None },
    };
    let minute = match two_digits_at(s, 14) {
        Some(v) => v,
        None => { return None },
    };
    let mut second: u8 = 0;
    if with_seconds {
        if s.get_char(16) != ':' {
            return None;
        }
        second = match two_digits_at(s, 17) {
            Some(v) => v,
            None => { return None },
        };
    }
    if month < 1 || month > 12 {
        return None;
    }
    if day < 1 || day > month_length(year, month) {
        return None;
    }
    if hour > 23 || minute > 59 || second > 59 {
        return None;
    }
    Some(Timestamp { year, month, day, hour, minute, second })
}


/// The two characters of a two-digit rendering of `v`.
pub open spec fn two_digit_chars(v: int) -> Seq<char> {
    seq![digit_char(v / 10), digit_char(v % 10)]
}

/// The four characters of a four-digit rendering of `v`.
pub open spec fn four_digit_chars(v: int) -> Seq<char> {
    seq![digit_char(v / 1000), digit_char(v / 100 % 10), digit_char(v / 10 % 10), digit_char(v % 10)]
}

/// The text `YYYY-MM-DD HH:MM[:SS]` of a timestamp: the same format the
/// parser accepts.
pub open spec fn format_spec(t: Timestamp, p: Precision) -> Seq<char> {
    four_digit_chars(t.year as int) + seq!['-'] + two_digit_chars(t.month as int) + seq!['-']
        + two_digit_chars(t.day as int) + seq![' '] + two_digit_chars(t.hour as int) + seq![':']
        + two_digit_chars(t.minute as int) + (if p == Precision::WithSeconds {
        seq![':'] + two_digit_chars(t.second as int)
    } else {
        Seq::empty()
    })
}

/// The clock-only text `HH:MM[:SS]` of a timestamp.
pub open spec fn clock_spec(t: Timestamp, p: Precision) -> Seq<char> {
    two_digit_chars(t.hour as int) + seq![':'] + two_digit_chars(t.minute as int) + (if p
        == Precision::WithSeconds {
        seq![':'] + two_digit_chars(t.second as int)
    } else {
        Seq::empty()
    })
}

/// Append the two-digit rendering of `x`.
fn push_two_digits(v: &mut Vec<char>, x: u8)
    requires
        x <= 99,
    ensures
        final(v)@ == old(v)@ + two_digit_chars(x as int),
{
    v.push((48 + x / 10) as char);
    v.push((48 + x % 10) as char);
    assert(final(v)@ =~= old(v)@ + two_digit_chars(x as int));
}

/// Render a timestamp as `YYYY-MM-DD HH:MM:SS` (without the seconds field
/// under `Precision::WithoutSeconds`).
pub fn format_timestamp(t: &Timestamp, p: Precision) -> (r: String)
    requires
        t.wf(),
    ensures
        r@ == format_spec(*t, p),
{
    let mut v: Vec<char> = Vec::new();
    v.push((48 + (t.year / 1000) as u8) as char);
    v.push((48 + (t.year / 100 % 10) as u8) as char);
    v.push((48 + (t.year / 10 % 10) as u8) as char);
    v.push((48 + (t.year % 10) as u8) as char);
    v.push('-');
    push_two_digits(&mut v, t.month);
    v.push('-');
    push_two_digits(&mut v, t.day);
    v.push(' ');
    push_two_digits(&mut v, t.hour);
    v.push(':');
    push_two_digits(&mut v, t.minute);
    if p == Precision::WithSeconds {
        v.push(':');
        push_two_digits(&mut v, t.second);
    }
    assert(v@ =~= format_spec(*t, p));
    crate::tags::chars_to_string(&v)
}

/// Render the clock part of a timestamp as `HH:MM[:SS]`.
pub fn format_clock(t: &Timestamp, p: Precision) -> (r: String)
    requires
        t.wf(),
    ensures
        r@ == clock_spec(*t, p),
{
    let mut v: Vec<char> = Vec::new();
    push_two_digits(&mut v, t.hour);
    v.push(':');
    push_two_digits(&mut v, t.minute);
    if p == Precision::WithSeconds {
        v.push(':');
        push_two_digits(&mut v, t.second);
    }
    assert(v@ =~= clock_spec(*t, p));
    crate::tags::chars_to_string(&v)
}

/// Relies on `chrono::Local::now` and the `chrono` `Datelike` and
/// `Timelike` accessors of the returned date-time, whose documentation
/// promises: month 1 to 12, day of month 1 to 31, hour 0 to 23, minute 0
/// to 59, second 0 to 59. Nothing is promised of the year.
#[verifier::external_body]
fn clock_now_fields() -> (r: (i32, u32, u32, u32, u32, u32))
    ensures
        1 <= r.1 <= 12,
        1 <= r.2 <= 31,
        r.3 <= 23,
        r.4 <= 59,
        r.5 <= 59,
{
    let n = chrono::Local::now();
    (n.year(), n.month(), n.day(), n.hour(), n.minute(), n.second())
}

/// Build a validated timestamp from raw clock fields. Accepts exactly the
/// field tuples that denote a real calendar date and time within the
/// supported year range.
pub fn timestamp_from_fields(
    year: i32,
    month: u32,
    day: u32,
    hour: u32,
    minute: u32,
    second: u32,
) -> (r: Option<Timestamp>)
    ensures
        r is Some <==> (0 <= year <= 9999 && 1 <= month <= 12 && hour <= 23 && minute <= 59
            && second <= 59 && 1 <= day <= days_in_month(year as int, month as int)),
        r is Some ==> r->Some_0 == (Timestamp {
            year: year as u16,
            month: month as u8,
            day: day as u8,
            hour: hour as u8,
            minute: minute as u8,
            second: second as u8,
        }) && r->Some_0.wf(),
{
    if year < 0 || year > 9999 || month < 1 || month > 12 || hour > 23 || minute > 59 || second
        > 59 {
        return None;
    }
    if day < 1 || day > month_length(year as u16, month as u8) as u32 {
        return None;
    }
    Some(
        Timestamp {
            year: year as u16,
            month: month as u8,
            day: day as u8,
            hour: hour as u8,
            minute: minute as u8,
            second: second as u8,
        },
    )
}

/// The current local wall-clock time, read from the system clock; `None`
/// only when the clock reports a year outside the supported range.
pub fn now_local() -> (r: Option<Timestamp>)
    ensures
        r is Some ==> r->Some_0.wf(),
{
    let (year, month, day, hour, minute, second) = clock_now_fields();
    timestamp_from_fields(year, month, day, hour, minute, second)
}


pub proof fn lemma_digit_char_val(d: int)
    requires
        0 <= d <= 9,
    ensures
        is_digit(digit_char(d)),
        digit_val(digit_char(d)) == d,
{
    assert(digit_char(d) as u32 == 48 + d);
}

/// Law: parsing inverts formatting. For every valid timestamp — with a
/// zero seconds field when the text carries none — the formatted text is
/// accepted by the parser and parses back to the same timestamp.
#[verifier::rlimit(100)]
#[verifier::spinoff_prover]
pub proof fn lemma_parse_format_round_trip(t: Timestamp, p: Precision)
    requires
        t.wf(),
        p == Precision::WithoutSeconds ==> t.second == 0,
    ensures
        parse_ok(format_spec(t, p), p),
        text_fields(format_spec(t, p), p) == t,
{
    let s = format_spec(t, p);
    let y = t.year as int;
    let mo = t.month as int;
    let d = t.day as int;
    let h = t.hour as int;
    let mi = t.minute as int;
    let sec = t.second as int;
    assert(y / 1000 <= 9 && y / 100 % 10 <= 9 && y / 10 % 10 <= 9 && y % 10 <= 9);
    assert(mo / 10 <= 9 && d / 10 <= 9 && h / 10 <= 9 && mi / 10 <= 9 && sec / 10 <= 9);
    if p == Precision::WithSeconds {
        assert(s =~= seq![
            digit_char(y / 1000),
            digit_char(y / 100 % 10),
            digit_char(y / 10 % 10),
            digit_char(y % 10),
            '-',
            digit_char(mo / 10),
            digit_char(mo % 10),
            '-',
            digit_char(d / 10),
            digit_char(d % 10),
            ' ',
            digit_char(h / 10),
            digit_char(h % 10),
            ':',
            digit_char(mi / 10),
            digit_char(mi % 10),
            ':',
            digit_char(sec / 10),
            digit_char(sec % 10),
        ]);
    } else {
        assert(s =~= seq![
            digit_char(y / 1000),
            digit_char(y / 100 % 10),
            digit_char(y / 10 % 10),
            digit_char(y % 10),
            '-',
            digit_char(mo / 10),
            digit_char(mo % 10),
            '-',
            digit_char(d / 10),
            digit_char(d % 10),
            ' ',
            digit_char(h / 10),
            digit_char(h % 10),
            ':',
            digit_char(mi / 10),
            digit_char(mi % 10),
        ]);
    }
    lemma_digit_char_val(y / 1000);
    lemma_digit_char_val(y / 100 % 10);
    lemma_digit_char_val(y / 10 % 10);
    lemma_digit_char_val(y % 10);
    lemma_digit_char_val(mo / 10);
    lemma_digit_char_val(mo % 10);
    lemma_digit_char_val(d / 10);
    lemma_digit_char_val(d % 10);
    lemma_digit_char_val(h / 10);
    lemma_digit_char_val(h % 10);
    lemma_digit_char_val(mi / 10);
    lemma_digit_char_val(mi % 10);
    lemma_digit_char_val(sec / 10);
    lemma_digit_char_val(sec % 10);
    assert(four_digit(s, 0) == (y / 1000) * 1000 + (y / 100 % 10) * 100 + (y / 10 % 10) * 10 + y
        % 10);
    assert((y / 1000) * 1000 + (y / 100 % 10) * 100 + (y / 10 % 10) * 10 + y % 10 == y);
    assert(two_digit(s, 5) == (mo / 10) * 10 + mo % 10);
    assert((mo / 10) * 10 + mo % 10 == mo);
    assert((d / 10) * 10 + d % 10 == d);
    assert((h / 10) * 10 + h % 10 == h);
    assert((mi / 10) * 10 + mi % 10 == mi);
    assert((sec / 10) * 10 + sec % 10 == sec);
    assert(text_shape_ok(s, p));
    assert(text_fields(s, p) == t);
}


/// Field-wise lexicographic order of two timestamps.
pub open spec fn lex_le(a: Timestamp, b: Timestamp) -> bool {
    if a.year != b.year {
        a.year < b.year
    } else if a.month != b.month {
        a.month < b.month
    } else if a.day != b.day {
        a.day < b.day
    } else if a.hour != b.hour {
        a.hour < b.hour
    } else if a.minute != b.minute {
        a.minute < b.minute
    } else {
        a.second <= b.second
    }
}

pub proof fn lemma_days_before_year_mono(y1: int, y2: int)
    requires
        0 <= y1 <= y2,
    ensures
        days_before_year(y1) <= days_before_year(y2),
        y1 < y2 ==> days_before_year(y1) + days_in_year(y1) <= days_before_year(y2),
    decreases y2,
{
    if y1 < y2 {
        lemma_days_before_year_mono(y1, y2 - 1);
    }
}

pub proof fn lemma_days_before_month_mono(y: int, m1: int, m2: int)
    requires
        1 <= m1 <= m2 <= 13,
    ensures
        days_before_month(y, m1) <= days_before_month(y, m2),
        m1 < m2 ==> days_before_month(y, m1) + days_in_month(y, m1) <= days_before_month(y, m2),
    decreases m2,
{
    if m1 < m2 {
        lemma_days_before_month_mono(y, m1, m2 - 1);
    }
}

/// The day index of a valid timestamp lies within its year's days.
pub proof fn lemma_day_index_in_year(t: Timestamp)
    requires
        t.wf(),
    ensures
        days_before_year(t.year as int) <= t.day_index(),
        t.day_index() < days_before_year(t.year as int + 1),
{
    let y = t.year as int;
    let m = t.month as int;
    lemma_days_before_month_bound(y, m);
    lemma_days_before_month_mono(y, m, 13);
    assert(days_in_month(y, m) + days_before_month(y, m) <= days_before_month(y, 13));
    assert(days_before_month(y, 13) == days_in_year(y)) by {
        assert(days_before_month(y, 13) == days_before_month(y, 12) + days_in_month(y, 12));
        assert(days_before_month(y, 12) == days_before_month(y, 11) + days_in_month(y, 11));
        assert(days_before_month(y, 11) == days_before_month(y, 10) + days_in_month(y, 10));
        assert(days_before_month(y, 10) == days_before_month(y, 9) + days_in_month(y, 9));
        assert(days_before_month(y, 9) == days_before_month(y, 8) + days_in_month(y, 8));
        assert(days_before_month(y, 8) == days_before_month(y, 7) + days_in_month(y, 7));
        assert(days_before_month(y, 7) == days_before_month(y, 6) + days_in_month(y, 6));
        assert(days_before_month(y, 6) == days_before_month(y, 5) + days_in_month(y, 5));
        assert(days_before_month(y, 5) == days_before_month(y, 4) + days_in_month(y, 4));
        assert(days_before_month(y, 4) == days_before_month(y, 3) + days_in_month(y, 3));
        assert(days_before_month(y, 3) == days_before_month(y, 2) + days_in_month(y, 2));
        assert(days_before_month(y, 2) == days_before_month(y, 1) + days_in_month(y, 1));
    }
    assert(days_before_year(y + 1) == days_before_year(y) + days_in_year(y));
}

/// Under distinct day keys, the earlier day key has the smaller day
/// index.
proof fn lemma_day_index_strict(a: Timestamp, b: Timestamp)
    requires
        a.wf(),
        b.wf(),
        a.day_key() != b.day_key(),
        lex_le(a, b),
    ensures
        a.day_index() < b.day_index(),
{
    lemma_day_index_in_year(a);
    lemma_day_index_in_year(b);
    if a.year < b.year {
        lemma_days_before_year_mono(a.year as int + 1, b.year as int);
    } else {
        let y = a.year as int;
        lemma_days_before_month_bound(y, a.month as int);
        lemma_days_before_month_bound(y, b.month as int);
        if a.month < b.month {
            lemma_days_before_month_mono(y, a.month as int, b.month as int);
        }
    }
}

/// Law: the instant of a timestamp orders exactly as its calendar
/// fields do, most significant first. Comparing instants is comparing
/// year, month, day, hour, minute, second lexicographically.
pub proof fn lemma_instant_orders_calendar(a: Timestamp, b: Timestamp)
    requires
        a.wf(),
        b.wf(),
    ensures
        ts_le(a, b) == lex_le(a, b),
{
    if a.day_key() == b.day_key() {
        assert(a.day_index() == b.day_index());
    } else if lex_le(a, b) {
        lemma_day_index_strict(a, b);
        assert(a.instant() <= a.day_index() * 86400 + 86399);
        assert((a.day_index() + 1) * 86400 == a.day_index() * 86400 + 86400);
        assert((a.day_index() + 1) * 86400 <= b.day_index() * 86400) by (nonlinear_arith)
            requires
                a.day_index() + 1 <= b.day_index(),
        ;
        assert(b.day_index() * 86400 <= b.instant());
    } else {
        assert(lex_le(b, a) && b.day_key() != a.day_key());
        lemma_day_index_strict(b, a);
        assert(b.instant() <= b.day_index() * 86400 + 86399);
        assert((b.day_index() + 1) * 86400 == b.day_index() * 86400 + 86400);
        assert((b.day_index() + 1) * 86400 <= a.day_index() * 86400) by (nonlinear_arith)
            requires
                b.day_index() + 1 <= a.day_index(),
        ;
        assert(a.day_index() * 86400 <= a.instant());
    }
}

} // verus!
