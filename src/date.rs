use vstd::prelude::*;
use chrono::{Datelike, Timelike};
use crate::text::{append, chars_of, digit_value, digits_value, is_digit, padded, padded_of, text_of};

verus! {

/// The date a file is sorted by.
pub struct ResolvedDate {
    pub year: i32,
    pub month: u32,
    /// The timestamp written into the file name, `YYYY-MM-DD HH-MM-SS`.
    pub display: String,
}

/// Timestamps within this many seconds of the Unix epoch fall inside the
/// calendar's range (years -262143 to 262142), so they always have a date.
pub const TIMESTAMP_LIMIT: i64 = 8_000_000_000_000;

/// A point in time in UTC, broken into calendar fields.
#[derive(Clone, Copy, Debug, PartialEq, Eq, Structural)]
pub struct UtcTime {
    pub year: i32,
    pub month: u32,
    pub day: u32,
    pub hour: u32,
    pub minute: u32,
    pub second: u32,
}

pub open spec fn is_leap_year(y: int) -> bool {
    (y % 4 == 0 && y % 100 != 0) || y % 400 == 0
}

pub open spec fn days_in_month(y: int, m: int) -> int {
    if m == 2 {
        if is_leap_year(y) { 29 } else { 28 }
    } else if m == 4 || m == 6 || m == 9 || m == 11 {
        30
    } else {
        31
    }
}

/// Days from 1970-01-01 to the given date of the proleptic Gregorian calendar.
pub open spec fn days_from_civil(y: int, m: int, d: int) -> int {
    let y2 = if m <= 2 { y - 1 } else { y };
    let era = y2 / 400;
    let yoe = y2 - era * 400;
    let mp = if m > 2 { m - 3 } else { m + 9 };
    let doy = (153 * mp + 2) / 5 + d - 1;
    let doe = yoe * 365 + yoe / 4 - yoe / 100 + doy;
    era * 146097 + doe - 719468
}

pub open spec fn is_civil(t: UtcTime) -> bool {
    &&& 1 <= t.month <= 12
    &&& 1 <= t.day <= days_in_month(t.year as int, t.month as int)
    &&& t.hour < 24
    &&& t.minute < 60
    &&& t.second < 60
}

/// Seconds since 1970-01-01 00:00:00 UTC.
pub open spec fn epoch_seconds(t: UtcTime) -> int {
    days_from_civil(t.year as int, t.month as int, t.day as int) * 86400 + t.hour * 3600
        + t.minute * 60 + t.second
}

/// A year as `%Y` writes it: four digits, with a sign outside 0 to 9999.
pub open spec fn year_text(y: int) -> Seq<char> {
    if 0 <= y <= 9999 {
        padded(y as nat, 4)
    } else if y < 0 {
        seq!['-'] + padded((-y) as nat, 4)
    } else {
        seq!['+'] + padded(y as nat, 4)
    }
}

/// `YYYY-MM-DD HH-MM-SS`.
pub open spec fn utc_display(t: UtcTime) -> Seq<char> {
    year_text(t.year as int) + seq!['-'] + padded(t.month as nat, 2) + seq!['-'] + padded(
        t.day as nat,
        2,
    ) + seq![' '] + padded(t.hour as nat, 2) + seq!['-'] + padded(t.minute as nat, 2) + seq!['-']
        + padded(t.second as nat, 2)
}

/// A non-empty run of decimal digits, read as a number.
pub open spec fn parse_digits(s: Seq<char>) -> Option<int> {
    if s.len() > 0 && forall|i: int| 0 <= i < s.len() ==> is_digit(#[trigger] s[i]) {
        Some(digits_value(s) as int)
    } else {
        None
    }
}

/// A number with an optional `+` sign.
pub open spec fn parse_unsigned(s: Seq<char>) -> Option<int> {
    if s.len() > 0 && s[0] == '+' {
        parse_digits(s.drop_first())
    } else {
        parse_digits(s)
    }
}

/// A number with an optional `+` or `-` sign.
pub open spec fn parse_signed(s: Seq<char>) -> Option<int> {
    if s.len() > 0 && s[0] == '-' {
        match parse_digits(s.drop_first()) {
            Some(v) => Some(-v),
            None => None,
        }
    } else {
        parse_unsigned(s)
    }
}

/// The year of a metadata timestamp: its first four characters, or 0.
pub open spec fn metadata_year(t: Seq<char>) -> int {
    if t.len() >= 4 {
        match parse_signed(t.subrange(0, 4)) {
            Some(v) => v,
            None => 0,
        }
    } else {
        0
    }
}

/// The month of a metadata timestamp: its sixth and seventh characters, or 0.
pub open spec fn metadata_month(t: Seq<char>) -> int {
    if t.len() >= 7 {
        match parse_unsigned(t.subrange(5, 7)) {
            Some(v) => v,
            None => 0,
        }
    } else {
        0
    }
}

/// The metadata timestamp with every `:` turned into `-`.
pub open spec fn separators_replaced(t: Seq<char>) -> Seq<char> {
    Seq::new(t.len(), |i: int| if t[i] == ':' { '-' } else { t[i] })
}

/// The capture time (`DateTimeOriginal` of the primary image) that the Exif
/// metadata in a file's contents gives, as text.
pub uninterp spec fn exif_capture_time(contents: Seq<u8>) -> Option<Seq<char>>;

/// Relies on exif's `Reader::read_from_container`, `Exif::get_field` and
/// `Field::display_value`: the displayed `DateTimeOriginal` of the primary
/// image, or nothing where the metadata or the tag is missing.
#[verifier::external_body]
fn capture_time_of(contents: &Vec<u8>) -> (r: Option<String>)
    ensures
        match r {
            Some(t) => exif_capture_time(contents@) == Some(t@),
            None => exif_capture_time(contents@) is None,
        },
{
    let mut cursor = std::io::Cursor::new(contents.as_slice());
    match exif::Reader::new().read_from_container(&mut cursor) {
        Ok(e) => match e.get_field(exif::Tag::DateTimeOriginal, exif::In::PRIMARY) {
            Some(field) => Some(format!("{}", field.display_value())),
            None => None,
        },
        Err(_) => None,
    }
}

/// Relies on chrono's `DateTime::from_timestamp` and its calendar getters:
/// the UTC calendar fields of a Unix timestamp, where chrono can represent it,
/// which it can for every timestamp within `TIMESTAMP_LIMIT`.
#[verifier::external_body]
fn utc_of_timestamp(secs: i64) -> (r: Option<UtcTime>)
    ensures
        r matches Some(t) ==> is_civil(t) && epoch_seconds(t) == secs,
        -TIMESTAMP_LIMIT <= secs <= TIMESTAMP_LIMIT ==> r is Some,
{
    match chrono::DateTime::from_timestamp(secs, 0) {
        Some(t) => Some(
            UtcTime {
                year: t.year(),
                month: t.month(),
                day: t.day(),
                hour: t.hour(),
                minute: t.minute(),
                second: t.second(),
            },
        ),
        None => None,
    }
}

fn digit_value_of(c: char) -> (r: Option<u64>)
    ensures
        r is Some <==> is_digit(c),
        r matches Some(d) ==> d == digit_value(c) && d < 10,
{
    if c == '0' { Some(0) } else if c == '1' { Some(1) } else if c == '2' { Some(2) }
    else if c == '3' { Some(3) } else if c == '4' { Some(4) } else if c == '5' { Some(5) }
    else if c == '6' { Some(6) } else if c == '7' { Some(7) } else if c == '8' { Some(8) }
    else if c == '9' { Some(9) } else { None }
}

/// Reads `v[from..to]` as a run of decimal digits.
fn parse_digits_of(v: &Vec<char>, from: usize, to: usize) -> (r: Option<u64>)
    requires
        from <= to <= v@.len(),
        to - from <= 4,
    ensures
        match parse_digits(v@.subrange(from as int, to as int)) {
            Some(x) => r == Some(x as u64) && x < 10000,
            None => r is None,
        },
{
    if from == to {
        return None;
    }
    let mut acc: u64 = 0;
    let mut i: usize = from;
    while i < to
        invariant
            from <= i <= to <= v@.len(),
            to - from <= 4,
            acc == digits_value(v@.subrange(from as int, i as int)),
            i - from == 0 ==> acc == 0,
            i - from <= 1 ==> acc < 10,
            i - from <= 2 ==> acc < 100,
            i - from <= 3 ==> acc < 1000,
            acc < 10000,
            forall|j: int| from <= j < i ==> is_digit(#[trigger] v@[j]),
        decreases to - i,
    {
        match digit_value_of(v[i]) {
            Some(d) => {
                assert(v@.subrange(from as int, i + 1).drop_last() =~= v@.subrange(
                    from as int,
                    i as int,
                ));
                acc = acc * 10 + d;
            },
            None => {
                assert(!is_digit(v@.subrange(from as int, to as int)[i - from]));
                return None;
            },
        }
        i += 1;
    }
    assert forall|j: int| 0 <= j < to - from implies is_digit(
        #[trigger] v@.subrange(from as int, to as int)[j],
    ) by {
        assert(is_digit(v@[from + j]));
    }
    Some(acc)
}

/// Reads `v[from..to]` as a number with an optional `+` sign.
fn parse_unsigned_of(v: &Vec<char>, from: usize, to: usize) -> (r: Option<u64>)
    requires
        from <= to <= v@.len(),
        to - from <= 4,
    ensures
        match parse_unsigned(v@.subrange(from as int, to as int)) {
            Some(x) => r == Some(x as u64) && 0 <= x < 10000,
            None => r is None,
        },
{
    if from < to && v[from] == '+' {
        assert(v@.subrange(from as int, to as int).drop_first() =~= v@.subrange(
            from + 1,
            to as int,
        ));
        parse_digits_of(v, from + 1, to)
    } else {
        parse_digits_of(v, from, to)
    }
}

/// Reads `v[from..to]` as a number with an optional sign.
fn parse_signed_of(v: &Vec<char>, from: usize, to: usize) -> (r: Option<i64>)
    requires
        from <= to <= v@.len(),
        to - from <= 4,
    ensures
        match parse_signed(v@.subrange(from as int, to as int)) {
            Some(x) => r == Some(x as i64) && -10000 < x < 10000,
            None => r is None,
        },
{
    if from < to && v[from] == '-' {
        assert(v@.subrange(from as int, to as int).drop_first() =~= v@.subrange(
            from + 1,
            to as int,
        ));
        match parse_digits_of(v, from + 1, to) {
            Some(x) => Some(-(x as i64)),
            None => None,
        }
    } else {
        match parse_unsigned_of(v, from, to) {
            Some(x) => Some(x as i64),
            None => None,
        }
    }
}

/// The date that a metadata timestamp such as `2020:05:14 10:22:03` gives.
/// A year or month that does not read as a number becomes 0.
pub fn date_from_metadata(text: &str) -> (r: ResolvedDate)
    ensures
        r.year == metadata_year(text@),
        r.month == metadata_month(text@),
        r.display@ == separators_replaced(text@),
{
    let v = chars_of(text);
    let year: i32 = if v.len() >= 4 {
        match parse_signed_of(&v, 0, 4) {
            Some(y) => y as i32,
            None => 0,
        }
    } else {
        0
    };
    let month: u32 = if v.len() >= 7 {
        match parse_unsigned_of(&v, 5, 7) {
            Some(m) => m as u32,
            None => 0,
        }
    } else {
        0
    };
    let mut display: Vec<char> = Vec::new();
    let mut i: usize = 0;
    while i < v.len()
        invariant
            i <= v@.len(),
            display@ =~= separators_replaced(v@).subrange(0, i as int),
        decreases v@.len() - i,
    {
        if v[i] == ':' {
            display.push('-');
        } else {
            display.push(v[i]);
        }
        i += 1;
    }
    ResolvedDate { year, month, display: text_of(&display) }
}

fn year_text_of(y: i32) -> (r: Vec<char>)
    ensures
        r@ == year_text(y as int),
{
    if 0 <= y && y <= 9999 {
        padded_of(y as u64, 4)
    } else {
        let mut r: Vec<char> = Vec::new();
        if y < 0 {
            r.push('-');
            append(&mut r, &padded_of((-(y as i64)) as u64, 4));
        } else {
            r.push('+');
            append(&mut r, &padded_of(y as u64, 4));
        }
        r
    }
}

/// The date that a UTC time gives: its year, its month, and
/// `YYYY-MM-DD HH-MM-SS`.
pub fn date_from_utc(t: UtcTime) -> (r: ResolvedDate)
    ensures
        r.year == t.year,
        r.month == t.month,
        r.display@ == utc_display(t),
{
    let mut d = year_text_of(t.year);
    d.push('-');
    append(&mut d, &padded_of(t.month as u64, 2));
    d.push('-');
    append(&mut d, &padded_of(t.day as u64, 2));
    d.push(' ');
    append(&mut d, &padded_of(t.hour as u64, 2));
    d.push('-');
    append(&mut d, &padded_of(t.minute as u64, 2));
    d.push('-');
    append(&mut d, &padded_of(t.second as u64, 2));
    ResolvedDate { year: t.year, month: t.month, display: text_of(&d) }
}

/// The date that a file's modification time (seconds since the Unix epoch)
/// gives in UTC; nothing where the calendar cannot represent it.
pub fn date_from_modified(secs: i64) -> (r: Option<ResolvedDate>)
    ensures
        -TIMESTAMP_LIMIT <= secs <= TIMESTAMP_LIMIT ==> r is Some,
        r matches Some(d) ==> exists|t: UtcTime|
            is_civil(t) && epoch_seconds(t) == secs && d.year == t.year && d.month == t.month
                && d.display@ == utc_display(t),
{
    match utc_of_timestamp(secs) {
        Some(t) => Some(date_from_utc(t)),
        None => None,
    }
}

/// Resolves the date of a file from its metadata timestamp, if it has one,
/// and else from its modification time, if that is known. Nothing means
/// the file cannot be sorted.
pub fn resolve_date(metadata: Option<&str>, modified: Option<i64>) -> (r: Option<ResolvedDate>)
    ensures
        metadata matches Some(text) ==> (r matches Some(d) && d.year == metadata_year(text@)
            && d.month == metadata_month(text@) && d.display@ == separators_replaced(text@)),
        metadata is None && modified is None ==> r is None,
        metadata is None ==> (modified matches Some(secs) && -TIMESTAMP_LIMIT <= secs
            <= TIMESTAMP_LIMIT ==> r is Some),
        metadata is None ==> (r matches Some(d) ==> exists|t: UtcTime|
            is_civil(t) && modified == Some(epoch_seconds(t) as i64) && d.year == t.year
                && d.month == t.month && d.display@ == utc_display(t)),
{
    match metadata {
        Some(text) => Some(date_from_metadata(text)),
        None => match modified {
            Some(secs) => date_from_modified(secs),
            None => None,
        },
    }
}

/// Resolves the date of a file from its contents' Exif capture time, and
/// failing that from its modification time.
pub fn resolve_file_date(contents: &Vec<u8>, modified: Option<i64>) -> (r: Option<ResolvedDate>)
    ensures
        exif_capture_time(contents@) matches Some(text) ==> (r matches Some(d) && d.year
            == metadata_year(text) && d.month == metadata_month(text) && d.display@
            == separators_replaced(text)),
        exif_capture_time(contents@) is None ==> (modified matches Some(secs) && -TIMESTAMP_LIMIT
            <= secs <= TIMESTAMP_LIMIT ==> r is Some),
        exif_capture_time(contents@) is None && modified is None ==> r is None,
        exif_capture_time(contents@) is None ==> (r matches Some(d) ==> exists|t: UtcTime|
            is_civil(t) && modified == Some(epoch_seconds(t) as i64) && d.year == t.year
                && d.month == t.month && d.display@ == utc_display(t)),
{
    match capture_time_of(contents) {
        Some(text) => resolve_date(Some(text.as_str()), modified),
        None => resolve_date(None, modified),
    }
}

} // verus!
