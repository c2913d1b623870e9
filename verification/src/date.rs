//! Dates of writings: `yyyy-mm-dd` triples, the calendar days among them, and
//! moments on those days in RFC 3339 form.

use vstd::prelude::*;

use crate::err::Error;
use crate::text::{
    chars_of, decimal, digit_char, digit_value, digits_value, is_digit, parse_unsigned,
    parse_unsigned_in, push_padded, split_chars, split_on, string_of, zero_pad, NumberError,
    lemma_split_on_nonempty,
};

verus! {

/// A calendar day as written in a writing's front matter (`yyyy-mm-dd`).
#[derive(Clone, Copy, Debug, PartialEq, Eq, Structural, PartialOrd, Ord, Hash)]
pub struct DateTriple {
    pub year: u16,
    pub month: u8,
    pub day: u8,
}

/// Why a text is not a date triple.
#[derive(Clone, Copy, Debug, PartialEq, Eq, Structural)]
pub enum DateParseError {
    /// The text does not have exactly three `-`-separated parts.
    NotATriple,
    /// The first part is not a `u16`.
    Year(NumberError),
    /// The second part is not a `u8`.
    Month(NumberError),
    /// The third part is not a `u8`.
    Day(NumberError),
}

impl DateTriple {
    /// Position of the day on a time line; orders days as (year, month, day).
    pub open spec fn ordinal(self) -> int {
        self.year * 65536 + self.month * 256 + self.day
    }

    /// `yyyy-mm-dd`, each field zero-padded (`{:0>4}-{:0>2}-{:0>2}`).
    pub open spec fn text(self) -> Seq<char> {
        zero_pad(decimal(self.year as nat), 4) + seq!['-'] + zero_pad(decimal(self.month as nat), 2)
            + seq!['-'] + zero_pad(decimal(self.day as nat), 2)
    }

    /// Whether `self` comes strictly before `other`.
    pub fn is_before(&self, other: &DateTriple) -> (res: bool)
        ensures
            res == (self.ordinal() < other.ordinal()),
    {
        self.year < other.year || (self.year == other.year && (self.month < other.month || (
        self.month == other.month && self.day < other.day)))
    }

    /// Parses `yyyy-mm-dd`: three `-`-separated parts, read as `u16`, `u8`
    /// and `u8`.
    pub fn from_str(s: &str) -> (res: Result<DateTriple, DateParseError>)
        ensures
            res == date_from_text(s@),
    {
        let cs = chars_of(s);
        let parts = split_chars(&cs, '-');
        if parts.len() != 3 {
            return Err(DateParseError::NotATriple);
        }
        assert(parts[0]@.subrange(0, parts[0]@.len() as int) == parts[0]@);
        assert(parts[1]@.subrange(0, parts[1]@.len() as int) == parts[1]@);
        assert(parts[2]@.subrange(0, parts[2]@.len() as int) == parts[2]@);
        let year = match parse_unsigned_in(&parts[0], 0, parts[0].len(), 0xffff) {
            Ok(v) => v,
            Err(e) => {
                return Err(DateParseError::Year(e));
            },
        };
        let month = match parse_unsigned_in(&parts[1], 0, parts[1].len(), 0xff) {
            Ok(v) => v,
            Err(e) => {
                return Err(DateParseError::Month(e));
            },
        };
        let day = match parse_unsigned_in(&parts[2], 0, parts[2].len(), 0xff) {
            Ok(v) => v,
            Err(e) => {
                return Err(DateParseError::Day(e));
            },
        };
        Ok(DateTriple { year: year as u16, month: month as u8, day: day as u8 })
    }

    /// The `yyyy-mm-dd` text of the date (its display form).
    pub fn to_string(&self) -> (res: String)
        ensures
            res@ == self.text(),
    {
        let mut out: Vec<char> = Vec::new();
        push_padded(&mut out, self.year as u32, 4);
        out.push('-');
        push_padded(&mut out, self.month as u32, 2);
        out.push('-');
        push_padded(&mut out, self.day as u32, 2);
        assert(out@ =~= self.text());
        string_of(&out)
    }

    /// The day at midnight, when it is a day of the calendar; otherwise the
    /// error names the first field out of range (month, year, then day).
    pub fn into_real_datetime(self) -> (res: Result<RealDateTime, Error>)
        ensures
            is_calendar_date(self.year as int, self.month as int, self.day as int) ==> (res matches Ok(
                r,
            ) && r@ == midnight(self)),
            !is_calendar_date(self.year as int, self.month as int, self.day as int) ==> (res matches Err(
                Error::ComponentRange(n),
            ) && n@ == date_range_component(self.year as int, self.month as int, self.day as int)),
    {
        match calendar_date_error(self.year as i32, self.month, self.day) {
            None => Ok(
                RealDateTime {
                    year: self.year,
                    month: self.month,
                    day: self.day,
                    hour: 0,
                    minute: 0,
                    second: 0,
                    nanosecond: 0,
                },
            ),
            Some(n) => Err(Error::ComponentRange(n)),
        }
    }
}

/// What `DateTriple::from_str` gives for a text.
pub open spec fn date_from_text(s: Seq<char>) -> Result<DateTriple, DateParseError> {
    let parts = split_on(s, '-');
    if parts.len() != 3 {
        Err(DateParseError::NotATriple)
    } else {
        match parse_unsigned(parts[0], 0xffff) {
            Err(e) => Err(DateParseError::Year(e)),
            Ok(y) => match parse_unsigned(parts[1], 0xff) {
                Err(e) => Err(DateParseError::Month(e)),
                Ok(m) => match parse_unsigned(parts[2], 0xff) {
                    Err(e) => Err(DateParseError::Day(e)),
                    Ok(d) => Ok(DateTriple { year: y as u16, month: m as u8, day: d as u8 }),
                },
            },
        }
    }
}

/// Reads date triples out of serialized text.
pub struct DateTripleVisitor;

impl DateTripleVisitor {
    /// Reads a date triple from a string, as `DateTriple::from_str` does.
    pub fn visit_str(&self, v: &str) -> (res: Result<DateTriple, DateParseError>)
        ensures
            res == date_from_text(v@),
    {
        DateTriple::from_str(v)
    }
}

// ---------------------------------------------------------------------------
// The proleptic Gregorian calendar
// ---------------------------------------------------------------------------

pub open spec fn is_leap_year(y: int) -> bool {
    (y % 4 == 0 && y % 100 != 0) || y % 400 == 0
}

pub open spec fn days_in_month(y: int, m: int) -> int {
    if m == 2 {
        if is_leap_year(y) {
            29
        } else {
            28
        }
    } else if m == 4 || m == 6 || m == 9 || m == 11 {
        30
    } else {
        31
    }
}

/// A day of the calendar within the years that dates can hold.
pub open spec fn is_calendar_date(y: int, m: int, d: int) -> bool {
    &&& -9999 <= y <= 9999
    &&& 1 <= m <= 12
    &&& 1 <= d <= days_in_month(y, m)
}

/// The field that the time crate names when a triple is not a day of the
/// calendar: the month is checked first, then the year, then the day.
pub open spec fn date_range_component(y: int, m: int, d: int) -> Seq<char> {
    if !(1 <= m <= 12) {
        "month"@
    } else if !(-9999 <= y <= 9999) {
        "year"@
    } else {
        "day"@
    }
}

/// The field named when the triple `d` is not a day of the calendar.
pub open spec fn date_error_name(d: DateTriple) -> Seq<char> {
    date_range_component(d.year as int, d.month as int, d.day as int)
}

/// A time of day as the time crate accepts it.
pub open spec fn is_time_of_day(h: int, m: int, s: int, ns: int) -> bool {
    &&& 0 <= h < 24
    &&& 0 <= m < 60
    &&& 0 <= s < 60
    &&& 0 <= ns < 1_000_000_000
}

/// The field that the time crate names when a time of day is out of range:
/// hour, minute, second, then nanosecond.
pub open spec fn time_range_component(h: int, m: int, s: int, ns: int) -> Seq<char> {
    if !(0 <= h < 24) {
        "hour"@
    } else if !(0 <= m < 60) {
        "minute"@
    } else if !(0 <= s < 60) {
        "second"@
    } else {
        "nanosecond"@
    }
}

/// A calendar day with a time of day.
pub struct DateTimeView {
    pub date: DateTriple,
    pub hour: u8,
    pub minute: u8,
    pub second: u8,
    pub nanosecond: u32,
}

/// The moment with these fields.
pub open spec fn moment_of(
    year: u16,
    month: u8,
    day: u8,
    hour: u8,
    minute: u8,
    second: u8,
    nanosecond: u32,
) -> DateTimeView {
    DateTimeView { date: DateTriple { year, month, day }, hour, minute, second, nanosecond }
}

/// Midnight of a day.
pub open spec fn midnight(d: DateTriple) -> DateTimeView {
    DateTimeView { date: d, hour: 0, minute: 0, second: 0, nanosecond: 0 }
}

/// A text without the `0`s at its end.
pub open spec fn trim_trailing_zeros(s: Seq<char>) -> Seq<char>
    decreases s.len(),
{
    if s.len() > 0 && s.last() == '0' {
        trim_trailing_zeros(s.drop_last())
    } else {
        s
    }
}

/// The fraction of a second in RFC 3339 text: nothing for a whole second,
/// otherwise `.` and the nine digits of the nanoseconds without trailing
/// zeros.
pub open spec fn fraction_text(ns: u32) -> Seq<char> {
    if ns == 0 {
        Seq::empty()
    } else {
        seq!['.'] + trim_trailing_zeros(zero_pad(decimal(ns as nat), 9))
    }
}

/// `yyyy-mm-ddThh:mm:ss[.f]Z`: the moment, taken as UTC, in RFC 3339 form.
pub open spec fn rfc3339_text(t: DateTimeView) -> Seq<char> {
    t.date.text() + seq!['T'] + zero_pad(decimal(t.hour as nat), 2) + seq![':'] + zero_pad(
        decimal(t.minute as nat),
        2,
    ) + seq![':'] + zero_pad(decimal(t.second as nat), 2) + fraction_text(t.nanosecond) + seq![
        'Z',
    ]
}

/// `yyyy-mm-ddT00:00:00Z`: midnight UTC of the day in RFC 3339 form.
pub open spec fn rfc3339_midnight_text(d: DateTriple) -> Seq<char> {
    rfc3339_text(midnight(d))
}

/// Calls `time::Date::from_calendar_date`, with the month number turned
/// into a `time::Month` by `Month::try_from`, and keeps the name of the
/// component that the error reports. Claimed: there is no error exactly when
/// the year is within -9999..=9999 (no `large-dates` feature), the month
/// number is 1..=12 and the day is one that the month has in that year of
/// the Gregorian calendar; the name is `month` for a month number out of
/// range, else `year` for a year out of range, else `day`.
#[verifier::external_body]
fn calendar_date_error(year: i32, month: u8, day: u8) -> (res: Option<String>)
    ensures
        res is None <==> is_calendar_date(year as int, month as int, day as int),
        res.is_some() ==> res.unwrap()@ == date_range_component(year as int, month as int, day as int),
{
    match time::Month::try_from(month) {
        Ok(m) => time::Date::from_calendar_date(year, m, day).err().map(|e| e.name().to_string()),
        Err(e) => Some(e.name().to_string()),
    }
}

/// Calls `time::Time::from_hms_nano` and keeps the name of the component
/// that the error reports. Claimed: there is no error exactly when the
/// hour is below 24, the minute and second below 60 and the nanosecond below
/// 10^9; otherwise the name is that of the first of them out of range.
#[verifier::external_body]
fn time_of_day_error(hour: u8, minute: u8, second: u8, nanosecond: u32) -> (res: Option<String>)
    ensures
        res is None <==> is_time_of_day(hour as int, minute as int, second as int, nanosecond as int),
        res.is_some() ==> res.unwrap()@ == time_range_component(
            hour as int,
            minute as int,
            second as int,
            nanosecond as int,
        ),
{
    time::Time::from_hms_nano(hour, minute, second, nanosecond).err().map(|e| e.name().to_string())
}

/// Formats a moment, taken as UTC, with `OffsetDateTime::format(&Rfc3339)`
/// (the value built by `Date::from_calendar_date`, `Time::from_hms_nano`,
/// `PrimitiveDateTime::new` and `PrimitiveDateTime::assume_utc`). Claimed:
/// for a day of the calendar with a year of at most four digits and a valid
/// time of day the text is `rfc3339_text` of the moment: the zero-padded
/// date and time, the fraction of the second without trailing zeros (none
/// when it is zero), and `Z`.
#[verifier::external_body]
fn format_rfc3339(
    year: u16,
    month: u8,
    day: u8,
    hour: u8,
    minute: u8,
    second: u8,
    nanosecond: u32,
) -> (res: Option<String>)
    requires
        is_calendar_date(year as int, month as int, day as int),
        is_time_of_day(hour as int, minute as int, second as int, nanosecond as int),
    ensures
        res.is_some(),
        res.unwrap()@ == rfc3339_text(moment_of(year, month, day, hour, minute, second, nanosecond)),
{
    let m = time::Month::try_from(month).ok()?;
    let date = time::Date::from_calendar_date(year as i32, m, day).ok()?;
    let time = time::Time::from_hms_nano(hour, minute, second, nanosecond).ok()?;
    time::PrimitiveDateTime::new(date, time)
        .assume_utc()
        .format(&time::format_description::well_known::Rfc3339)
        .ok()
}

/// A moment on a day that exists on the calendar, at a valid time of day.
#[derive(Clone, Copy, Debug)]
pub struct RealDateTime {
    year: u16,
    month: u8,
    day: u8,
    hour: u8,
    minute: u8,
    second: u8,
    nanosecond: u32,
}

impl RealDateTime {
    #[verifier::type_invariant]
    spec fn on_calendar(self) -> bool {
        &&& is_calendar_date(self.year as int, self.month as int, self.day as int)
        &&& is_time_of_day(
            self.hour as int,
            self.minute as int,
            self.second as int,
            self.nanosecond as int,
        )
    }

    pub closed spec fn moment(self) -> DateTimeView {
        DateTimeView {
            date: DateTriple { year: self.year, month: self.month, day: self.day },
            hour: self.hour,
            minute: self.minute,
            second: self.second,
            nanosecond: self.nanosecond,
        }
    }

    /// The moment at the given time of `date`, when `date` is a day of the
    /// calendar and the time is a time of day; otherwise the error names the
    /// first field out of range, the date's fields before the time's.
    pub fn new(date: DateTriple, hour: u8, minute: u8, second: u8, nanosecond: u32) -> (res: Result<
        RealDateTime,
        Error,
    >)
        ensures
            !is_calendar_date(date.year as int, date.month as int, date.day as int) ==> (res matches Err(
                Error::ComponentRange(n),
            ) && n@ == date_range_component(date.year as int, date.month as int, date.day as int)),
            is_calendar_date(date.year as int, date.month as int, date.day as int) && !is_time_of_day(
                hour as int,
                minute as int,
                second as int,
                nanosecond as int,
            ) ==> (res matches Err(Error::ComponentRange(n)) && n@ == time_range_component(
                hour as int,
                minute as int,
                second as int,
                nanosecond as int,
            )),
            is_calendar_date(date.year as int, date.month as int, date.day as int) && is_time_of_day(
                hour as int,
                minute as int,
                second as int,
                nanosecond as int,
            ) ==> (res matches Ok(r) && r@ == moment_of(date.year, date.month, date.day, hour, minute, second, nanosecond)),
    {
        if let Err(e) = date.into_real_datetime() {
            return Err(e);
        }
        match time_of_day_error(hour, minute, second, nanosecond) {
            Some(n) => Err(Error::ComponentRange(n)),
            None => Ok(
                RealDateTime {
                    year: date.year,
                    month: date.month,
                    day: date.day,
                    hour,
                    minute,
                    second,
                    nanosecond,
                },
            ),
        }
    }

    /// The day as a date triple.
    pub fn date(&self) -> (res: DateTriple)
        ensures
            res == self@.date,
            is_calendar_date(res.year as int, res.month as int, res.day as int),
    {
        proof {
            use_type_invariant(self);
        }
        DateTriple { year: self.year, month: self.month, day: self.day }
    }

    /// RFC 3339 text of this moment in UTC.
    pub fn rfc3339(&self) -> (res: String)
        ensures
            res@ == rfc3339_text(self@),
    {
        proof {
            use_type_invariant(self);
        }
        match format_rfc3339(
            self.year,
            self.month,
            self.day,
            self.hour,
            self.minute,
            self.second,
            self.nanosecond,
        ) {
            Some(s) => s,
            None => String::new(),
        }
    }
}

impl View for RealDateTime {
    type V = DateTimeView;

    open spec fn view(&self) -> DateTimeView {
        self.moment()
    }
}

// ---------------------------------------------------------------------------
// Laws
// ---------------------------------------------------------------------------

proof fn lemma_digit_char(k: nat)
    requires
        k < 10,
    ensures
        is_digit(digit_char(k)),
        digit_value(digit_char(k)) == k,
        digit_char(k) != '-',
        digit_char(k) != '+',
{
}

proof fn lemma_decimal_is_digits(n: nat)
    ensures
        decimal(n).len() >= 1,
        forall|i: int| 0 <= i < decimal(n).len() ==> is_digit(#[trigger] decimal(n)[i]),
    decreases n,
{
    if n < 10 {
        lemma_digit_char(n);
    } else {
        lemma_decimal_is_digits(n / 10);
        lemma_digit_char(n % 10);
    }
}

proof fn lemma_digits_value_decimal(n: nat, max: nat)
    requires
        n <= max,
    ensures
        digits_value(decimal(n), max) == Ok::<nat, NumberError>(n),
    decreases n,
{
    if n < 10 {
        lemma_digit_char(n);
        assert(decimal(n).drop_last() =~= Seq::<char>::empty());
        assert(digits_value(Seq::<char>::empty(), max) == Ok::<nat, NumberError>(0));
    } else {
        lemma_digits_value_decimal(n / 10, max);
        lemma_digit_char(n % 10);
        assert(decimal(n).drop_last() =~= decimal(n / 10));
        assert(decimal(n).last() == digit_char(n % 10));
        assert((n / 10) * 10 + n % 10 == n);
    }
}

proof fn lemma_digits_value_zeros(k: nat, t: Seq<char>, max: nat)
    ensures
        digits_value(Seq::new(k, |i: int| '0') + t, max) == digits_value(t, max),
    decreases t.len() + k,
{
    let z = Seq::new(k, |i: int| '0');
    if t.len() == 0 {
        assert(z + t =~= z);
        if k > 0 {
            lemma_digits_value_zeros((k - 1) as nat, t, max);
            assert(z.drop_last() =~= Seq::new((k - 1) as nat, |i: int| '0') + t);
        }
    } else {
        lemma_digits_value_zeros(k, t.drop_last(), max);
        assert((z + t).drop_last() =~= z + t.drop_last());
    }
}

proof fn lemma_padded_value(n: nat, width: nat, max: nat)
    requires
        n <= max,
    ensures
        parse_unsigned(zero_pad(decimal(n), width), max) == Ok::<nat, NumberError>(n),
        zero_pad(decimal(n), width).len() >= 1,
        forall|i: int|
            0 <= i < zero_pad(decimal(n), width).len() ==> is_digit(
                #[trigger] zero_pad(decimal(n), width)[i],
            ),
{
    lemma_decimal_is_digits(n);
    lemma_digits_value_decimal(n, max);
    let p = zero_pad(decimal(n), width);
    if decimal(n).len() < width {
        lemma_digits_value_zeros((width - decimal(n).len()) as nat, decimal(n), max);
        assert forall|i: int| 0 <= i < p.len() implies is_digit(#[trigger] p[i]) by {
            if i >= width - decimal(n).len() {
                assert(p[i] == decimal(n)[i - (width - decimal(n).len())]);
            }
        }
    }
    assert(is_digit(p[0]));
}

proof fn lemma_split_append_plain(s: Seq<char>, t: Seq<char>, sep: char)
    requires
        !t.contains(sep),
    ensures
        split_on(s + t, sep) == split_on(s, sep).update(
            split_on(s, sep).len() - 1,
            split_on(s, sep).last() + t,
        ),
    decreases t.len(),
{
    lemma_split_on_nonempty(s, sep);
    if t.len() == 0 {
        assert(s + t =~= s);
        assert(split_on(s, sep).last() + t =~= split_on(s, sep).last());
        assert(split_on(s, sep).update(split_on(s, sep).len() - 1, split_on(s, sep).last())
            =~= split_on(s, sep));
    } else {
        let t0 = t.drop_last();
        assert(!t0.contains(sep)) by {
            if t0.contains(sep) {
                let i = choose|i: int| 0 <= i < t0.len() && t0[i] == sep;
                assert(t[i] == sep);
            }
        }
        assert(t.last() != sep) by {
            assert(t[t.len() - 1] == t.last());
        }
        lemma_split_append_plain(s, t0, sep);
        assert((s + t).drop_last() =~= s + t0);
        assert((s + t).last() == t.last());
        lemma_split_on_nonempty(s + t0, sep);
        let q = split_on(s, sep);
        let p = split_on(s + t0, sep);
        assert(p == q.update(q.len() - 1, q.last() + t0));
        assert(p.len() == q.len());
        assert(p.last() == q.last() + t0);
        assert(split_on(s + t, sep) == p.update(p.len() - 1, p.last().push(t.last())));
        assert(q.last() + t0 + seq![t.last()] =~= q.last() + t);
        assert((q.last() + t0).push(t.last()) =~= q.last() + t);
        assert(p.update(p.len() - 1, p.last().push(t.last())) =~= q.update(q.len() - 1, q.last() + t));
    }
}

proof fn lemma_split_three(a: Seq<char>, b: Seq<char>, c: Seq<char>, sep: char)
    requires
        !a.contains(sep),
        !b.contains(sep),
        !c.contains(sep),
    ensures
        split_on(a + seq![sep] + b + seq![sep] + c, sep) == seq![a, b, c],
{
    let e = Seq::<char>::empty();
    lemma_split_append_plain(e, a, sep);
    assert(e + a =~= a);
    assert(split_on(e, sep) == seq![e]);
    assert(split_on(a, sep) =~= seq![a]);
    let a1 = a + seq![sep];
    assert(a1.drop_last() =~= a);
    assert(split_on(a1, sep) =~= seq![a, e]);
    lemma_split_append_plain(a1, b, sep);
    assert(e + b =~= b);
    assert(split_on(a1 + b, sep) =~= seq![a, b]);
    let b1 = a1 + b + seq![sep];
    assert(b1.drop_last() =~= a1 + b);
    assert(split_on(b1, sep) =~= seq![a, b, e]);
    lemma_split_append_plain(b1, c, sep);
    assert(e + c =~= c);
    assert(split_on(b1 + c, sep) =~= seq![a, b, c]);
    assert(a + seq![sep] + b + seq![sep] + c =~= b1 + c);
}

proof fn lemma_digits_exclude(s: Seq<char>)
    requires
        forall|i: int| 0 <= i < s.len() ==> is_digit(#[trigger] s[i]),
    ensures
        !s.contains('-'),
{
    if s.contains('-') {
        let i = choose|i: int| 0 <= i < s.len() && s[i] == '-';
        assert(is_digit(s[i]));
    }
}

/// Reading back the text of a date gives the same date: for every date
/// triple, `DateTriple::from_str` of its display text is that triple.
pub proof fn lemma_date_text_round_trip(d: DateTriple)
    ensures
        date_from_text(d.text()) == Ok::<DateTriple, DateParseError>(d),
{
    let y = zero_pad(decimal(d.year as nat), 4);
    let m = zero_pad(decimal(d.month as nat), 2);
    let dd = zero_pad(decimal(d.day as nat), 2);
    lemma_padded_value(d.year as nat, 4, 0xffff);
    lemma_padded_value(d.month as nat, 2, 0xff);
    lemma_padded_value(d.day as nat, 2, 0xff);
    lemma_digits_exclude(y);
    lemma_digits_exclude(m);
    lemma_digits_exclude(dd);
    lemma_split_three(y, m, dd, '-');
}

} // verus!
