//! Calendar dates of the proleptic Gregorian calendar, as chrono's `NaiveDate`
//! represents them, and the chrono calls the due-date logic makes.

use chrono::Datelike;
use vstd::prelude::*;

verus! {

/// A calendar date held as plain values.
#[derive(Debug, Clone, Copy, PartialEq, Eq, Structural)]
pub struct CalendarDate {
    pub year: i32,
    pub month: u32,
    pub day: u32,
}

/// The first year chrono's `NaiveDate` can hold.
pub open spec fn min_year() -> int {
    -262143
}

/// The last year chrono's `NaiveDate` can hold.
pub open spec fn max_year() -> int {
    262142
}

pub open spec fn is_leap_year(y: int) -> bool {
    (y % 4 == 0 && y % 100 != 0) || y % 400 == 0
}

pub open spec fn days_in_month(y: int, m: int) -> int {
    if m == 2 {
        if is_leap_year(y) {
            29
        } else {
            28
        }
    } else if m == 4 || m == 6 || m == 9 || m == 11 {
        30
    } else {
        31
    }
}

/// A date of the calendar that chrono can represent.
pub open spec fn is_valid_date(d: CalendarDate) -> bool {
    &&& min_year() <= d.year <= max_year()
    &&& 1 <= d.month <= 12
    &&& 1 <= d.day <= days_in_month(d.year as int, d.month as int)
}

/// Days in the years before `y` (counting from year 1).
pub open spec fn days_before_year(y: int) -> int {
    let p = y - 1;
    365 * p + p / 4 - p / 100 + p / 400
}

/// Days in the months of year `y` before month `m`.
pub open spec fn days_before_month(y: int, m: int) -> int {
    let common: int = if m == 1 {
        0
    } else if m == 2 {
        31
    } else if m == 3 {
        59
    } else if m == 4 {
        90
    } else if m == 5 {
        120
    } else if m == 6 {
        151
    } else if m == 7 {
        181
    } else if m == 8 {
        212
    } else if m == 9 {
        243
    } else if m == 10 {
        273
    } else if m == 11 {
        304
    } else {
        334
    };
    if m > 2 && is_leap_year(y) {
        common + 1
    } else {
        common
    }
}

/// The position of a date on the line of days (1 January of year 1 is day 1).
pub open spec fn day_number(d: CalendarDate) -> int {
    days_before_year(d.year as int) + days_before_month(d.year as int, d.month as int) + d.day
}

/// The last date chrono can represent.
pub open spec fn last_representable_date() -> CalendarDate {
    CalendarDate { year: 262142, month: 12, day: 31 }
}

/// The first date chrono can represent.
pub open spec fn first_representable_date() -> CalendarDate {
    CalendarDate { year: -262143i32, month: 1, day: 1 }
}

/// The calendar day before `d`.
pub open spec fn previous_day(d: CalendarDate) -> CalendarDate {
    if d.day > 1 {
        CalendarDate { year: d.year, month: d.month, day: (d.day - 1) as u32 }
    } else if d.month > 1 {
        CalendarDate {
            year: d.year,
            month: (d.month - 1) as u32,
            day: days_in_month(d.year as int, d.month - 1) as u32,
        }
    } else {
        CalendarDate { year: (d.year - 1) as i32, month: 12, day: 31 }
    }
}

/// The last day of the month of `d`.
pub open spec fn last_day_of_month(d: CalendarDate) -> CalendarDate {
    CalendarDate {
        year: d.year,
        month: d.month,
        day: days_in_month(d.year as int, d.month as int) as u32,
    }
}

/// The decimal digit character for `n` (0 to 9).
pub open spec fn digit_char(n: int) -> char {
    (48 + n) as char
}

/// The decimal text of a natural number, without leading zeros.
pub open spec fn decimal(n: nat) -> Seq<char>
    decreases n,
{
    if n < 10 {
        seq![digit_char(n as int)]
    } else {
        decimal(n / 10).push(digit_char((n % 10) as int))
    }
}

/// The decimal text of `n`, with zeros in front up to `width` characters.
pub open spec fn zero_padded(n: nat, width: nat) -> Seq<char> {
    let d = decimal(n);
    if d.len() >= width {
        d
    } else {
        Seq::new((width - d.len()) as nat, |i: int| '0') + d
    }
}

/// The text chrono writes for `%Y`: four digits within 0 to 9999, else a
/// sign followed by at least four digits.
pub open spec fn year_text(y: int) -> Seq<char> {
    if 0 <= y <= 9999 {
        zero_padded(y as nat, 4)
    } else if y < 0 {
        seq!['-'] + zero_padded((-y) as nat, 4)
    } else {
        seq!['+'] + zero_padded(y as nat, 4)
    }
}

/// The text of a date in the form `%Y-%m-%d`.
pub open spec fn date_text(d: CalendarDate) -> Seq<char> {
    year_text(d.year as int) + seq!['-'] + zero_padded(d.month as nat, 2) + seq!['-']
        + zero_padded(d.day as nat, 2)
}

/// The number of days of year `y`.
pub open spec fn days_in_year(y: int) -> int {
    if is_leap_year(y) {
        366
    } else {
        365
    }
}

/// The representable date whose day number is `n`.
pub open spec fn date_with_day_number(n: int) -> CalendarDate {
    choose|d: CalendarDate| is_valid_date(d) && day_number(d) == n
}

/// `a` comes before `b` in the calendar.
pub open spec fn is_before(a: CalendarDate, b: CalendarDate) -> bool {
    ||| a.year < b.year
    ||| a.year == b.year && a.month < b.month
    ||| a.year == b.year && a.month == b.month && a.day < b.day
}

proof fn lemma_year_step(y: int)
    ensures
        days_before_year(y + 1) == days_before_year(y) + days_in_year(y),
{
    let p = y - 1;
    assert(y / 4 == if y % 4 == 0 { p / 4 + 1 } else { p / 4 });
    assert(y / 100 == if y % 100 == 0 { p / 100 + 1 } else { p / 100 });
    assert(y / 400 == if y % 400 == 0 { p / 400 + 1 } else { p / 400 });
    if y % 100 == 0 {
        assert(y % 4 == 0);
    }
    if y % 400 == 0 {
        assert(y % 100 == 0);
    }
}

proof fn lemma_years_increase(a: int, b: int)
    requires
        a < b,
    ensures
        days_before_year(b) >= days_before_year(a) + days_in_year(a),
    decreases b - a,
{
    lemma_year_step(a);
    if a + 1 < b {
        lemma_years_increase(a + 1, b);
        lemma_year_step(a + 1);
    }
}

proof fn lemma_months_increase(y: int, a: int, b: int)
    requires
        1 <= a < b <= 12,
    ensures
        days_before_month(y, b) >= days_before_month(y, a) + days_in_month(y, a),
{
}

proof fn lemma_year_end(y: int, m: int)
    requires
        1 <= m <= 12,
    ensures
        days_before_month(y, m) + days_in_month(y, m) <= days_in_year(y),
{
}

/// Day numbers follow the order of the calendar.
pub proof fn day_number_follows_calendar(a: CalendarDate, b: CalendarDate)
    requires
        is_valid_date(a),
        is_valid_date(b),
        is_before(a, b),
    ensures
        day_number(a) < day_number(b),
{
    let (ya, yb) = (a.year as int, b.year as int);
    if a.year < b.year {
        lemma_years_increase(ya, yb);
        lemma_year_end(ya, a.month as int);
    } else if a.month < b.month {
        lemma_months_increase(ya, a.month as int, b.month as int);
    }
}

/// Two representable dates with the same day number are the same date.
pub proof fn day_number_identifies_date(a: CalendarDate, b: CalendarDate)
    requires
        is_valid_date(a),
        is_valid_date(b),
        day_number(a) == day_number(b),
    ensures
        a == b,
{
    if is_before(a, b) {
        day_number_follows_calendar(a, b);
    } else if is_before(b, a) {
        day_number_follows_calendar(b, a);
    }
}

/// The representable date with the day number of a representable date `d`
/// is `d`.
pub proof fn date_with_own_day_number(d: CalendarDate)
    requires
        is_valid_date(d),
    ensures
        date_with_day_number(day_number(d)) == d,
{
    let e = date_with_day_number(day_number(d));
    assert(is_valid_date(e) && day_number(e) == day_number(d));
    day_number_identifies_date(d, e);
}

/// `a` is not greater than `b` in the order of Rust strings: compared
/// character by character by code point, a prefix coming first.
pub open spec fn text_le(a: Seq<char>, b: Seq<char>) -> bool
    decreases a.len(),
{
    if a.len() == 0 {
        true
    } else if b.len() == 0 {
        false
    } else if a[0] != b[0] {
        (a[0] as u32) < (b[0] as u32)
    } else {
        text_le(a.drop_first(), b.drop_first())
    }
}

proof fn lemma_text_le_refl(a: Seq<char>)
    ensures
        text_le(a, a),
    decreases a.len(),
{
    if a.len() > 0 {
        lemma_text_le_refl(a.drop_first());
    }
}

proof fn lemma_text_le_first_difference(a: Seq<char>, b: Seq<char>, i: int)
    requires
        0 <= i < a.len(),
        i < b.len(),
        forall|j: int| 0 <= j < i ==> a[j] == b[j],
        (a[i] as u32) < (b[i] as u32),
    ensures
        text_le(a, b),
    decreases i,
{
    if i > 0 {
        assert(a[0] == b[0]);
        assert forall|j: int| 0 <= j < i - 1 implies a.drop_first()[j] == b.drop_first()[j] by {
            assert(a[j + 1] == b[j + 1]);
        }
        lemma_text_le_first_difference(a.drop_first(), b.drop_first(), i - 1);
    }
}

proof fn lemma_two_digits(n: nat)
    requires
        n < 100,
    ensures
        zero_padded(n, 2) == seq![digit_char(n as int / 10), digit_char(n as int % 10)],
{
    reveal_with_fuel(decimal, 2);
    if n < 10 {
        assert(zero_padded(n, 2) =~= seq![digit_char(0), digit_char(n as int)]);
    } else {
        assert(zero_padded(n, 2) =~= seq![digit_char(n as int / 10), digit_char(n as int % 10)]);
    }
}

proof fn lemma_four_digits(n: nat)
    requires
        1000 <= n <= 9999,
    ensures
        zero_padded(n, 4) == seq![
            digit_char(n as int / 1000),
            digit_char(n as int / 100 % 10),
            digit_char(n as int / 10 % 10),
            digit_char(n as int % 10),
        ],
{
    reveal_with_fuel(decimal, 4);
    assert(n / 10 / 10 == n / 100);
    assert(n / 100 / 10 == n / 1000);
    assert(decimal(n) =~= seq![
        digit_char(n as int / 1000),
        digit_char(n as int / 100 % 10),
        digit_char(n as int / 10 % 10),
        digit_char(n as int % 10),
    ]);
}

/// The ten characters of the text of a date with a four-digit year.
proof fn lemma_date_text_chars(d: CalendarDate)
    requires
        1000 <= d.year <= 9999,
        d.month < 100,
        d.day < 100,
    ensures
        date_text(d) == seq![
            digit_char(d.year as int / 1000),
            digit_char(d.year as int / 100 % 10),
            digit_char(d.year as int / 10 % 10),
            digit_char(d.year as int % 10),
            '-',
            digit_char(d.month as int / 10),
            digit_char(d.month as int % 10),
            '-',
            digit_char(d.day as int / 10),
            digit_char(d.day as int % 10),
        ],
{
    lemma_four_digits(d.year as nat);
    lemma_two_digits(d.month as nat);
    lemma_two_digits(d.day as nat);
    assert(date_text(d) =~= seq![
        digit_char(d.year as int / 1000),
        digit_char(d.year as int / 100 % 10),
        digit_char(d.year as int / 10 % 10),
        digit_char(d.year as int % 10),
        '-',
        digit_char(d.month as int / 10),
        digit_char(d.month as int % 10),
        '-',
        digit_char(d.day as int / 10),
        digit_char(d.day as int % 10),
    ]);
}

proof fn lemma_digit_order(a: int, b: int)
    requires
        0 <= a < 10,
        0 <= b < 10,
    ensures
        (digit_char(a) as u32) < (digit_char(b) as u32) <==> a < b,
        digit_char(a) == digit_char(b) <==> a == b,
{
}

proof fn lemma_four_digit_parts(n: int)
    requires
        1000 <= n <= 9999,
    ensures
        n == 1000 * (n / 1000) + 100 * (n / 100 % 10) + 10 * (n / 10 % 10) + n % 10,
        0 <= n / 1000 < 10,
        0 <= n / 100 % 10 < 10,
        0 <= n / 10 % 10 < 10,
        0 <= n % 10 < 10,
{
    let (a, b, c) = (n / 10, n / 100, n / 1000);
    assert(n == 10 * a + n % 10) by (nonlinear_arith)
        requires
            a == n / 10,
    ;
    assert(a / 10 == b) by (nonlinear_arith)
        requires
            a == n / 10,
            b == n / 100,
            n >= 0,
    ;
    assert(b / 10 == c) by (nonlinear_arith)
        requires
            b == n / 100,
            c == n / 1000,
            n >= 0,
    ;
    assert(a == 10 * b + a % 10) by (nonlinear_arith)
        requires
            b == a / 10,
    ;
    assert(b == 10 * c + b % 10) by (nonlinear_arith)
        requires
            c == b / 10,
    ;
    assert(0 <= c < 10) by (nonlinear_arith)
        requires
            c == n / 1000,
            1000 <= n <= 9999,
    ;
}

proof fn lemma_two_digit_parts(n: int)
    requires
        0 <= n < 100,
    ensures
        n == 10 * (n / 10) + n % 10,
        0 <= n / 10 < 10,
        0 <= n % 10 < 10,
{
}

/// The digits of a date with a four-digit year, with a place holder (-1) at
/// the positions of the dashes.
spec fn date_digits(d: CalendarDate) -> Seq<int> {
    seq![
        d.year as int / 1000,
        d.year as int / 100 % 10,
        d.year as int / 10 % 10,
        d.year as int % 10,
        -1,
        d.month as int / 10,
        d.month as int % 10,
        -1,
        d.day as int / 10,
        d.day as int % 10,
    ]
}

#[verifier::spinoff_prover]
#[verifier::rlimit(40)]
proof fn lemma_text_order_of_digits(x: CalendarDate, y: CalendarDate)
    requires
        1000 <= x.year <= 9999,
        1000 <= y.year <= 9999,
        x.month < 100,
        y.month < 100,
        x.day < 100,
        y.day < 100,
        is_before(x, y),
    ensures
        text_le(date_text(x), date_text(y)),
{
    lemma_date_text_chars(x);
    lemma_date_text_chars(y);
    let (a, b) = (date_text(x), date_text(y));
    let (xs, ys) = (date_digits(x), date_digits(y));
    lemma_four_digit_parts(x.year as int);
    lemma_four_digit_parts(y.year as int);
    lemma_two_digit_parts(x.month as int);
    lemma_two_digit_parts(y.month as int);
    lemma_two_digit_parts(x.day as int);
    lemma_two_digit_parts(y.day as int);
    // the first position where the digits differ, with the smaller digit in x
    let i: int = if xs[0] != ys[0] {
        0
    } else if xs[1] != ys[1] {
        1
    } else if xs[2] != ys[2] {
        2
    } else if xs[3] != ys[3] {
        3
    } else if xs[5] != ys[5] {
        5
    } else if xs[6] != ys[6] {
        6
    } else if xs[8] != ys[8] {
        8
    } else {
        9
    };
    assert(xs[i] < ys[i]);
    assert forall|j: int| 0 <= j < i implies a[j] == b[j] by {
        if j != 4 && j != 7 {
            lemma_digit_order(xs[j], ys[j]);
        }
    }
    lemma_digit_order(xs[i], ys[i]);
    lemma_text_le_first_difference(a, b, i);
}

/// Between dates with four-digit years, the order of their `%Y-%m-%d` texts
/// is the order of the calendar.
pub proof fn date_texts_follow_calendar(x: CalendarDate, y: CalendarDate)
    requires
        is_valid_date(x),
        is_valid_date(y),
        1000 <= x.year <= 9999,
        1000 <= y.year <= 9999,
        day_number(x) <= day_number(y),
    ensures
        text_le(date_text(x), date_text(y)),
{
    if x == y {
        lemma_text_le_refl(date_text(x));
    } else {
        if is_before(y, x) {
            day_number_follows_calendar(y, x);
        }
        assert(is_before(x, y));
        lemma_text_order_of_digits(x, y);
    }
}

/// What `NaiveDate::parse_from_str(s, fmt)` returns, as a calendar date.
pub uninterp spec fn date_parsed(s: Seq<char>, fmt: Seq<char>) -> Option<CalendarDate>;

/// What `NaiveDateTime::parse_from_str(s, fmt)` returns, reduced to its date.
pub uninterp spec fn datetime_date_parsed(s: Seq<char>, fmt: Seq<char>) -> Option<CalendarDate>;

/// Calls `chrono::NaiveDate::from_ymd_opt`. Claims that it gives the date
/// exactly when the year, month and day name a date chrono can represent.
#[verifier::external_body]
pub(crate) fn date_from_ymd(year: i32, month: u32, day: u32) -> (r: Option<CalendarDate>)
    ensures
        r == (if is_valid_date(CalendarDate { year, month, day }) {
            Some(CalendarDate { year, month, day })
        } else {
            None::<CalendarDate>
        }),
{
    match chrono::NaiveDate::from_ymd_opt(year, month, day) {
        Some(nd) => Some(CalendarDate { year: nd.year(), month: nd.month(), day: nd.day() }),
        None => None,
    }
}

/// Calls `chrono::NaiveDate::pred_opt`. Claims that it gives the calendar day
/// before, and nothing for the first representable date.
#[verifier::external_body]
pub(crate) fn date_before(d: CalendarDate) -> (r: Option<CalendarDate>)
    requires
        is_valid_date(d),
    ensures
        r == (if d == first_representable_date() {
            None::<CalendarDate>
        } else {
            Some(previous_day(d))
        }),
{
    let nd = chrono::NaiveDate::from_ymd_opt(d.year, d.month, d.day).unwrap();
    match nd.pred_opt() {
        Some(p) => Some(CalendarDate { year: p.year(), month: p.month(), day: p.day() }),
        None => None,
    }
}

/// Calls `chrono::NaiveDate::checked_add_signed` with `TimeDelta::days(days)`.
/// Claims that the result lies `days` days after `d`, and that there is a result
/// exactly when that day is still representable.
#[verifier::external_body]
pub(crate) fn date_plus_days(d: CalendarDate, days: u16) -> (r: Option<CalendarDate>)
    requires
        is_valid_date(d),
    ensures
        r is Some <==> day_number(d) + days <= day_number(last_representable_date()),
        r matches Some(x) ==> is_valid_date(x) && day_number(x) == day_number(d) + days,
{
    let nd = chrono::NaiveDate::from_ymd_opt(d.year, d.month, d.day).unwrap();
    match nd.checked_add_signed(chrono::TimeDelta::days(days as i64)) {
        Some(p) => Some(CalendarDate { year: p.year(), month: p.month(), day: p.day() }),
        None => None,
    }
}

/// Calls `NaiveDate::format("%Y-%m-%d")` and `to_string`. Claims the text that
/// chrono's `%Y`, `%m` and `%d` write: the year as four digits (a sign and at
/// least four digits outside 0 to 9999), month and day as two digits.
#[verifier::external_body]
pub(crate) fn date_to_text(d: CalendarDate) -> (r: String)
    requires
        is_valid_date(d),
    ensures
        r@ == date_text(d),
{
    let nd = chrono::NaiveDate::from_ymd_opt(d.year, d.month, d.day).unwrap();
    nd.format("%Y-%m-%d").to_string()
}

/// Calls `chrono::NaiveDate::parse_from_str(s, fmt)`. Claims the result is
/// named by `date_parsed`, and that a parsed date is a representable one.
#[verifier::external_body]
pub(crate) fn parse_date_with(s: &str, fmt: &str) -> (r: Option<CalendarDate>)
    ensures
        r == date_parsed(s@, fmt@),
        r matches Some(x) ==> is_valid_date(x),
{
    match chrono::NaiveDate::parse_from_str(s, fmt) {
        Ok(nd) => Some(CalendarDate { year: nd.year(), month: nd.month(), day: nd.day() }),
        Err(_) => None,
    }
}

/// Calls `chrono::NaiveDateTime::parse_from_str(s, fmt)` and keeps the date.
/// Claims the result is named by `datetime_date_parsed`, and that a parsed
/// date is a representable one.
#[verifier::external_body]
pub(crate) fn parse_datetime_date_with(s: &str, fmt: &str) -> (r: Option<CalendarDate>)
    ensures
        r == datetime_date_parsed(s@, fmt@),
        r matches Some(x) ==> is_valid_date(x),
{
    match chrono::NaiveDateTime::parse_from_str(s, fmt) {
        Ok(dt) => {
            let nd = dt.date();
            Some(CalendarDate { year: nd.year(), month: nd.month(), day: nd.day() })
        },
        Err(_) => None,
    }
}

} // verus!
