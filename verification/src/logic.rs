//! Calendar dates, the Indian financial year, month names, the display form
//! of numeric fields and percent-encoding. Nothing here panics: every
//! parse is fallible and every index is in bounds.

use vstd::prelude::*;

use crate::text::{
    all_digits, digits_value, lemma_dec_digits_len, pow10, chars_of, dec_digits, fmt_int_padded, is_white_space, lemma_dec_digits, lemma_parse_i32_no_minus,
    lemma_parse_padded, lemma_split_append, lemma_split_no_sep, lemma_split_nonempty,
    lemma_split_pieces_free, lemma_trim_no_edge_space, lemma_zero_pad_digits, parse_i32,
    parse_i32_spec, parse_u32, parse_u32_spec, push_char, push_int_padded, split_chars, split_on,
    trim, trim_chars, zero_pad,
};

verus! {

// ---------------------------------------------------------------------------
// Calendar
// ---------------------------------------------------------------------------

/// Calendar date with 1-based month and day.
#[derive(Clone, Copy, Debug, PartialEq, Eq, Structural)]
pub struct Ymd {
    pub year: i32,
    pub month: u32,
    pub day: u32,
}

/// The Gregorian leap-year rule.
pub open spec fn leap_year(year: int) -> bool {
    (year % 4 == 0 && year % 100 != 0) || year % 400 == 0
}

/// Days in `month` (1-12) of `year`; 0 for any other month.
pub open spec fn month_length(year: int, month: int) -> int {
    if month == 1 || month == 3 || month == 5 || month == 7 || month == 8 || month == 10 || month
        == 12 {
        31
    } else if month == 4 || month == 6 || month == 9 || month == 11 {
        30
    } else if month == 2 {
        if leap_year(year) {
            29
        } else {
            28
        }
    } else {
        0
    }
}

impl Ymd {
    /// A real calendar date: month 1-12, day within that month.
    pub open spec fn is_valid(self) -> bool {
        &&& 1 <= self.month <= 12
        &&& 1 <= self.day <= month_length(self.year as int, self.month as int)
    }

    /// What `Ymd::new` gives.
    pub open spec fn checked(year: i32, month: u32, day: u32) -> Option<Ymd> {
        if 1 <= month <= 12 && 1 <= day <= month_length(year as int, month as int) {
            Some(Ymd { year, month, day })
        } else {
            None
        }
    }

    /// `YYYY-MM-DD`: the year zero-padded to four places (sign first), month
    /// and day to two.
    pub open spec fn text(self) -> Seq<char> {
        fmt_int_padded(self.year as int, 4) + seq!['-'] + fmt_int_padded(self.month as int, 2)
            + seq!['-'] + fmt_int_padded(self.day as int, 2)
    }

    /// What `Ymd::parse` gives: trim, split on `-` into exactly three
    /// pieces, read them as `i32`, `u32`, `u32`, then check the date.
    pub open spec fn parsed(s: Seq<char>) -> Option<Ymd> {
        let parts = split_on(trim(s), '-');
        if parts.len() != 3 {
            None
        } else {
            match (parse_i32_spec(parts[0]), parse_u32_spec(parts[1]), parse_u32_spec(parts[2])) {
                (Some(y), Some(m), Some(d)) => Ymd::checked(y, m, d),
                _ => None,
            }
        }
    }

    /// Build a validated date; `None` for impossible dates such as 31 Feb.
    pub fn new(year: i32, month: u32, day: u32) -> (r: Option<Ymd>)
        ensures
            r == Ymd::checked(year, month, day),
            r matches Some(d) ==> d.is_valid(),
    {
        if !(1 <= month && month <= 12) {
            return None;
        }
        if day == 0 || day > days_in_month(year, month) {
            return None;
        }
        Some(Ymd { year, month, day })
    }

    /// The date that a clock reading denotes: full year, 0-based month (as
    /// JavaScript counts them, January = 0) and day of the month; `None` when
    /// they do not form a real date (a month index of `u32::MAX` has no next
    /// month and gives `None` too). The year is converted to `i32` as `as`
    /// does, wrapping past `i32::MAX`.
    pub fn from_clock(full_year: u32, month_index: u32, day: u32) -> (r: Option<Ymd>)
        ensures
            r == if month_index < u32::MAX {
                Ymd::checked(full_year as i32, (month_index + 1) as u32, day)
            } else {
                None
            },
    {
        if month_index == u32::MAX {
            return None;
        }
        let year: i32 = full_year as i32;
        Ymd::new(year, month_index + 1, day)
    }

    /// Format as `YYYY-MM-DD` (the value format of `<input type="date">`).
    pub fn fmt(self) -> (s: String)
        ensures
            s@ == self.text(),
    {
        let mut out = String::new();
        push_int_padded(&mut out, self.year as i64, 4);
        push_char(&mut out, '-');
        push_int_padded(&mut out, self.month as i64, 2);
        push_char(&mut out, '-');
        push_int_padded(&mut out, self.day as i64, 2);
        assert(out@ =~= self.text());
        out
    }

    /// Parse a `YYYY-MM-DD` string; `None` for anything invalid. A date it
    /// returns is always a real one.
    pub fn parse(s: &str) -> (r: Option<Ymd>)
        ensures
            r == Ymd::parsed(s@),
            r matches Some(d) ==> d.is_valid() && d.year >= 0,
    {
        proof {
            lemma_split_pieces_free(trim(s@), '-');
            lemma_split_nonempty(trim(s@), '-');
            lemma_parse_i32_no_minus(split_on(trim(s@), '-')[0]);
        }
        let chars = chars_of(s);
        let trimmed = trim_chars(&chars);
        let parts = split_chars(&trimmed, '-');
        if parts.len() != 3 {
            return None;
        }
        let year = match parse_i32(&parts[0]) {
            Some(y) => y,
            None => return None,
        };
        let month = match parse_u32(&parts[1]) {
            Some(m) => m,
            None => return None,
        };
        let day = match parse_u32(&parts[2]) {
            Some(d) => d,
            None => return None,
        };
        Ymd::new(year, month, day)
    }
}

/// Whether `k` divides `year`.
fn divides(year: i32, k: u64) -> (b: bool)
    requires
        k == 4 || k == 100 || k == 400,
    ensures
        b == (year as int % k as int == 0),
{
    let magnitude: u64 = if year < 0 {
        (0 - (year as i64)) as u64
    } else {
        year as u64
    };
    let b: bool = magnitude % k == 0;
    proof {
        lemma_divides_magnitude(year as int, k as int);
    }
    b
}

/// `k` divides a number exactly when it divides its magnitude.
proof fn lemma_divides_magnitude(x: int, k: int)
    requires
        k > 0,
    ensures
        (x % k == 0) <==> ((if x < 0 { -x } else { x }) % k == 0),
{
    if x < 0 {
        vstd::arithmetic::div_mod::lemma_fundamental_div_mod(x, k);
        vstd::arithmetic::div_mod::lemma_fundamental_div_mod(-x, k);
        if x % k == 0 {
            let q = x / k;
            assert(-x == k * (-q)) by (nonlinear_arith)
                requires
                    x == k * q,
            ;
            vstd::arithmetic::div_mod::lemma_mod_multiples_basic(-q, k);
            assert((-q) * k == k * (-q)) by (nonlinear_arith);
        }
        if (-x) % k == 0 {
            let q = (-x) / k;
            assert(x == k * (-q)) by (nonlinear_arith)
                requires
                    -x == k * q,
            ;
            vstd::arithmetic::div_mod::lemma_mod_multiples_basic(-q, k);
            assert((-q) * k == k * (-q)) by (nonlinear_arith);
        }
    }
}

/// Gregorian leap-year rule.
pub fn is_leap_year(year: i32) -> (b: bool)
    ensures
        b == leap_year(year as int),
{
    let by4: bool = divides(year, 4);
    let by100: bool = divides(year, 100);
    let by400: bool = divides(year, 400);
    (by4 && !by100) || by400
}

/// Number of days in `month` (1-12) of `year`; 0 for an invalid month.
pub fn days_in_month(year: i32, month: u32) -> (n: u32)
    ensures
        n == month_length(year as int, month as int),
        1 <= month <= 12 ==> 28 <= n <= 31,
        !(1 <= month <= 12) ==> n == 0,
{
    if month == 1 || month == 3 || month == 5 || month == 7 || month == 8 || month == 10 || month
        == 12 {
        31
    } else if month == 4 || month == 6 || month == 9 || month == 11 {
        30
    } else if month == 2 {
        if is_leap_year(year) {
            29
        } else {
            28
        }
    } else {
        0
    }
}

/// Months since the start of year 0 up to the month of `d` (January of year
/// 0 is 0).
pub open spec fn month_number(d: Ymd) -> int {
    d.year * 12 + d.month - 1
}

/// Whether stepping back one month from `today` stays within the range of
/// `i32` years: it does unless `today` is in January of `i32::MIN`.
pub open spec fn steps_back_in_range(today: Ymd) -> bool {
    today.month == 1 ==> today.year > i32::MIN
}

/// The same day one calendar month before `today`, clamped to the last
/// day of that month. Out of range the arithmetic wraps, as it does in a
/// release build: month 0 steps back to month `u32::MAX` (which has no days,
/// so the day becomes 0), and January of `i32::MIN` to December of
/// `i32::MAX`.
pub open spec fn month_before(today: Ymd) -> Ymd {
    let year: i32 = if today.month == 1 {
        if today.year == i32::MIN {
            i32::MAX
        } else {
            (today.year - 1) as i32
        }
    } else {
        today.year
    };
    let month: u32 = if today.month == 1 {
        12
    } else if today.month == 0 {
        u32::MAX
    } else {
        (today.month - 1) as u32
    };
    let last = month_length(year as int, month as int);
    Ymd {
        year,
        month,
        day: if today.day <= last {
            today.day
        } else {
            last as u32
        },
    }
}

/// Same day one calendar month earlier, clamped to the target month's last
/// day. Examples: 31 Mar -> 28/29 Feb; 30 May -> 30 Apr; 1 Jan -> 1 Dec (prev
/// year). Defined for every `Ymd` (see `month_before`); from a real date it
/// gives a real date, exactly one month earlier unless the year would leave
/// the range of `i32`.
pub fn previous_month_clamped(today: Ymd) -> (r: Ymd)
    ensures
        r == month_before(today),
        today.is_valid() ==> r.is_valid() && r.day <= today.day,
        today.is_valid() && steps_back_in_range(today) ==> month_number(r) == month_number(today)
            - 1,
        today.is_valid() && today.day <= month_length(r.year as int, r.month as int) ==> r.day
            == today.day,
        today.is_valid() && today.day > month_length(r.year as int, r.month as int) ==> r.day
            == month_length(r.year as int, r.month as int),
        today.is_valid() ==> r.day == today.day || Ymd::checked(r.year, r.month, (r.day + 1) as u32)
            is None,
{
    let year: i32 = if today.month == 1 {
        if today.year == i32::MIN {
            i32::MAX
        } else {
            today.year - 1
        }
    } else {
        today.year
    };
    let month: u32 = if today.month == 1 {
        12
    } else if today.month == 0 {
        u32::MAX
    } else {
        today.month - 1
    };
    let last: u32 = days_in_month(year, month);
    let day: u32 = if today.day <= last {
        today.day
    } else {
        last
    };
    Ymd { year, month, day }
}

// ---------------------------------------------------------------------------
// Indian financial year (April to March)
// ---------------------------------------------------------------------------

/// Position of a calendar month in the financial year: April = 1 .. March = 12.
pub open spec fn finance_index(month: int) -> int {
    if month >= 4 {
        month - 3
    } else {
        month + 9
    }
}

/// Financial year (named by the year it starts in) of a calendar month.
pub open spec fn finance_year_of(year: int, month: int) -> int {
    if month >= 4 {
        year
    } else {
        year - 1
    }
}

/// Index of a month inside the Indian financial year: April = 1 .. March = 12.
pub fn finance_month_index(month: u32) -> (r: Option<u32>)
    ensures
        r == if 1 <= month <= 12 {
            Some(finance_index(month as int) as u32)
        } else {
            None::<u32>
        },
        r matches Some(i) ==> 1 <= i <= 12,
{
    if !(1 <= month && month <= 12) {
        return None;
    }
    Some(
        if month >= 4 {
            month - 3
        } else {
            month + 9
        },
    )
}

/// The financial year as an `i32`: `finance_year_of` when it fits, and
/// wrapping (as in a release build) when January to March of `i32::MIN`
/// would step below the range: the year before `i32::MIN` is `i32::MAX`.
pub open spec fn finance_year_i32(year: i32, month: u32) -> i32 {
    if month >= 4 {
        year
    } else if year == i32::MIN {
        i32::MAX
    } else {
        (year - 1) as i32
    }
}

/// Financial year that an invoice dated in `(year, month)` belongs to:
/// e.g. Aug 2026 -> 2026, Jan 2026 -> 2025. Defined for every year (see
/// `finance_year_i32`).
pub fn finance_year(year: i32, month: u32) -> (r: Option<i32>)
    ensures
        r == if 1 <= month <= 12 {
            Some(finance_year_i32(year, month))
        } else {
            None::<i32>
        },
        r is Some && (month >= 4 || year > i32::MIN) ==> r->0 == finance_year_of(
            year as int,
            month as int,
        ),
{
    if !(1 <= month && month <= 12) {
        return None;
    }
    Some(
        if month >= 4 {
            year
        } else if year == i32::MIN {
            i32::MAX
        } else {
            year - 1
        },
    )
}

/// The financial year and the month's index in it count the same months as
/// the calendar, three months later: a calendar month `n` months after
/// January of year 0 is `n - 3` months after April of year 0 in financial
/// terms. So two months with the same financial year and index are the same
/// month, and consecutive months have consecutive positions.
pub proof fn lemma_finance_position(year: int, month: int)
    requires
        1 <= month <= 12,
    ensures
        finance_year_of(year, month) * 12 + finance_index(month) - 1 == year * 12 + month - 1 - 3,
        1 <= finance_index(month) <= 12,
{
}

/// Distinct calendar months (month 1-12) never share a financial year and index.
pub proof fn lemma_finance_position_unique(y1: int, m1: int, y2: int, m2: int)
    requires
        1 <= m1 <= 12,
        1 <= m2 <= 12,
        finance_year_of(y1, m1) == finance_year_of(y2, m2),
        finance_index(m1) == finance_index(m2),
    ensures
        y1 == y2,
        m1 == m2,
{
    lemma_finance_position(y1, m1);
    lemma_finance_position(y2, m2);
}

/// The month lengths of the Gregorian calendar: thirty days hath September,
/// April, June and November; February has 28 days, 29 in a leap year; all
/// the rest have 31.
pub proof fn lemma_month_lengths(year: int, month: int)
    requires
        1 <= month <= 12,
    ensures
        month_length(year, month) == if month == 2 {
            if leap_year(year) {
                29int
            } else {
                28int
            }
        } else {
            seq![31int, 0, 31, 30, 31, 30, 31, 31, 30, 31, 30, 31][month - 1]
        },
{
}

/// Stepping back a month keeps the day when it fits and otherwise lands on
/// the last day of the earlier month: the result is the latest day of that
/// month not after the original day.
pub proof fn lemma_month_before_clamps(today: Ymd)
    requires
        today.is_valid(),
    ensures
        month_before(today).is_valid(),
        month_before(today).day <= today.day,
        today.day <= month_length(month_before(today).year as int, month_before(today).month as int)
            ==> month_before(today).day == today.day,
        today.day > month_length(month_before(today).year as int, month_before(today).month as int)
            ==> month_before(today).day == month_length(
            month_before(today).year as int,
            month_before(today).month as int,
        ),
        month_before(today).month == if today.month == 1 {
            12
        } else {
            today.month - 1
        },
{
}

// ---------------------------------------------------------------------------
// Month names
// ---------------------------------------------------------------------------

/// Full English name of month 1-12.
pub open spec fn month_name_text(month: int) -> Seq<char> {
    if month == 1 {
        "January"@
    } else if month == 2 {
        "February"@
    } else if month == 3 {
        "March"@
    } else if month == 4 {
        "April"@
    } else if month == 5 {
        "May"@
    } else if month == 6 {
        "June"@
    } else if month == 7 {
        "July"@
    } else if month == 8 {
        "August"@
    } else if month == 9 {
        "September"@
    } else if month == 10 {
        "October"@
    } else if month == 11 {
        "November"@
    } else {
        "December"@
    }
}

/// Full English month name, or `None` for an invalid month.
pub fn month_name(month: u32) -> (r: Option<&'static str>)
    ensures
        r is Some <==> 1 <= month <= 12,
        r matches Some(name) ==> name@ == month_name_text(month as int),
{
    match month {
        1 => Some("January"),
        2 => Some("February"),
        3 => Some("March"),
        4 => Some("April"),
        5 => Some("May"),
        6 => Some("June"),
        7 => Some("July"),
        8 => Some("August"),
        9 => Some("September"),
        10 => Some("October"),
        11 => Some("November"),
        12 => Some("December"),
        _ => None,
    }
}

/// The month names, in calendar order.
pub proof fn lemma_month_names_in_order(month: int)
    requires
        1 <= month <= 12,
    ensures
        month_name_text(month) == seq![
            "January"@,
            "February"@,
            "March"@,
            "April"@,
            "May"@,
            "June"@,
            "July"@,
            "August"@,
            "September"@,
            "October"@,
            "November"@,
            "December"@,
        ][month - 1],
{
}

/// Different months have different names.
pub proof fn lemma_month_names_distinct(m1: int, m2: int)
    requires
        1 <= m1 <= 12,
        1 <= m2 <= 12,
        m1 != m2,
    ensures
        month_name_text(m1) != month_name_text(m2),
{
    reveal_strlit("January");
    reveal_strlit("February");
    reveal_strlit("March");
    reveal_strlit("April");
    reveal_strlit("May");
    reveal_strlit("June");
    reveal_strlit("July");
    reveal_strlit("August");
    reveal_strlit("September");
    reveal_strlit("October");
    reveal_strlit("November");
    reveal_strlit("December");
    let a = month_name_text(m1);
    let b = month_name_text(m2);
    if a == b {
        assert(a.len() == b.len());
        assert(a[0] == b[0]);
        assert(a[2] == b[2]);
    }
}

// ---------------------------------------------------------------------------
// Round trip of the date format
// ---------------------------------------------------------------------------

/// Every real date of a year from 0 on reads back from its `YYYY-MM-DD`
/// form: `parse(fmt(d)) == Some(d)`. (A negative year does not: its sign is
/// taken for a separator.)
pub proof fn lemma_parse_fmt_roundtrip(d: Ymd)
    requires
        d.is_valid(),
        d.year >= 0,
    ensures
        Ymd::parsed(d.text()) == Some(d),
{
    let y = zero_pad(dec_digits(d.year as nat), 4);
    let m = zero_pad(dec_digits(d.month as nat), 2);
    let dd = zero_pad(dec_digits(d.day as nat), 2);
    lemma_parse_padded(d.year as nat, 4, i32::MAX as nat);
    lemma_parse_padded(d.month as nat, 2, u32::MAX as nat);
    lemma_parse_padded(d.day as nat, 2, u32::MAX as nat);
    lemma_dec_digits(d.year as nat);
    lemma_dec_digits(d.day as nat);
    lemma_zero_pad_digits(dec_digits(d.year as nat), 4);
    lemma_zero_pad_digits(dec_digits(d.day as nat), 2);
    let t = d.text();
    assert(t =~= y + seq!['-'] + m + seq!['-'] + dd);
    assert(t[0] == y[0]);
    assert(t.last() == dd.last());
    assert(!is_white_space(y[0]));
    assert(!is_white_space(dd.last()));
    lemma_trim_no_edge_space(t);
    lemma_split_no_sep(y, '-');
    lemma_split_append(y, '-', m);
    lemma_split_append(y + seq!['-'] + m, '-', dd);
    let parts = split_on(t, '-');
    assert(parts =~= seq![y, m, dd]);
    assert(parse_i32_spec(y) == Some(d.year)) by {
        assert(y.len() > 0);
        assert(y[0] != '-');
    }
}

/// The layout of a formatted date from years 0 to 9999: ten characters,
/// four digits of the year, `-`, two digits of the month, `-`, two digits of
/// the day, each piece reading as its number.
pub proof fn lemma_text_layout(d: Ymd)
    requires
        0 <= d.year < 10000,
        d.is_valid(),
    ensures
        d.text().len() == 10,
        d.text()[4] == '-',
        d.text()[7] == '-',
        all_digits(d.text().subrange(0, 4)),
        all_digits(d.text().subrange(5, 7)),
        all_digits(d.text().subrange(8, 10)),
        digits_value(d.text().subrange(0, 4)) == d.year,
        digits_value(d.text().subrange(5, 7)) == d.month,
        digits_value(d.text().subrange(8, 10)) == d.day,
{
    assert(pow10(4) == 10000) by {
        reveal_with_fuel(pow10, 5);
    }
    assert(pow10(2) == 100) by {
        reveal_with_fuel(pow10, 3);
    }
    lemma_dec_digits_len(d.year as nat, 4);
    lemma_dec_digits_len(d.month as nat, 2);
    lemma_dec_digits_len(d.day as nat, 2);
    lemma_dec_digits(d.year as nat);
    lemma_dec_digits(d.month as nat);
    lemma_dec_digits(d.day as nat);
    lemma_zero_pad_digits(dec_digits(d.year as nat), 4);
    lemma_zero_pad_digits(dec_digits(d.month as nat), 2);
    lemma_zero_pad_digits(dec_digits(d.day as nat), 2);
    let y = zero_pad(dec_digits(d.year as nat), 4);
    let m = zero_pad(dec_digits(d.month as nat), 2);
    let dd = zero_pad(dec_digits(d.day as nat), 2);
    let t = d.text();
    assert(t =~= y + seq!['-'] + m + seq!['-'] + dd);
    assert(y.len() == 4);
    assert(m.len() == 2);
    assert(dd.len() == 2);
    assert(t.subrange(0, 4) =~= y);
    assert(t.subrange(5, 7) =~= m);
    assert(t.subrange(8, 10) =~= dd);
}

/// The Gregorian rule, stated on its own: every fourth year is a leap year,
/// except the years of a century, of which every fourth is one again.
pub proof fn lemma_leap_year_rule(year: int)
    ensures
        leap_year(year) <==> (year % 4 == 0 && !(year % 100 == 0 && year % 400 != 0)),
{
}

/// `Ymd::new`'s answer, stated on its own: a date exactly when the month is
/// one of the twelve and the day lies between the first and the last of it.
pub proof fn lemma_checked_dates(year: i32, month: u32, day: u32)
    ensures
        Ymd::checked(year, month, day) is Some <==> (1 <= month <= 12 && 1 <= day && day
            <= month_length(year as int, month as int)),
        Ymd::checked(year, month, day) matches Some(x) ==> x.year == year && x.month == month
            && x.day == day && x.is_valid(),
{
}

// ---------------------------------------------------------------------------
// Display form of numeric fields
// ---------------------------------------------------------------------------

/// Whether a trimmed entry looks unfinished to a reader, though a float
/// parser would take it: it ends in `.`, `e` or `E` (as in `9.` on the way to
/// `9.5`).
pub open spec fn is_pending_entry(t: Seq<char>) -> bool {
    t.len() > 0 && (t.last() == '.' || t.last() == 'e' || t.last() == 'E')
}

/// The display form of an entry `s`, given its two-decimal rendering
/// `rounded` (`None` when it is not a non-negative finite number): an
/// unfinished entry, or one that is not a number, stays as it is; anything
/// else shows as its rendering.
pub open spec fn decimal_display(s: Seq<char>, rounded: Option<Seq<char>>) -> Seq<char> {
    if is_pending_entry(trim(s)) {
        s
    } else {
        match rounded {
            Some(t) => t,
            None => s,
        }
    }
}

/// The display form is stable: showing a displayed value again changes
/// nothing. `first` is the rendering of `s` and `second` that of the
/// displayed text; the two facts assumed of the renderings are that a text
/// renders the same each time (so an unchanged entry gets the same
/// rendering), and that a two-decimal rendering renders as itself.
pub proof fn lemma_decimal_display_stable(
    s: Seq<char>,
    first: Option<Seq<char>>,
    second: Option<Seq<char>>,
)
    requires
        decimal_display(s, first) == s ==> second == first,
        first is Some && decimal_display(s, first) == first->0 ==> second == first,
    ensures
        decimal_display(decimal_display(s, first), second) == decimal_display(s, first),
{
}

/// Display form of a user-entered numeric field (e.g. quantity or rate).
///
/// `two_decimals` is the field's amount written with exactly two decimal
/// places, when the field holds a non-negative finite number, and `None`
/// otherwise; it is computed in floating point by the caller. The result is
/// that rounded form, except that an unfinished entry (see
/// `is_pending_entry`), or one that is not a number, is returned unchanged.
///
/// Display-only: calculations keep using the unrounded values.
pub fn fmt_decimal(s: &str, two_decimals: Option<String>) -> (r: String)
    ensures
        r@ == decimal_display(
            s@,
            match two_decimals {
                Some(t) => Some(t@),
                None => None,
            },
        ),
{
    let chars = chars_of(s);
    let trimmed = trim_chars(&chars);
    let n = trimmed.len();
    if n > 0 && (trimmed[n - 1] == '.' || trimmed[n - 1] == 'e' || trimmed[n - 1] == 'E') {
        return s.to_owned();
    }
    match two_decimals {
        Some(t) => t,
        None => s.to_owned(),
    }
}

// ---------------------------------------------------------------------------
// Percent-encoding
// ---------------------------------------------------------------------------

/// Bytes that a URL carries as they are: ASCII letters, digits and `-_.~`.
pub open spec fn is_unreserved(b: u8) -> bool {
    ||| (65 <= b <= 90)
    ||| (97 <= b <= 122)
    ||| (48 <= b <= 57)
    ||| b == 45
    ||| b == 95
    ||| b == 46
    ||| b == 126
}

/// Uppercase hexadecimal digit of `n` (0-15).
pub open spec fn hex_digit(n: int) -> char {
    if n < 10 {
        (48 + n) as char
    } else {
        (55 + n) as char
    }
}

/// The text one byte becomes: itself when unreserved, else `%` and two
/// uppercase hex digits.
pub open spec fn encode_byte(b: u8) -> Seq<char> {
    if is_unreserved(b) {
        seq![b as char]
    } else {
        seq!['%', hex_digit((b / 16) as int), hex_digit((b % 16) as int)]
    }
}

/// Percent-encoding of a byte sequence, byte by byte.
pub open spec fn encode_bytes(bs: Seq<u8>) -> Seq<char>
    decreases bs.len(),
{
    if bs.len() == 0 {
        Seq::empty()
    } else {
        encode_byte(bs[0]) + encode_bytes(bs.drop_first())
    }
}

/// Encoding a concatenation encodes each part.
pub proof fn lemma_encode_bytes_append(a: Seq<u8>, b: Seq<u8>)
    ensures
        encode_bytes(a + b) == encode_bytes(a) + encode_bytes(b),
    decreases a.len(),
{
    if a.len() == 0 {
        assert(a + b =~= b);
        assert(encode_bytes(a) =~= Seq::<char>::empty());
        assert(encode_bytes(a) + encode_bytes(b) =~= encode_bytes(b));
    } else {
        assert((a + b).drop_first() =~= a.drop_first() + b);
        lemma_encode_bytes_append(a.drop_first(), b);
        assert(encode_bytes(a + b) =~= encode_bytes(a) + encode_bytes(b));
    }
}

/// Value of an uppercase hex digit, if it is one.
pub open spec fn hex_value(c: char) -> Option<u8> {
    if '0' <= c && c <= '9' {
        Some((c as int - 48) as u8)
    } else if 'A' <= c && c <= 'F' {
        Some((c as int - 55) as u8)
    } else {
        None
    }
}

/// Decoding of percent-encoded text, as a URL reader does it: `%XY` is the
/// byte with hex digits `XY`, an unreserved ASCII character is its own
/// byte, and anything else is malformed.
pub open spec fn percent_decode(cs: Seq<char>) -> Option<Seq<u8>>
    decreases cs.len(),
{
    if cs.len() == 0 {
        Some(Seq::empty())
    } else if cs[0] == '%' {
        if cs.len() >= 3 {
            match (hex_value(cs[1]), hex_value(cs[2]), percent_decode(cs.skip(3))) {
                (Some(h), Some(l), Some(rest)) => Some(seq![(h * 16 + l) as u8] + rest),
                _ => None,
            }
        } else {
            None
        }
    } else if (cs[0] as int) < 256 && is_unreserved(cs[0] as int as u8) {
        match percent_decode(cs.drop_first()) {
            Some(rest) => Some(seq![cs[0] as int as u8] + rest),
            None => None,
        }
    } else {
        None
    }
}

/// Decoding undoes encoding: every byte sequence comes back from its
/// percent-encoded text.
pub proof fn lemma_percent_roundtrip(bs: Seq<u8>)
    ensures
        percent_decode(encode_bytes(bs)) == Some(bs),
    decreases bs.len(),
{
    if bs.len() == 0 {
        assert(encode_bytes(bs) =~= Seq::<char>::empty());
        assert(bs =~= Seq::<u8>::empty());
    } else {
        let b = bs[0];
        let e = encode_byte(b);
        let rest = encode_bytes(bs.drop_first());
        lemma_percent_roundtrip(bs.drop_first());
        let cs = e + rest;
        assert(encode_bytes(bs) == cs);
        if is_unreserved(b) {
            assert(cs[0] == b as char);
            assert(cs.drop_first() =~= rest);
            assert(cs[0] as int as u8 == b);
        } else {
            let h = b / 16;
            let l = b % 16;
            assert(cs[0] == '%');
            assert(cs[1] == hex_digit(h as int));
            assert(cs[2] == hex_digit(l as int));
            assert(cs.skip(3) =~= rest);
            assert(hex_value(hex_digit(h as int)) == Some(h));
            assert(hex_value(hex_digit(l as int)) == Some(l));
            assert(h * 16 + l == b);
        }
        assert(seq![b] + bs.drop_first() =~= bs);
    }
}

/// Percent-encode a string so it can be embedded in a `data:` URL: each
/// UTF-8 byte is kept when unreserved and written `%XY` otherwise.
pub fn percent_encode(input: &str) -> (out: String)
    ensures
        out@ == encode_bytes(vstd::utf8::encode_utf8(input@)),
{
    let bytes = input.as_bytes();
    let mut out = String::new();
    let ghost bs = bytes@;
    assert(bs.take(0) =~= Seq::<u8>::empty());
    assert(out@ =~= encode_bytes(bs.take(0)));
    for i in 0..bytes.len()
        invariant
            bs == bytes@,
            out@ == encode_bytes(bs.take(i as int)),
    {
        let b = bytes[i];
        proof {
            assert(bs.take(i + 1) =~= bs.take(i as int) + seq![b]);
            lemma_encode_bytes_append(bs.take(i as int), seq![b]);
            assert(seq![b].drop_first() =~= Seq::<u8>::empty());
            assert(encode_bytes(seq![b].drop_first()) =~= Seq::<char>::empty());
            assert(encode_bytes(seq![b]) =~= encode_byte(b) + encode_bytes(seq![b].drop_first()));
            assert(encode_bytes(seq![b]) =~= encode_byte(b));
        }
        if (65 <= b && b <= 90) || (97 <= b && b <= 122) || (48 <= b && b <= 57) || b == 45 || b
            == 95 || b == 46 || b == 126 {
            push_char(&mut out, b as char);
        } else {
            push_char(&mut out, '%');
            push_char(&mut out, hex_char(b / 16));
            push_char(&mut out, hex_char(b % 16));
        }
        assert(out@ =~= encode_bytes(bs.take(i + 1)));
    }
    assert(bs.take(bs.len() as int) =~= bs);
    out
}

/// What each byte becomes, on its own terms: the ASCII letters and digits
/// and `-`, `_`, `.`, `~` stay as they are; every other byte becomes `%`
/// followed by its two uppercase hexadecimal digits. An empty text encodes
/// to nothing.
pub proof fn lemma_encode_byte_explicit(b: u8)
    ensures
        encode_bytes(seq![b]) == if ('A' as u8 <= b <= 'Z' as u8) || ('a' as u8 <= b <= 'z' as u8)
            || ('0' as u8 <= b <= '9' as u8) || b == '-' as u8 || b == '_' as u8 || b == '.' as u8
            || b == '~' as u8 {
            seq![b as char]
        } else {
            seq!['%', "0123456789ABCDEF"@[(b / 16) as int], "0123456789ABCDEF"@[(b % 16) as int]]
        },
        encode_bytes(Seq::<u8>::empty()) == Seq::<char>::empty(),
{
    reveal_strlit("0123456789ABCDEF");
    assert(seq![b].drop_first() =~= Seq::<u8>::empty());
    assert(encode_bytes(seq![b].drop_first()) =~= Seq::<char>::empty());
    assert(encode_bytes(seq![b]) =~= encode_byte(b));
    let h = (b / 16) as int;
    let l = (b % 16) as int;
    assert(hex_digit(h) == "0123456789ABCDEF"@[h]);
    assert(hex_digit(l) == "0123456789ABCDEF"@[l]);
}

/// Percent-encoded text is made of URL-safe characters only: ASCII letters
/// and digits, `-`, `_`, `.`, `~` and the `%` of an escape. In particular it
/// never holds `#`, which would end a `data:` URL's content.
pub proof fn lemma_encoded_text_is_url_safe(bs: Seq<u8>)
    ensures
        forall|i: int|
            0 <= i < encode_bytes(bs).len() ==> {
                let c = #[trigger] encode_bytes(bs)[i];
                ||| ('A' <= c && c <= 'Z')
                ||| ('a' <= c && c <= 'z')
                ||| ('0' <= c && c <= '9')
                ||| c == '-'
                ||| c == '_'
                ||| c == '.'
                ||| c == '~'
                ||| c == '%'
            },
        !encode_bytes(bs).contains('#'),
    decreases bs.len(),
{
    if bs.len() > 0 {
        lemma_encoded_text_is_url_safe(bs.drop_first());
        lemma_encode_byte_explicit(bs[0]);
        reveal_strlit("0123456789ABCDEF");
        let e = encode_byte(bs[0]);
        let rest = encode_bytes(bs.drop_first());
        assert(seq![bs[0]] + bs.drop_first() =~= bs);
        lemma_encode_bytes_append(seq![bs[0]], bs.drop_first());
        let all = encode_bytes(bs);
        assert(all == encode_bytes(seq![bs[0]]) + rest);
        assert forall|i: int| 0 <= i < all.len() implies {
            let c = #[trigger] all[i];
            ||| ('A' <= c && c <= 'Z')
            ||| ('a' <= c && c <= 'z')
            ||| ('0' <= c && c <= '9')
            ||| c == '-'
            ||| c == '_'
            ||| c == '.'
            ||| c == '~'
            ||| c == '%'
        } by {
            let first = encode_bytes(seq![bs[0]]);
            if i >= first.len() {
                assert(all[i] == rest[i - first.len()]);
            } else {
                assert(all[i] == first[i]);
            }
        }
        if all.contains('#') {
            let k = choose|k: int| 0 <= k < all.len() && all[k] == '#';
            assert(all[k] == all[k]);
        }
    } else {
        assert(encode_bytes(bs) =~= Seq::<char>::empty());
    }
}

/// Uppercase hexadecimal digit of `n`.
fn hex_char(n: u8) -> (c: char)
    requires
        n < 16,
    ensures
        c == hex_digit(n as int),
{
    if n < 10 {
        (48 + n) as char
    } else {
        (55 + n) as char
    }
}

} // verus!
