//! Calendar arithmetic on the fixed non-leap calendar: day-of-year numbers,
//! the "Month Day" labels built from them, and their parsing.

use crate::text::{
    chars_of, find_char, find_from, parse_u32_in, parse_u32_spec, range_equals, skip_white,
    skip_white_exec, skip_word, skip_word_exec,
};
use vstd::prelude::*;

verus! {

/// Length of month `m` (1-based) in the fixed non-leap calendar.
pub open spec fn month_length(m: int) -> int {
    if m == 2 {
        28
    } else if m == 4 || m == 6 || m == 9 || m == 11 {
        30
    } else {
        31
    }
}

/// Number of days in the months before month `m` (1-based).
pub open spec fn days_before_month(m: int) -> int
    decreases m,
{
    if m <= 1 {
        0
    } else {
        days_before_month(m - 1) + month_length(m - 1)
    }
}

/// English name of month `m` (1-based).
pub open spec fn month_name(m: int) -> Seq<char> {
    if m == 1 {
        "January"@
    } else if m == 2 {
        "February"@
    } else if m == 3 {
        "March"@
    } else if m == 4 {
        "April"@
    } else if m == 5 {
        "May"@
    } else if m == 6 {
        "June"@
    } else if m == 7 {
        "July"@
    } else if m == 8 {
        "August"@
    } else if m == 9 {
        "September"@
    } else if m == 10 {
        "October"@
    } else if m == 11 {
        "November"@
    } else {
        "December"@
    }
}

/// The ASCII digit for `d` (0 to 9).
pub open spec fn digit_char(d: int) -> char {
    seq!['0', '1', '2', '3', '4', '5', '6', '7', '8', '9'][d]
}

/// Decimal notation of `n`, without leading zeros.
pub open spec fn decimal(n: nat) -> Seq<char>
    decreases n,
{
    if n < 10 {
        seq![digit_char(n as int)]
    } else {
        decimal(n / 10).push(digit_char((n % 10) as int))
    }
}

/// Walks the months from month `m` on, taking away each month's length from
/// `rest` until it fits: the month reached and the day within it. A month
/// past December means that `rest` ran beyond the year.
pub open spec fn month_day_from(rest: int, m: int) -> (int, int)
    decreases 13 - m,
{
    if m > 12 {
        (m, rest)
    } else if rest <= month_length(m) {
        (m, rest)
    } else {
        month_day_from(rest - month_length(m), m + 1)
    }
}

/// The "Month Day" label of a day of the year (1 to 365); day 366, which
/// the fixed non-leap calendar has no place for, is "Invalid date".
pub open spec fn date_label(day: nat) -> Seq<char> {
    if day > 365 {
        "Invalid date"@
    } else {
        let (m, d) = month_day_from(day as int, 1);
        month_name(m) + " "@ + decimal(d as nat)
    }
}

/// The month (1 to 12) whose English name is exactly `w`, or 0 for none.
pub open spec fn month_of_name(w: Seq<char>) -> int {
    if w == month_name(1) {
        1
    } else if w == month_name(2) {
        2
    } else if w == month_name(3) {
        3
    } else if w == month_name(4) {
        4
    } else if w == month_name(5) {
        5
    } else if w == month_name(6) {
        6
    } else if w == month_name(7) {
        7
    } else if w == month_name(8) {
        8
    } else if w == month_name(9) {
        9
    } else if w == month_name(10) {
        10
    } else if w == month_name(11) {
        11
    } else if w == month_name(12) {
        12
    } else {
        0
    }
}

/// Day of the year of day `day` of month `month`, where that day exists in
/// the month.
pub open spec fn day_number(month: int, day: int) -> Option<u32> {
    if 1 <= day <= month_length(month) {
        Some((days_before_month(month) + day) as u32)
    } else {
        None
    }
}

/// Day of the year written in the "Month Day" form: exactly two
/// whitespace-separated words, a full English month name and a day number.
pub open spec fn words_day_of_year(s: Seq<char>) -> Option<u32> {
    let p = skip_white(s, 0);
    let q = skip_word(s, p);
    let u = skip_white(s, q);
    let v = skip_word(s, u);
    let w = skip_white(s, v);
    let month = month_of_name(s.subrange(p, q));
    if !(p < s.len() && u < s.len() && w == s.len()) || month == 0 {
        None
    } else {
        match parse_u32_spec(s.subrange(u, v)) {
            None => None,
            Some(d) => day_number(month, d as int),
        }
    }
}

/// Day of the year that a date text gives. A text with exactly three
/// '-'-separated fields is read as year-month-day (the year field is not
/// read); an unreadable month or day there gives none, and a month outside 1
/// to 12 falls through to the "Month Day" form, as does any other text.
pub open spec fn parse_day_of_year(s: Seq<char>) -> Option<u32> {
    let a = find_from(s, '-', 0);
    let b = find_from(s, '-', a + 1);
    let e = find_from(s, '-', b + 1);
    let three_fields = a < s.len() && b < s.len() && e == s.len();
    let month = parse_u32_spec(s.subrange(a + 1, b));
    let day = parse_u32_spec(s.subrange(b + 1, s.len() as int));
    if three_fields && (month is None || day is None) {
        None
    } else if three_fields && 1 <= month.unwrap() <= 12 {
        day_number(month.unwrap() as int, day.unwrap() as int)
    } else {
        words_day_of_year(s)
    }
}

/// Zero-padded decimal notation of `n` in `width` digits (the lowest ones).
pub open spec fn padded(n: nat, width: nat) -> Seq<char>
    decreases width,
{
    if width == 0 {
        seq![]
    } else {
        padded(n / 10, (width - 1) as nat).push(digit_char((n % 10) as int))
    }
}

/// Whether `year` is a leap year of the Gregorian calendar.
pub open spec fn is_leap_year(year: int) -> bool {
    year % 4 == 0 && (year % 100 != 0 || year % 400 == 0)
}

/// The "YYYY-MM-DD" text of day `ordinal` of a non-leap `year`.
pub open spec fn iso_label(year: int, ordinal: int) -> Seq<char> {
    let (m, d) = month_day_from(ordinal, 1);
    padded(year as nat, 4) + "-"@ + padded(m as nat, 2) + "-"@ + padded(d as nat, 2)
}

/// The "YYYY-MM-DD" text of day `ordinal` of `year`, where such a day exists.
///
/// Relies on chrono's `NaiveDate::from_yo_opt`, which gives a date exactly
/// for ordinals 1 to 365 of a non-leap year in its range, and on its
/// `%Y-%m-%d` formatting, which writes a year from 0 to 9999 in four digits
/// and month and day in two, zero-padded.
#[verifier::external_body]
fn iso_date_of_ordinal(year: i32, ordinal: u32) -> (r: Option<String>)
    requires
        1 <= year <= 9999,
        !is_leap_year(year as int),
    ensures
        r is Some <==> 1 <= ordinal <= 365,
        r matches Some(t) ==> t@ == iso_label(year as int, ordinal as int),
{
    match chrono::NaiveDate::from_yo_opt(year, ordinal) {
        Some(d) => Some(d.format("%Y-%m-%d").to_string()),
        None => None,
    }
}

/// The days of the year that the readable texts of `dates` give, in order;
/// unreadable texts are left out.
pub open spec fn parsed_days(dates: Seq<String>) -> Seq<u32>
    decreases dates.len(),
{
    if dates.len() == 0 {
        seq![]
    } else {
        let rest = parsed_days(dates.drop_last());
        match parse_day_of_year(dates.last()@) {
            Some(d) => rest.push(d),
            None => rest,
        }
    }
}

/// Sum of a sequence of numbers.
pub open spec fn sum_u32(s: Seq<u32>) -> int
    decreases s.len(),
{
    if s.len() == 0 {
        0
    } else {
        sum_u32(s.drop_last()) + s.last()
    }
}

/// Sum of a sequence of signed numbers.
pub open spec fn sum_i32(s: Seq<i32>) -> int
    decreases s.len(),
{
    if s.len() == 0 {
        0
    } else {
        sum_i32(s.drop_last()) + s.last()
    }
}

/// Integer division rounding toward zero.
pub open spec fn trunc_div(a: int, b: int) -> int {
    if a >= 0 {
        a / b
    } else {
        -((-a) / b)
    }
}

/// The label of the arithmetic mean (rounded down) of the readable dates'
/// days of the year; none when no date is readable.
pub open spec fn average_date_label(dates: Seq<String>) -> Option<Seq<char>> {
    let days = parsed_days(dates);
    if days.len() == 0 {
        None
    } else {
        Some(date_label((sum_u32(days) / (days.len() as int)) as nat))
    }
}

/// The year in which averaged days of the year are written as dates.
pub const REFERENCE_YEAR: i32 = 2023;

/// The "YYYY-MM-DD" text, in the reference year, of the mean of `days`
/// rounded toward zero; none for no days or a mean outside 1 to 365.
pub open spec fn average_ordinal_label(days: Seq<i32>) -> Option<Seq<char>> {
    if days.len() == 0 {
        None
    } else {
        let mean = trunc_div(sum_i32(days), days.len() as int);
        if 1 <= mean <= 365 {
            Some(iso_label(REFERENCE_YEAR as int, mean))
        } else {
            None
        }
    }
}

/// The text views of an optional string.
pub open spec fn opt_view(o: Option<String>) -> Option<Seq<char>> {
    match o {
        Some(t) => Some(t@),
        None => None,
    }
}

fn month_length_exec(m: u32) -> (r: u32)
    requires
        1 <= m <= 12,
    ensures
        r == month_length(m as int),
{
    if m == 2 {
        28
    } else if m == 4 || m == 6 || m == 9 || m == 11 {
        30
    } else {
        31
    }
}

fn month_name_exec(m: u32) -> (r: &'static str)
    requires
        1 <= m <= 12,
    ensures
        r@ == month_name(m as int),
{
    if m == 1 {
        "January"
    } else if m == 2 {
        "February"
    } else if m == 3 {
        "March"
    } else if m == 4 {
        "April"
    } else if m == 5 {
        "May"
    } else if m == 6 {
        "June"
    } else if m == 7 {
        "July"
    } else if m == 8 {
        "August"
    } else if m == 9 {
        "September"
    } else if m == 10 {
        "October"
    } else if m == 11 {
        "November"
    } else {
        "December"
    }
}

fn days_before_exec(m: u32) -> (r: u32)
    requires
        1 <= m <= 12,
    ensures
        r == days_before_month(m as int),
        r <= 334,
{
    let mut total: u32 = 0;
    let mut i: u32 = 1;
    while i < m
        invariant
            1 <= i <= m <= 12,
            total == days_before_month(i as int),
            total <= 31 * (i - 1),
        decreases m - i,
    {
        total = total + month_length_exec(i);
        i = i + 1;
    }
    proof {
        reveal_with_fuel(days_before_month, 12);
        assert(days_before_month(12) == 334);
        lemma_days_before_monotone(m as int, 12);
    }
    total
}

proof fn lemma_days_before_monotone(a: int, b: int)
    requires
        1 <= a <= b,
    ensures
        days_before_month(a) <= days_before_month(b),
    decreases b - a,
{
    if a < b {
        lemma_days_before_monotone(a, b - 1);
    }
}

fn day_number_exec(month: u32, day: u32) -> (r: Option<u32>)
    requires
        1 <= month <= 12,
    ensures
        r == day_number(month as int, day as int),
{
    let before = days_before_exec(month);
    if 1 <= day && day <= month_length_exec(month) {
        Some(before + day)
    } else {
        None
    }
}

/// Every day a date gives lies within the year's 365 days.
proof fn lemma_day_number_range(month: int, day: int)
    requires
        1 <= month <= 12,
    ensures
        day_number(month, day) matches Some(v) ==> 1 <= v <= 365,
{
    lemma_days_before_monotone(month + 1, 13);
    reveal_with_fuel(days_before_month, 13);
    assert(days_before_month(13) == 365);
}

proof fn lemma_parse_day_of_year_range(s: Seq<char>)
    ensures
        parse_day_of_year(s) matches Some(v) ==> 1 <= v <= 365,
{
    let a = find_from(s, '-', 0);
    let b = find_from(s, '-', a + 1);
    let month = parse_u32_spec(s.subrange(a + 1, b));
    let day = parse_u32_spec(s.subrange(b + 1, s.len() as int));
    if month is Some && day is Some && 1 <= month.unwrap() <= 12 {
        lemma_day_number_range(month.unwrap() as int, day.unwrap() as int);
    }
    let p = skip_white(s, 0);
    let q = skip_word(s, p);
    let u = skip_white(s, q);
    let v = skip_word(s, u);
    let wm = month_of_name(s.subrange(p, q));
    if 1 <= wm <= 12 {
        if parse_u32_spec(s.subrange(u, v)) is Some {
            lemma_day_number_range(wm, parse_u32_spec(s.subrange(u, v)).unwrap() as int);
        }
    }
}

proof fn lemma_parsed_days_range(dates: Seq<String>)
    ensures
        forall|i: int|
            0 <= i < parsed_days(dates).len() ==> 1 <= #[trigger] parsed_days(dates)[i] <= 365,
    decreases dates.len(),
{
    if dates.len() > 0 {
        lemma_parsed_days_range(dates.drop_last());
        lemma_parse_day_of_year_range(dates.last()@);
        let rest = parsed_days(dates.drop_last());
        assert forall|i: int| 0 <= i < parsed_days(dates).len() implies 1 <= #[trigger] parsed_days(
            dates,
        )[i] <= 365 by {
            if i < rest.len() {
                assert(parsed_days(dates)[i] == rest[i]);
            }
        }
    }
}

/// The month whose English name is exactly `cs[lo..hi]`, or 0.
fn month_of_name_exec(cs: &Vec<char>, lo: usize, hi: usize) -> (r: u32)
    requires
        lo <= hi <= cs.len(),
    ensures
        r == month_of_name(cs@.subrange(lo as int, hi as int)),
{
    let mut m: u32 = 1;
    while m <= 12
        invariant
            1 <= m <= 13,
            lo <= hi <= cs.len(),
            forall|k: int|
                1 <= k < m ==> cs@.subrange(lo as int, hi as int) != #[trigger] month_name(k),
        decreases 13 - m,
    {
        if range_equals(cs, lo, hi, month_name_exec(m)) {
            return m;
        }
        m = m + 1;
    }
    0
}

fn words_day_of_year_exec(cs: &Vec<char>) -> (r: Option<u32>)
    ensures
        r == words_day_of_year(cs@),
{
    let p = skip_white_exec(cs, 0);
    let q = skip_word_exec(cs, p);
    let u = skip_white_exec(cs, q);
    let v = skip_word_exec(cs, u);
    let w = skip_white_exec(cs, v);
    if !(p < cs.len() && u < cs.len() && w == cs.len()) {
        return None;
    }
    let month = month_of_name_exec(cs, p, q);
    if month == 0 {
        return None;
    }
    match parse_u32_in(cs, u, v) {
        None => None,
        Some(d) => day_number_exec(month, d),
    }
}

/// Reads a date text as a day of the year on the fixed non-leap calendar:
/// "2023-04-15" (month and day of a year-month-day text) or "April 15".
pub fn parse_date_to_day_of_year(date_str: &str) -> (r: Option<u32>)
    ensures
        r == parse_day_of_year(date_str@),
{
    let cs = chars_of(date_str);
    let n = cs.len();
    let a = find_char(&cs, '-', 0);
    if a < n {
        let b = find_char(&cs, '-', a + 1);
        if b < n {
            let e = find_char(&cs, '-', b + 1);
            if e == n {
                let month = parse_u32_in(&cs, a + 1, b);
                let day = parse_u32_in(&cs, b + 1, n);
                match (month, day) {
                    (Some(m), Some(d)) => {
                        if 1 <= m && m <= 12 {
                            return day_number_exec(m, d);
                        }
                    },
                    _ => {
                        return None;
                    },
                }
            }
        }
    }
    words_day_of_year_exec(&cs)
}

proof fn lemma_sum_u32_range(s: Seq<u32>)
    requires
        forall|i: int| 0 <= i < s.len() ==> 1 <= #[trigger] s[i] <= 365,
    ensures
        s.len() <= sum_u32(s) <= s.len() * 365,
    decreases s.len(),
{
    if s.len() > 0 {
        assert(s[s.len() - 1] == s.last());
        lemma_sum_u32_range(s.drop_last());
    }
}

proof fn lemma_sum_u32_bound(s: Seq<u32>)
    ensures
        0 <= sum_u32(s) <= s.len() * (u32::MAX as int),
    decreases s.len(),
{
    if s.len() > 0 {
        lemma_sum_u32_bound(s.drop_last());
    }
}

/// The arithmetic mean, rounded down, of the days of the year that `dates`
/// give, as a "Month Day" label; none when no date is readable.
///
/// The mean is arithmetic, not circular: dates on both sides of the new
/// year (December 30 and January 2) average to mid-year (July 2).
pub fn calculate_average_date(dates: &[String]) -> (r: Option<String>)
    ensures
        opt_view(r) == average_date_label(dates@),
{
    let mut days: Vec<u32> = Vec::new();
    let mut i: usize = 0;
    while i < dates.len()
        invariant
            i <= dates@.len(),
            days@ == parsed_days(dates@.take(i as int)),
        decreases dates.len() - i,
    {
        let parsed = parse_date_to_day_of_year(dates[i].as_str());
        proof {
            assert(dates@.take(i as int + 1).drop_last() =~= dates@.take(i as int));
        }
        match parsed {
            Some(d) => days.push(d),
            None => {},
        }
        i = i + 1;
    }
    assert(dates@.take(i as int) =~= dates@);
    if days.len() == 0 {
        return None;
    }
    let mut sum: u128 = 0;
    let mut j: usize = 0;
    while j < days.len()
        invariant
            j <= days@.len(),
            sum == sum_u32(days@.take(j as int)),
        decreases days.len() - j,
    {
        proof {
            assert(days@.take(j as int + 1).drop_last() =~= days@.take(j as int));
            lemma_sum_u32_bound(days@.take(j as int));
        }
        sum = sum + days[j] as u128;
        j = j + 1;
    }
    assert(days@.take(j as int) =~= days@);
    let n = days.len() as u128;
    let mean = sum / n;
    proof {
        lemma_parsed_days_range(dates@);
        lemma_sum_u32_range(days@);
        assert(1 <= mean <= 365) by (nonlinear_arith)
            requires
                n <= sum <= n * 365,
                n > 0,
                mean == sum / n,
        ;
    }
    Some(day_of_year_to_date(mean as u32))
}

proof fn lemma_sum_i32_bound(s: Seq<i32>)
    ensures
        s.len() * (i32::MIN as int) <= sum_i32(s) <= s.len() * (i32::MAX as int),
    decreases s.len(),
{
    if s.len() > 0 {
        lemma_sum_i32_bound(s.drop_last());
    }
}

/// The mean of `days` (days of the year, one per year of records), rounded
/// toward zero, as a "YYYY-MM-DD" date of the reference year; none when
/// `days` is empty or the mean is no day of that year.
pub fn average_day_of_year(days: &[i32]) -> (r: Option<String>)
    ensures
        opt_view(r) == average_ordinal_label(days@),
{
    if days.len() == 0 {
        return None;
    }
    let mut sum: i128 = 0;
    let mut j: usize = 0;
    while j < days.len()
        invariant
            j <= days@.len(),
            sum == sum_i32(days@.take(j as int)),
        decreases days.len() - j,
    {
        proof {
            assert(days@.take(j as int + 1).drop_last() =~= days@.take(j as int));
            lemma_sum_i32_bound(days@.take(j as int));
        }
        sum = sum + days[j] as i128;
        j = j + 1;
    }
    assert(days@.take(j as int) =~= days@);
    if sum <= 0 {
        assert(trunc_div(sum as int, days@.len() as int) <= 0) by (nonlinear_arith)
            requires
                sum <= 0,
                days@.len() > 0,
        {
            if sum < 0 {
                assert((-sum) / (days@.len() as int) >= 0);
            }
        }
        return None;
    }
    let n = days.len() as u128;
    let mean = (sum as u128) / n;
    if mean < 1 || mean > 365 {
        return None;
    }
    proof {
        assert(!is_leap_year(2023));
    }
    iso_date_of_ordinal(REFERENCE_YEAR, mean as u32)
}

fn digit_str(d: u32) -> (r: &'static str)
    requires
        d < 10,
    ensures
        r@ == seq![digit_char(d as int)],
{
    proof {
        reveal_strlit("0");
        reveal_strlit("1");
        reveal_strlit("2");
        reveal_strlit("3");
        reveal_strlit("4");
        reveal_strlit("5");
        reveal_strlit("6");
        reveal_strlit("7");
        reveal_strlit("8");
        reveal_strlit("9");
    }
    let r = if d == 0 {
        "0"
    } else if d == 1 {
        "1"
    } else if d == 2 {
        "2"
    } else if d == 3 {
        "3"
    } else if d == 4 {
        "4"
    } else if d == 5 {
        "5"
    } else if d == 6 {
        "6"
    } else if d == 7 {
        "7"
    } else if d == 8 {
        "8"
    } else {
        "9"
    };
    assert(r@ =~= seq![digit_char(d as int)]);
    r
}

/// Appends the decimal notation of `n` to `s`.
fn append_decimal(s: &mut String, n: u32)
    ensures
        final(s)@ == old(s)@ + decimal(n as nat),
    decreases n,
{
    if n < 10 {
        s.append(digit_str(n));
    } else {
        append_decimal(s, n / 10);
        s.append(digit_str(n % 10));
        assert(decimal(n as nat) == decimal((n / 10) as nat).push(digit_char((n % 10) as int)));
        assert(old(s)@ + decimal(n as nat) =~= old(s)@ + decimal((n / 10) as nat) + seq![
            digit_char((n % 10) as int),
        ]);
    }
}

/// Turns a day of the year (1 to 366) back into its "Month Day" label on the
/// fixed non-leap calendar; day 366 has no place there and gives
/// "Invalid date".
pub fn day_of_year_to_date(day: u32) -> (r: String)
    requires
        1 <= day <= 366,
    ensures
        r@ == date_label(day as nat),
{
    if day == 366 {
        proof {
            reveal_strlit("Invalid date");
        }
        return String::from_str("Invalid date");
    }
    let mut remaining: u32 = day;
    let mut m: u32 = 1;
    proof {
        reveal_with_fuel(days_before_month, 13);
    }
    while m < 12 && remaining > month_length_exec(m)
        invariant
            1 <= m <= 12,
            1 <= remaining,
            remaining + days_before_month(m as int) == day,
            month_day_from(remaining as int, m as int) == month_day_from(day as int, 1),
        decreases 12 - m,
    {
        remaining = remaining - month_length_exec(m);
        m = m + 1;
    }
    proof {
        reveal_with_fuel(days_before_month, 13);
        assert(days_before_month(12) == 334);
    }
    let mut s = String::from_str(month_name_exec(m));
    s.append(" ");
    append_decimal(&mut s, remaining);
    proof {
        reveal_strlit(" ");
    }
    s
}

} // verus!
