//! Reading daily observations from the fields of one record of the
//! provider's tabular text, and the months of history to ask for.
//! Placeholders ("" and "M") and anything unreadable become absent values,
//! never zero.

use crate::seasons::{lemma_pow10_monotone, lemma_pow10_values, pow10, DailyObservation, Measurement};
use chrono::Datelike;
use crate::text::{all_digits, chars_of, digits_value, find_char, find_from, is_ascii_digit};
use vstd::prelude::*;

verus! {

/// Column of the date in a daily record.
pub const DATE_COLUMN: usize = 4;

/// Column of the mean temperature in a daily record.
pub const MEAN_TEMP_COLUMN: usize = 13;

/// Column of the total snowfall in a daily record.
pub const TOTAL_SNOW_COLUMN: usize = 21;

/// Years of history before the current one that are fetched.
pub const HISTORY_YEARS: i32 = 5;

/// The year and day of the year of a "YYYY-MM-DD" text, if it names a date.
pub uninterp spec fn iso_year_ordinal(s: Seq<char>) -> Option<(i32, u32)>;

/// Relies on chrono's `NaiveDate::parse_from_str` with "%Y-%m-%d" and on
/// `year` and `ordinal`, whose ordinal runs from 1 to 366: the result
/// depends on the text alone.
#[verifier::external_body]
fn parse_year_ordinal(s: &str) -> (r: Option<(i32, u32)>)
    ensures
        r == iso_year_ordinal(s@),
        r matches Some(p) ==> 1 <= p.1 <= 366,
{
    match chrono::NaiveDate::parse_from_str(s, "%Y-%m-%d") {
        Ok(d) => Some((d.year(), d.ordinal())),
        Err(_) => None,
    }
}

/// Most digits a measurement cell may hold; longer ones are unreadable.
pub const MAX_DIGITS: usize = 18;

/// Where the sign of a measurement cell ends.
pub open spec fn digits_start(s: Seq<char>) -> int {
    if s.len() > 0 && (s[0] == '-' || s[0] == '+') {
        1
    } else {
        0
    }
}

/// Where the digits after the point of a measurement cell begin (the end
/// of the cell when it has no point).
pub open spec fn fraction_start(s: Seq<char>) -> int {
    let dot = find_from(s, '.', digits_start(s));
    if dot < s.len() {
        dot + 1
    } else {
        s.len() as int
    }
}

/// The digits of a measurement cell, without sign and point: those before
/// the first '.' and those after it.
pub open spec fn cell_digits(s: Seq<char>) -> Seq<char> {
    s.subrange(digits_start(s), find_from(s, '.', digits_start(s))) + s.subrange(
        fraction_start(s),
        s.len() as int,
    )
}

/// A measurement read exactly from a cell: an optional sign, then digits
/// with at most one '.' among them (on either side of which digits may be
/// missing, not on both), at most 18 digits in all. The scale is the number
/// of digits after the point. Anything else, the empty text and "M" among
/// them, is absent.
pub open spec fn measurement_of(s: Seq<char>) -> Option<Measurement> {
    let digits = cell_digits(s);
    if digits.len() == 0 || digits.len() > MAX_DIGITS || !all_digits(digits) {
        None
    } else {
        let v = digits_value(digits);
        Some(
            Measurement {
                mantissa: (if s[0] == '-' {
                    -v
                } else {
                    v
                }) as i64,
                scale: (s.len() - fraction_start(s)) as u32,
            },
        )
    }
}

/// Appends the digits of `cs[lo..hi]` to `prefix`, whose value is `acc`:
/// the value of the whole, when every character is a digit.
fn fold_digits(
    cs: &Vec<char>,
    lo: usize,
    hi: usize,
    acc: u64,
    Ghost(prefix): Ghost<Seq<char>>,
) -> (r: Option<u64>)
    requires
        lo <= hi <= cs.len(),
        prefix.len() + (hi - lo) <= MAX_DIGITS,
        all_digits(prefix),
        acc == digits_value(prefix),
        acc < pow10(prefix.len()),
    ensures
        (r is Some) <==> all_digits(prefix + cs@.subrange(lo as int, hi as int)),
        r matches Some(v) ==> v == digits_value(prefix + cs@.subrange(lo as int, hi as int)) && v
            < pow10((prefix.len() + (hi - lo)) as nat),
{
    proof {
        lemma_pow10_values();
    }
    let mut acc = acc;
    let mut j = lo;
    while j < hi
        invariant
            lo <= j <= hi <= cs.len(),
            prefix.len() + (hi - lo) <= MAX_DIGITS,
            all_digits(prefix + cs@.subrange(lo as int, j as int)),
            acc == digits_value(prefix + cs@.subrange(lo as int, j as int)),
            acc < pow10((prefix.len() + (j - lo)) as nat),
            pow10(18) == 1_000_000_000_000_000_000,
        decreases hi - j,
    {
        let ghost cur = prefix + cs@.subrange(lo as int, j as int);
        let ghost next = prefix + cs@.subrange(lo as int, j as int + 1);
        let ghost all = prefix + cs@.subrange(lo as int, hi as int);
        assert(next.drop_last() =~= cur);
        assert(next.last() == cs@[j as int]);
        let c = cs[j];
        if !('0' <= c && c <= '9') {
            assert(all[prefix.len() + (j - lo)] == c);
            return None;
        }
        proof {
            lemma_pow10_monotone((prefix.len() + (j - lo) + 1) as nat, 18);
            assert(all_digits(next)) by {
                assert forall|i: int| 0 <= i < next.len() implies is_ascii_digit(
                    #[trigger] next[i],
                ) by {
                    if i < next.len() - 1 {
                        assert(next[i] == cur[i]);
                    }
                }
            }
        }
        acc = acc * 10 + (c as u32 - '0' as u32) as u64;
        j = j + 1;
    }
    Some(acc)
}

/// Reads a measurement cell exactly; see `measurement_of`.
pub fn parse_measurement(cell: &str) -> (r: Option<Measurement>)
    ensures
        r == measurement_of(cell@),
{
    let cs = chars_of(cell);
    let n = cs.len();
    let a: usize = if n > 0 && (cs[0] == '-' || cs[0] == '+') {
        1
    } else {
        0
    };
    let dot = find_char(&cs, '.', a);
    let fs: usize = if dot < n {
        dot + 1
    } else {
        n
    };
    let total = (dot - a) + (n - fs);
    if total == 0 || total > MAX_DIGITS {
        return None;
    }
    let ghost whole = cs@.subrange(a as int, dot as int);
    proof {
        lemma_pow10_values();
        assert(Seq::<char>::empty() + whole =~= whole);
        assert(digits_value(Seq::<char>::empty()) == 0);
    }
    let w = match fold_digits(&cs, a, dot, 0, Ghost(Seq::empty())) {
        None => {
            proof {
                let d = cell_digits(cs@);
                assert(d =~= whole + cs@.subrange(fs as int, n as int));
                if all_digits(d) {
                    assert forall|i: int| 0 <= i < whole.len() implies is_ascii_digit(
                        #[trigger] whole[i],
                    ) by {
                        assert(whole[i] == d[i]);
                    }
                }
            }
            return None;
        },
        Some(w) => w,
    };
    let v = match fold_digits(&cs, fs, n, w, Ghost(whole)) {
        None => {
            return None;
        },
        Some(v) => v,
    };
    proof {
        lemma_pow10_monotone(total as nat, 18);
    }
    let m = v as i64;
    let mantissa = if cs[0] == '-' {
        -m
    } else {
        m
    };
    Some(Measurement { mantissa, scale: (n - fs) as u32 })
}

/// A daily observation from a record's date, mean-temperature and snowfall
/// cells; none when the date is unreadable.
pub open spec fn observation_of(date: Seq<char>, temp: Seq<char>, snow: Seq<char>) -> Option<
    DailyObservation,
> {
    match iso_year_ordinal(date) {
        None => None,
        Some(p) => Some(
            DailyObservation {
                year: p.0,
                ordinal: p.1,
                mean_temp: measurement_of(temp),
                total_snow: measurement_of(snow),
            },
        ),
    }
}

/// Builds a daily observation from a record's date, mean-temperature and
/// snowfall cells; none when the date is unreadable.
pub fn observation_from_fields(date: &str, mean_temp: &str, total_snow: &str) -> (r: Option<
    DailyObservation,
>)
    ensures
        r == observation_of(date@, mean_temp@, total_snow@),
        r matches Some(o) ==> 1 <= o.ordinal <= 366,
{
    match parse_year_ordinal(date) {
        None => None,
        Some(p) => Some(
            DailyObservation {
                year: p.0,
                ordinal: p.1,
                mean_temp: parse_measurement(mean_temp),
                total_snow: parse_measurement(total_snow),
            },
        ),
    }
}

/// The texts of a list of strings.
pub open spec fn texts_view(fields: Seq<String>) -> Seq<Seq<char>> {
    fields.map_values(|f: String| f@)
}

/// The records of a CSV text after its header row, in order: each the
/// record's fields, or none for a record that could not be read.
pub uninterp spec fn csv_rows(text: Seq<char>) -> Seq<Option<Seq<Seq<char>>>>;

/// The texts of the rows a CSV reading gave.
pub open spec fn rows_view(rows: Seq<Option<Vec<String>>>) -> Seq<Option<Seq<Seq<char>>>> {
    rows.map_values(
        |o: Option<Vec<String>>|
            match o {
                Some(v) => Some(texts_view(v@)),
                None => None,
            },
    )
}

/// The records of a CSV text.
///
/// Relies on the csv crate's `Reader::from_reader` in its default
/// configuration (the first row is a header) and `records`, which yields
/// each later record or the error that reading it met: the result depends
/// on the text alone.
#[verifier::external_body]
fn read_csv_rows(text: &str) -> (r: Vec<Option<Vec<String>>>)
    ensures
        rows_view(r@) == csv_rows(text@),
{
    let mut rows = Vec::new();
    let mut reader = csv::Reader::from_reader(text.as_bytes());
    for result in reader.records() {
        match result {
            Ok(record) => {
                let mut fields = Vec::new();
                for field in record.iter() {
                    fields.push(field.to_string());
                }
                rows.push(Some(fields));
            },
            Err(_) => rows.push(None),
        }
    }
    rows
}

/// The daily observations that readable rows give, in order.
pub open spec fn observations_of_rows(rows: Seq<Option<Seq<Seq<char>>>>) -> Seq<DailyObservation>
    decreases rows.len(),
{
    if rows.len() == 0 {
        seq![]
    } else {
        let rest = observations_of_rows(rows.drop_last());
        match rows.last() {
            Some(fields) => match observation_of_record(fields) {
                Some(o) => rest.push(o),
                None => rest,
            },
            None => rest,
        }
    }
}

/// The daily observations of one CSV download of daily records;
/// unreadable records and records without a readable date are skipped.
pub fn read_daily_csv(text: &str) -> (r: Vec<DailyObservation>)
    ensures
        r@ == observations_of_rows(csv_rows(text@)),
{
    let rows = read_csv_rows(text);
    let mut out: Vec<DailyObservation> = Vec::new();
    let mut i: usize = 0;
    while i < rows.len()
        invariant
            i <= rows.len(),
            out@ == observations_of_rows(rows_view(rows@.take(i as int))),
        decreases rows.len() - i,
    {
        proof {
            assert(rows_view(rows@.take(i as int + 1)).drop_last() =~= rows_view(
                rows@.take(i as int),
            ));
        }
        match &rows[i] {
            Some(fields) => match observation_from_record(fields) {
                Some(o) => out.push(o),
                None => {},
            },
            None => {},
        }
        i = i + 1;
    }
    assert(rows@.take(i as int) =~= rows@);
    out
}

/// The cell of `fields` in column `i`, or the empty text past the end.
pub open spec fn cell(fields: Seq<Seq<char>>, i: int) -> Seq<char> {
    if 0 <= i < fields.len() {
        fields[i]
    } else {
        Seq::empty()
    }
}

/// A daily observation from all the fields of a record: none when the date
/// column is missing or unreadable; a missing measurement column is absent.
pub open spec fn observation_of_record(fields: Seq<Seq<char>>) -> Option<DailyObservation> {
    if fields.len() <= DATE_COLUMN {
        None
    } else {
        observation_of(
            cell(fields, DATE_COLUMN as int),
            cell(fields, MEAN_TEMP_COLUMN as int),
            cell(fields, TOTAL_SNOW_COLUMN as int),
        )
    }
}

/// Reads a daily observation from all the fields of one record.
pub fn observation_from_record(fields: &Vec<String>) -> (r: Option<DailyObservation>)
    ensures
        r == observation_of_record(texts_view(fields@)),
{
    if fields.len() <= DATE_COLUMN {
        return None;
    }
    let temp: &str = if MEAN_TEMP_COLUMN < fields.len() {
        fields[MEAN_TEMP_COLUMN].as_str()
    } else {
        ""
    };
    let snow: &str = if TOTAL_SNOW_COLUMN < fields.len() {
        fields[TOTAL_SNOW_COLUMN].as_str()
    } else {
        ""
    };
    proof {
        reveal_strlit("");
    }
    assert(temp@ == cell(texts_view(fields@), MEAN_TEMP_COLUMN as int));
    assert(snow@ == cell(texts_view(fields@), TOTAL_SNOW_COLUMN as int));
    observation_from_fields(fields[DATE_COLUMN].as_str(), temp, snow)
}

/// The (year, month) pairs to fetch up to month `end_month` of `end_year`:
/// every month of the five years before it, then its months up to that one.
pub open spec fn months_through(end_year: int, end_month: int) -> Seq<(i32, u32)> {
    Seq::new(
        (HISTORY_YEARS * 12 + end_month) as nat,
        |i: int| ((end_year - HISTORY_YEARS + i / 12) as i32, (i % 12 + 1) as u32),
    )
}

/// The (year, month) pairs of history to fetch, oldest first, up to month
/// `end_month` of `end_year`.
pub fn months_to_fetch(end_year: i32, end_month: u32) -> (r: Vec<(i32, u32)>)
    requires
        1 <= end_month <= 12,
        end_year >= i32::MIN + HISTORY_YEARS,
    ensures
        r@ == months_through(end_year as int, end_month as int),
{
    let total: usize = (HISTORY_YEARS as usize) * 12 + end_month as usize;
    let start = end_year - HISTORY_YEARS;
    let mut out: Vec<(i32, u32)> = Vec::new();
    let mut i: usize = 0;
    while i < total
        invariant
            total == HISTORY_YEARS * 12 + end_month,
            1 <= end_month <= 12,
            end_year >= i32::MIN + HISTORY_YEARS,
            start == end_year - HISTORY_YEARS,
            i <= total,
            out@ =~= months_through(end_year as int, end_month as int).take(i as int),
        decreases total - i,
    {
        assert(i / 12 <= 5) by (nonlinear_arith)
            requires
                i < 72,
        ;
        let y = start + (i / 12) as i32;
        let m = (i % 12) as u32 + 1;
        out.push((y, m));
        i = i + 1;
    }
    out
}

} // verus!
