//! The seasonal transition extractor: per calendar year, the spring
//! cold-to-warm switch day, the fall warm-to-cold switch day, and the first
//! and last snowfall days, from a station's daily observations; and their
//! collapse over years into one set of seasonal dates for the station.

use crate::calendar::{average_day_of_year, average_ordinal_label, opt_view};
use crate::sorting::{stable_sort, stable_sorted, SortKey};
use vstd::prelude::*;

verus! {

/// The mean temperature, in whole degrees Celsius, that separates cold
/// from warm days.
pub const WARM_THRESHOLD_DEGREES: i64 = 7;

/// Last day of the year at which a cold day still belongs to spring.
pub const SPRING_CUTOFF_DAY: u32 = 180;

/// First day of the year at which the fall switch is looked for.
pub const FALL_START_DAY: u32 = 182;

/// Largest scale at which the threshold is compared digit by digit; at any
/// larger scale every 64-bit mantissa lies below the threshold.
pub const MAX_SCALE: u32 = 18;

/// `10` to the power `n`.
pub open spec fn pow10(n: nat) -> int
    decreases n,
{
    if n == 0 {
        1
    } else {
        10 * pow10((n - 1) as nat)
    }
}

/// A decimal measurement, read exactly: `mantissa / 10^scale` of its unit
/// (degrees Celsius, or the source's snowfall unit).
#[derive(Debug, Clone, Copy, PartialEq, Eq)]
pub struct Measurement {
    pub mantissa: i64,
    pub scale: u32,
}

/// One day of observations at a station; a missing value is absent, never
/// zero.
#[derive(Debug, Clone, Copy, PartialEq, Eq)]
pub struct DailyObservation {
    pub year: i32,
    /// Day of the year, 1 to 366.
    pub ordinal: u32,
    pub mean_temp: Option<Measurement>,
    pub total_snow: Option<Measurement>,
}

impl SortKey for DailyObservation {
    open spec fn sort_key(&self) -> int {
        self.ordinal as int
    }

    fn key(&self) -> (k: u128) {
        self.ordinal as u128
    }
}

/// The switch and snowfall days of one year; each may be absent.
#[derive(Debug, Clone, Copy, PartialEq, Eq)]
pub struct SeasonalMetrics {
    pub spring_transition: Option<u32>,
    pub fall_transition: Option<u32>,
    pub first_snowfall: Option<u32>,
    pub last_snowfall: Option<u32>,
}

/// Whether a day's mean temperature is below the threshold.
pub open spec fn is_cold(o: DailyObservation) -> bool {
    o.mean_temp matches Some(t) && t.mantissa < WARM_THRESHOLD_DEGREES * pow10(t.scale as nat)
}

/// Whether a day's mean temperature is above the threshold.
pub open spec fn is_warm(o: DailyObservation) -> bool {
    o.mean_temp matches Some(t) && t.mantissa > WARM_THRESHOLD_DEGREES * pow10(t.scale as nat)
}

/// Whether a day had snowfall.
pub open spec fn has_snow(o: DailyObservation) -> bool {
    o.total_snow matches Some(v) && v.mantissa > 0
}

/// Index of the last of the first `n` records that is cold and on or before
/// the spring cutoff, or -1.
pub open spec fn last_spring_cold(s: Seq<DailyObservation>, n: int) -> int
    decreases n,
{
    if n <= 0 || n > s.len() {
        -1
    } else if is_cold(s[n - 1]) && s[n - 1].ordinal <= SPRING_CUTOFF_DAY {
        n - 1
    } else {
        last_spring_cold(s, n - 1)
    }
}

/// The spring switch: the day after the last cold record on or before the
/// cutoff, when a record follows it.
pub open spec fn spring_transition_of(s: Seq<DailyObservation>) -> Option<u32> {
    let i = last_spring_cold(s, s.len() as int);
    if 0 <= i && i + 1 < s.len() {
        Some(s[i + 1].ordinal)
    } else {
        None
    }
}

/// Index of the first record at or after `i`, on or after the fall start,
/// that is warm and followed by a cold record, or -1.
pub open spec fn first_fall_drop(s: Seq<DailyObservation>, i: int) -> int
    decreases s.len() - i,
{
    if i < 0 || i + 1 >= s.len() {
        -1
    } else if s[i].ordinal >= FALL_START_DAY && is_warm(s[i]) && is_cold(s[i + 1]) {
        i
    } else {
        first_fall_drop(s, i + 1)
    }
}

/// The fall switch: the last warm day before the first fall drop.
pub open spec fn fall_transition_of(s: Seq<DailyObservation>) -> Option<u32> {
    let i = first_fall_drop(s, 0);
    if i >= 0 {
        Some(s[i].ordinal)
    } else {
        None
    }
}

/// Index of the first record at or after `i` with snowfall, or -1.
pub open spec fn first_snow_from(s: Seq<DailyObservation>, i: int) -> int
    decreases s.len() - i,
{
    if i < 0 || i >= s.len() {
        -1
    } else if has_snow(s[i]) {
        i
    } else {
        first_snow_from(s, i + 1)
    }
}

/// Index of the last of the first `n` records with snowfall, or -1.
pub open spec fn last_snow_before(s: Seq<DailyObservation>, n: int) -> int
    decreases n,
{
    if n <= 0 || n > s.len() {
        -1
    } else if has_snow(s[n - 1]) {
        n - 1
    } else {
        last_snow_before(s, n - 1)
    }
}

pub open spec fn ordinal_at(s: Seq<DailyObservation>, i: int) -> Option<u32> {
    if 0 <= i < s.len() {
        Some(s[i].ordinal)
    } else {
        None
    }
}

/// The metrics of one year's records, taken in the given order.
pub open spec fn metrics_of(s: Seq<DailyObservation>) -> SeasonalMetrics {
    SeasonalMetrics {
        spring_transition: spring_transition_of(s),
        fall_transition: fall_transition_of(s),
        first_snowfall: ordinal_at(s, first_snow_from(s, 0)),
        last_snowfall: ordinal_at(s, last_snow_before(s, s.len() as int)),
    }
}

/// The powers of ten that bound measurements.
pub proof fn lemma_pow10_values()
    ensures
        pow10(18) == 1_000_000_000_000_000_000,
        pow10(19) == 10_000_000_000_000_000_000,
{
    assert(pow10(0) == 1);
    assert(pow10(1) == 10);
    assert(pow10(2) == 100);
    assert(pow10(3) == 1000);
    assert(pow10(4) == 10000);
    assert(pow10(5) == 100000);
    assert(pow10(6) == 1000000);
    assert(pow10(7) == 10000000);
    assert(pow10(8) == 100000000);
    assert(pow10(9) == 1000000000);
    assert(pow10(10) == 10000000000);
    assert(pow10(11) == 100000000000);
    assert(pow10(12) == 1000000000000);
    assert(pow10(13) == 10000000000000);
    assert(pow10(14) == 100000000000000);
    assert(pow10(15) == 1000000000000000);
    assert(pow10(16) == 10000000000000000);
    assert(pow10(17) == 100000000000000000);
    assert(pow10(18) == 1000000000000000000);
    assert(pow10(19) == 10000000000000000000);
}

pub proof fn lemma_pow10_monotone(a: nat, b: nat)
    requires
        a <= b,
    ensures
        1 <= pow10(a) <= pow10(b),
    decreases b,
{
    if a < b {
        lemma_pow10_monotone(a, (b - 1) as nat);
    } else if a > 0 {
        lemma_pow10_monotone((a - 1) as nat, (a - 1) as nat);
    }
}

/// The threshold in units of `10^-scale` degrees, where it fits.
fn scaled_threshold(scale: u32) -> (r: i128)
    requires
        scale <= MAX_SCALE,
    ensures
        r == WARM_THRESHOLD_DEGREES * pow10(scale as nat),
{
    proof {
        lemma_pow10_values();
    }
    let mut p: i128 = 1;
    let mut i: u32 = 0;
    while i < scale
        invariant
            i <= scale <= MAX_SCALE,
            p == pow10(i as nat),
            pow10(18) == 1_000_000_000_000_000_000,
        decreases scale - i,
    {
        proof {
            lemma_pow10_monotone((i + 1) as nat, 18);
        }
        p = p * 10;
        i = i + 1;
    }
    proof {
        lemma_pow10_monotone(scale as nat, 18);
    }
    (WARM_THRESHOLD_DEGREES as i128) * p
}

/// A mantissa past `MAX_SCALE` is always below the scaled threshold.
proof fn lemma_large_scale(t: Measurement)
    requires
        t.scale > MAX_SCALE,
    ensures
        t.mantissa < WARM_THRESHOLD_DEGREES * pow10(t.scale as nat),
{
    lemma_pow10_values();
    lemma_pow10_monotone(19, t.scale as nat);
}

fn is_cold_exec(o: &DailyObservation) -> (r: bool)
    ensures
        r == is_cold(*o),
{
    match o.mean_temp {
        Some(t) => {
            if t.scale > MAX_SCALE {
                proof {
                    lemma_large_scale(t);
                }
                true
            } else {
                (t.mantissa as i128) < scaled_threshold(t.scale)
            }
        },
        None => false,
    }
}

fn is_warm_exec(o: &DailyObservation) -> (r: bool)
    ensures
        r == is_warm(*o),
{
    match o.mean_temp {
        Some(t) => {
            if t.scale > MAX_SCALE {
                proof {
                    lemma_large_scale(t);
                }
                false
            } else {
                (t.mantissa as i128) > scaled_threshold(t.scale)
            }
        },
        None => false,
    }
}

fn has_snow_exec(o: &DailyObservation) -> (r: bool)
    ensures
        r == has_snow(*o),
{
    match o.total_snow {
        Some(v) => v.mantissa > 0,
        None => false,
    }
}

/// The day after the last cold record (below the threshold) on or before
/// the spring cutoff, when a record follows it; records in date order.
pub fn spring_transition(records: &Vec<DailyObservation>) -> (r: Option<u32>)
    ensures
        r == spring_transition_of(records@),
{
    let n = records.len();
    let mut last: Option<usize> = None;
    let mut i: usize = 0;
    while i < n
        invariant
            n == records.len(),
            i <= n,
            match last {
                None => last_spring_cold(records@, i as int) == -1,
                Some(j) => last_spring_cold(records@, i as int) == j && j < i,
            },
        decreases n - i,
    {
        if is_cold_exec(&records[i]) && records[i].ordinal <= SPRING_CUTOFF_DAY {
            last = Some(i);
        }
        i = i + 1;
    }
    match last {
        Some(idx) => {
            if idx + 1 < n {
                Some(records[idx + 1].ordinal)
            } else {
                None
            }
        },
        None => None,
    }
}

/// The last warm day (above the threshold) on or after the fall start that
/// is followed by a cold record; the earliest such pair wins. Records with
/// a missing temperature never form a pair.
pub fn fall_transition(records: &Vec<DailyObservation>) -> (r: Option<u32>)
    ensures
        r == fall_transition_of(records@),
{
    let n = records.len();
    let mut i: usize = 0;
    while i < n && i + 1 < n
        invariant
            n == records.len(),
            i <= n,
            first_fall_drop(records@, 0) == first_fall_drop(records@, i as int),
        decreases n - i,
    {
        if records[i].ordinal >= FALL_START_DAY && is_warm_exec(&records[i]) && is_cold_exec(
            &records[i + 1],
        ) {
            return Some(records[i].ordinal);
        }
        i = i + 1;
    }
    None
}

/// Day of the first record with snowfall.
pub fn first_snowfall(records: &Vec<DailyObservation>) -> (r: Option<u32>)
    ensures
        r == ordinal_at(records@, first_snow_from(records@, 0)),
{
    let mut i: usize = 0;
    while i < records.len()
        invariant
            i <= records.len(),
            first_snow_from(records@, 0) == first_snow_from(records@, i as int),
        decreases records.len() - i,
    {
        if has_snow_exec(&records[i]) {
            return Some(records[i].ordinal);
        }
        i = i + 1;
    }
    None
}

/// Day of the last record with snowfall.
pub fn last_snowfall(records: &Vec<DailyObservation>) -> (r: Option<u32>)
    ensures
        r == ordinal_at(records@, last_snow_before(records@, records@.len() as int)),
{
    let mut i: usize = records.len();
    while i > 0
        invariant
            i <= records.len(),
            last_snow_before(records@, records@.len() as int) == last_snow_before(
                records@,
                i as int,
            ),
        decreases i,
    {
        if has_snow_exec(&records[i - 1]) {
            return Some(records[i - 1].ordinal);
        }
        i = i - 1;
    }
    None
}

/// The metrics of one calendar year: its records are put in day order
/// (equal days keep their order), then scanned.
pub fn extract_year_metrics(records: Vec<DailyObservation>) -> (r: SeasonalMetrics)
    ensures
        r == metrics_of(stable_sorted(records@)),
{
    let sorted = stable_sort(records);
    SeasonalMetrics {
        spring_transition: spring_transition(&sorted),
        fall_transition: fall_transition(&sorted),
        first_snowfall: first_snowfall(&sorted),
        last_snowfall: last_snowfall(&sorted),
    }
}

/// The seasonal dates of a station, each the average over years of one
/// metric, as "YYYY-MM-DD" texts of the reference year.
#[derive(Debug, Clone)]
pub struct SeasonalDates {
    pub switch_to_summer: Option<String>,
    pub switch_to_winter: Option<String>,
    pub first_snowfall: Option<String>,
    pub last_snowfall: Option<String>,
}

/// The distinct years of `s`, in order of first appearance.
pub open spec fn years_in(s: Seq<DailyObservation>) -> Seq<i32>
    decreases s.len(),
{
    if s.len() == 0 {
        seq![]
    } else {
        let ys = years_in(s.drop_last());
        if ys.contains(s.last().year) {
            ys
        } else {
            ys.push(s.last().year)
        }
    }
}

/// The records of `s` in year `y`, in their order.
pub open spec fn records_of_year(s: Seq<DailyObservation>, y: i32) -> Seq<DailyObservation>
    decreases s.len(),
{
    if s.len() == 0 {
        seq![]
    } else {
        let r = records_of_year(s.drop_last(), y);
        if s.last().year == y {
            r.push(s.last())
        } else {
            r
        }
    }
}

/// The metrics of each year of `s`, years in order of first appearance.
pub open spec fn yearly_metrics(s: Seq<DailyObservation>) -> Seq<SeasonalMetrics> {
    years_in(s).map_values(|y: i32| metrics_of(stable_sorted(records_of_year(s, y))))
}

/// One of the four metrics: 0 spring switch, 1 fall switch, 2 first
/// snowfall, 3 last snowfall.
pub open spec fn metric_day(m: SeasonalMetrics, which: int) -> Option<u32> {
    if which == 0 {
        m.spring_transition
    } else if which == 1 {
        m.fall_transition
    } else if which == 2 {
        m.first_snowfall
    } else {
        m.last_snowfall
    }
}

/// The days that one metric has over the years, in order, skipping years
/// where it is absent.
pub open spec fn present_days(ms: Seq<SeasonalMetrics>, which: int) -> Seq<i32>
    decreases ms.len(),
{
    if ms.len() == 0 {
        seq![]
    } else {
        let rest = present_days(ms.drop_last(), which);
        match metric_day(ms.last(), which) {
            Some(d) => rest.push(d as i32),
            None => rest,
        }
    }
}

/// The station's average of one metric over the years of `s`.
pub open spec fn seasonal_average(s: Seq<DailyObservation>, which: int) -> Option<Seq<char>> {
    average_ordinal_label(present_days(yearly_metrics(s), which))
}

fn metric_day_exec(m: &SeasonalMetrics, which: u8) -> (r: Option<u32>)
    ensures
        r == metric_day(*m, which as int),
{
    if which == 0 {
        m.spring_transition
    } else if which == 1 {
        m.fall_transition
    } else if which == 2 {
        m.first_snowfall
    } else {
        m.last_snowfall
    }
}

/// The distinct years of `records`, in order of first appearance.
pub fn distinct_years(records: &Vec<DailyObservation>) -> (r: Vec<i32>)
    ensures
        r@ == years_in(records@),
{
    let mut years: Vec<i32> = Vec::new();
    let mut i: usize = 0;
    while i < records.len()
        invariant
            i <= records.len(),
            years@ == years_in(records@.take(i as int)),
        decreases records.len() - i,
    {
        let y = records[i].year;
        let mut found = false;
        let mut g: usize = 0;
        while g < years.len()
            invariant
                g <= years.len(),
                found == years@.take(g as int).contains(y),
            decreases years.len() - g,
        {
            if years[g] == y {
                found = true;
            }
            proof {
                let t = years@.take(g as int + 1);
                let p = years@.take(g as int);
                assert(t =~= p.push(years@[g as int]));
                if p.contains(y) {
                    let k = choose|k: int| 0 <= k < p.len() && p[k] == y;
                    assert(t[k] == y);
                }
                if years@[g as int] == y {
                    assert(t[g as int] == y);
                }
                if t.contains(y) {
                    let k = choose|k: int| 0 <= k < t.len() && t[k] == y;
                    if k < g {
                        assert(p[k] == y);
                    }
                }
            }
            g = g + 1;
        }
        assert(years@.take(g as int) =~= years@);
        proof {
            assert(records@.take(i as int + 1).drop_last() =~= records@.take(i as int));
        }
        if !found {
            years.push(y);
        }
        i = i + 1;
    }
    assert(records@.take(i as int) =~= records@);
    years
}

/// The records of `records` in year `y`, in their order.
pub fn year_records(records: &Vec<DailyObservation>, y: i32) -> (r: Vec<DailyObservation>)
    ensures
        r@ == records_of_year(records@, y),
{
    let mut out: Vec<DailyObservation> = Vec::new();
    let mut i: usize = 0;
    while i < records.len()
        invariant
            i <= records.len(),
            out@ == records_of_year(records@.take(i as int), y),
        decreases records.len() - i,
    {
        proof {
            assert(records@.take(i as int + 1).drop_last() =~= records@.take(i as int));
        }
        if records[i].year == y {
            out.push(records[i]);
        }
        i = i + 1;
    }
    assert(records@.take(i as int) =~= records@);
    out
}

/// The metrics of each year of `records`, years in order of first appearance.
pub fn metrics_by_year(records: &Vec<DailyObservation>) -> (r: Vec<SeasonalMetrics>)
    ensures
        r@ == yearly_metrics(records@),
{
    let years = distinct_years(records);
    let mut out: Vec<SeasonalMetrics> = Vec::new();
    let mut g: usize = 0;
    while g < years.len()
        invariant
            g <= years.len(),
            years@ == years_in(records@),
            out@ == yearly_metrics(records@).take(g as int),
        decreases years.len() - g,
    {
        let group = year_records(records, years[g]);
        let m = extract_year_metrics(group);
        out.push(m);
        g = g + 1;
        assert(out@ =~= yearly_metrics(records@).take(g as int));
    }
    assert(out@ =~= yearly_metrics(records@));
    out
}

/// The days one metric has over the years, skipping absent ones.
fn collect_days(ms: &Vec<SeasonalMetrics>, which: u8) -> (r: Vec<i32>)
    ensures
        r@ == present_days(ms@, which as int),
{
    let mut out: Vec<i32> = Vec::new();
    let mut i: usize = 0;
    while i < ms.len()
        invariant
            i <= ms.len(),
            out@ == present_days(ms@.take(i as int), which as int),
        decreases ms.len() - i,
    {
        proof {
            assert(ms@.take(i as int + 1).drop_last() =~= ms@.take(i as int));
        }
        match metric_day_exec(&ms[i], which) {
            Some(d) => out.push(d as i32),
            None => {},
        }
        i = i + 1;
    }
    assert(ms@.take(i as int) =~= ms@);
    out
}

/// Collapses a station's daily history into its seasonal dates: records
/// are grouped by calendar year, each year's metrics extracted, and each
/// metric averaged over the years where it is present. None for no records.
pub fn summarize_station(records: &Vec<DailyObservation>) -> (r: Option<SeasonalDates>)
    ensures
        (r is None) <==> records@.len() == 0,
        r matches Some(d) ==> {
            &&& opt_view(d.switch_to_summer) == seasonal_average(records@, 0)
            &&& opt_view(d.switch_to_winter) == seasonal_average(records@, 1)
            &&& opt_view(d.first_snowfall) == seasonal_average(records@, 2)
            &&& opt_view(d.last_snowfall) == seasonal_average(records@, 3)
        },
{
    if records.len() == 0 {
        return None;
    }
    let ms = metrics_by_year(records);
    let summer = collect_days(&ms, 0);
    let winter = collect_days(&ms, 1);
    let first = collect_days(&ms, 2);
    let last = collect_days(&ms, 3);
    Some(
        SeasonalDates {
            switch_to_summer: average_day_of_year(summer.as_slice()),
            switch_to_winter: average_day_of_year(winter.as_slice()),
            first_snowfall: average_day_of_year(first.as_slice()),
            last_snowfall: average_day_of_year(last.as_slice()),
        },
    )
}

} // verus!
