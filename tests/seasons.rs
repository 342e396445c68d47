use tireswap::observations::{
    months_to_fetch, observation_from_fields, observation_from_record, parse_measurement,
    read_daily_csv,
};
use tireswap::seasons::{
    extract_year_metrics, fall_transition, first_snowfall, last_snowfall, spring_transition,
    summarize_station, DailyObservation, Measurement, SeasonalMetrics,
};

fn m(mantissa: i64, scale: u32) -> Measurement {
    Measurement { mantissa, scale }
}

/// A day with temperature and snowfall given in tenths.
fn day(year: i32, ordinal: u32, temp: Option<i64>, snow: Option<i64>) -> DailyObservation {
    DailyObservation {
        year,
        ordinal,
        mean_temp: temp.map(|t| m(t, 1)),
        total_snow: snow.map(|v| m(v, 1)),
    }
}

/// Cold (0.0) through day `warm_from - 1`, warm (15.0) through `cold_from - 1`,
/// cold after; snow on the listed days.
fn synthetic_year(year: i32, warm_from: u32, cold_from: u32, snow_days: &[u32]) -> Vec<DailyObservation> {
    (1..=365)
        .map(|d| {
            let t = if d >= warm_from && d < cold_from { 150 } else { 0 };
            let s = if snow_days.contains(&d) { Some(25) } else { Some(0) };
            day(year, d, Some(t), s)
        })
        .collect()
}

#[test]
fn extracts_single_crossings_of_a_year() {
    let m = extract_year_metrics(synthetic_year(2022, 101, 301, &[20, 330]));
    assert_eq!(
        m,
        SeasonalMetrics {
            spring_transition: Some(101),
            fall_transition: Some(300),
            first_snowfall: Some(20),
            last_snowfall: Some(330),
        }
    );
}

#[test]
fn extraction_sorts_the_year_first() {
    let mut records = synthetic_year(2022, 101, 301, &[]);
    records.reverse();
    let m = extract_year_metrics(records);
    assert_eq!(m.spring_transition, Some(101));
    assert_eq!(m.fall_transition, Some(300));
    assert_eq!(m.first_snowfall, None);
    assert_eq!(m.last_snowfall, None);
}

#[test]
fn spring_uses_last_cold_day_before_cutoff() {
    let records = vec![
        day(2022, 100, Some(20), None),
        day(2022, 101, Some(80), None),
        day(2022, 150, Some(69), None),
        day(2022, 151, Some(90), None),
        day(2022, 190, Some(10), None),
        day(2022, 191, Some(90), None),
    ];
    assert_eq!(spring_transition(&records), Some(151));
}

#[test]
fn spring_needs_a_following_record() {
    let records = vec![day(2022, 10, Some(80), None), day(2022, 20, Some(-10), None)];
    assert_eq!(spring_transition(&records), None);
    assert_eq!(spring_transition(&vec![]), None);
    let missing = vec![day(2022, 10, None, None), day(2022, 11, Some(90), None)];
    assert_eq!(spring_transition(&missing), None);
}

#[test]
fn fall_takes_first_drop_and_skips_missing_values() {
    let records = vec![
        day(2022, 181, Some(90), None),
        day(2022, 182, None, None),
        day(2022, 183, Some(90), None),
        day(2022, 184, Some(70), None),
        day(2022, 200, Some(71), None),
        day(2022, 201, Some(69), None),
        day(2022, 250, Some(95), None),
        day(2022, 251, Some(10), None),
    ];
    assert_eq!(fall_transition(&records), Some(200));
    let before_start = vec![day(2022, 181, Some(90), None), day(2022, 182, Some(0), None)];
    assert_eq!(fall_transition(&before_start), None);
}

#[test]
fn snowfall_ignores_absent_and_zero() {
    let records = vec![
        day(2022, 1, None, None),
        day(2022, 2, None, Some(0)),
        day(2022, 3, None, Some(4)),
        day(2022, 4, None, None),
        day(2022, 5, None, Some(1)),
        day(2022, 6, None, Some(0)),
    ];
    assert_eq!(first_snowfall(&records), Some(3));
    assert_eq!(last_snowfall(&records), Some(5));
}

#[test]
fn summarizes_a_station_over_years() {
    let mut records = synthetic_year(2021, 101, 301, &[20, 330]);
    records.extend(synthetic_year(2022, 111, 311, &[30, 340]));
    let dates = summarize_station(&records).unwrap();
    assert_eq!(dates.switch_to_summer, Some("2023-04-16".to_string()));
    assert_eq!(dates.switch_to_winter, Some("2023-11-01".to_string()));
    assert_eq!(dates.first_snowfall, Some("2023-01-25".to_string()));
    assert_eq!(dates.last_snowfall, Some("2023-12-01".to_string()));
}

#[test]
fn summary_of_nothing_is_absent() {
    assert!(summarize_station(&vec![]).is_none());
    let flat: Vec<DailyObservation> = (1..=365).map(|d| day(2022, d, Some(150), None)).collect();
    let dates = summarize_station(&flat).unwrap();
    assert_eq!(dates.switch_to_summer, None);
    assert_eq!(dates.switch_to_winter, None);
    assert_eq!(dates.first_snowfall, None);
}

#[test]
fn reads_measurement_cells_exactly() {
    assert_eq!(parse_measurement("7.0"), Some(m(70, 1)));
    assert_eq!(parse_measurement("-3.5"), Some(m(-35, 1)));
    assert_eq!(parse_measurement("12"), Some(m(12, 0)));
    assert_eq!(parse_measurement("+0.4"), Some(m(4, 1)));
    assert_eq!(parse_measurement("6.95"), Some(m(695, 2)));
    assert_eq!(parse_measurement("1.25"), Some(m(125, 2)));
    assert_eq!(parse_measurement(".5"), Some(m(5, 1)));
    assert_eq!(parse_measurement("5."), Some(m(5, 0)));
    assert_eq!(parse_measurement("123456789012345678"), Some(m(123456789012345678, 0)));
    assert_eq!(parse_measurement("1234567890123456789"), None);
    assert_eq!(parse_measurement(""), None);
    assert_eq!(parse_measurement("M"), None);
    assert_eq!(parse_measurement("."), None);
    assert_eq!(parse_measurement("-"), None);
    assert_eq!(parse_measurement("1.2.3"), None);
    assert_eq!(parse_measurement("abc"), None);
}

#[test]
fn threshold_comparison_keeps_every_digit() {
    let cell = |ordinal: u32, temp: &str| observation_from_fields(&format!("2022-{}", md(ordinal)), temp, "").unwrap();
    let records = vec![cell(100, "6.95"), cell(101, "7.00"), cell(102, "7.05"), cell(103, "8")];
    assert_eq!(spring_transition(&records), Some(101));
    let fall = vec![cell(200, "7.01"), cell(201, "6.999"), cell(202, "3")];
    assert_eq!(fall_transition(&fall), Some(200));
    let flat = vec![cell(200, "7.0001"), cell(201, "7.000"), cell(202, "6.9")];
    assert_eq!(fall_transition(&flat), None);
}

/// "MM-DD" of a day of 2022.
fn md(ordinal: u32) -> String {
    let lengths = [31, 28, 31, 30, 31, 30, 31, 31, 30, 31, 30, 31];
    let mut rest = ordinal;
    for (i, len) in lengths.iter().enumerate() {
        if rest <= *len {
            return format!("{:02}-{:02}", i + 1, rest);
        }
        rest -= len;
    }
    unreachable!()
}

#[test]
fn reads_observations_from_fields() {
    let o = observation_from_fields("2023-02-01", "-3.5", "M").unwrap();
    assert_eq!(o, day(2023, 32, Some(-35), None));
    assert_eq!(observation_from_fields("2023-02-30", "1.0", "0.0"), None);
    assert_eq!(observation_from_fields("", "1.0", "0.0"), None);
    let leap = observation_from_fields("2024-12-31", "", "2.0").unwrap();
    assert_eq!(leap, day(2024, 366, None, Some(20)));
}

#[test]
fn reads_observations_from_records() {
    let mut fields: Vec<String> = (0..25).map(|_| String::new()).collect();
    fields[4] = "2023-03-01".to_string();
    fields[13] = "6.9".to_string();
    fields[21] = "1.5".to_string();
    assert_eq!(observation_from_record(&fields), Some(day(2023, 60, Some(69), Some(15))));
    let short: Vec<String> = vec!["a".into(), "b".into(), "c".into(), "d".into(), "2023-03-01".into()];
    assert_eq!(observation_from_record(&short), Some(day(2023, 60, None, None)));
    assert_eq!(observation_from_record(&vec!["2023-03-01".to_string()]), None);
}

#[test]
fn plans_the_months_to_fetch() {
    let months = months_to_fetch(2024, 3);
    assert_eq!(months.len(), 63);
    assert_eq!(months[0], (2019, 1));
    assert_eq!(months[11], (2019, 12));
    assert_eq!(months[12], (2020, 1));
    assert_eq!(months[62], (2024, 3));
}

#[test]
fn reads_daily_records_from_csv_text() {
    let row = |date: &str, temp: &str, snow: &str| {
        let mut fields: Vec<String> = (0..25).map(|i| format!("c{}", i)).collect();
        fields[4] = date.to_string();
        fields[13] = temp.to_string();
        fields[21] = snow.to_string();
        fields.join(",")
    };
    let header: Vec<String> = (0..25).map(|i| format!("h{}", i)).collect();
    let text = [
        header.join(","),
        row("2023-01-02", "-4.5", "1.2"),
        row("not a date", "1.0", ""),
        row("2023-01-03", "M", ""),
    ]
    .join("\n");
    let records = read_daily_csv(&text);
    assert_eq!(records.len(), 2);
    assert_eq!(records[0], day(2023, 2, Some(-45), Some(12)));
    assert_eq!(records[1], day(2023, 3, None, None));
    assert!(read_daily_csv("").is_empty());
}
