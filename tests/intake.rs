use tireswap::intake::{classify_station, has_sufficient_data, is_station_active, parse_timestamp, StationIntake};

const JAN_15_2024: i64 = 1_705_276_800;

#[test]
fn reads_both_date_forms() {
    assert_eq!(parse_timestamp("2024-01-15 00:00:00"), Some(JAN_15_2024));
    assert_eq!(parse_timestamp("2024-01-15"), Some(JAN_15_2024));
    assert_eq!(parse_timestamp("2024-01-15 00:00:30"), Some(JAN_15_2024 + 30));
    assert_eq!(parse_timestamp("yesterday"), None);
}

#[test]
fn active_within_a_week() {
    assert!(is_station_active(Some("2024-01-10 00:00:00"), JAN_15_2024));
    assert!(is_station_active(Some("2024-01-08"), JAN_15_2024));
    assert!(!is_station_active(Some("2024-01-07 23:59:59"), JAN_15_2024));
    assert!(!is_station_active(None, JAN_15_2024));
    assert!(!is_station_active(Some("not a date"), JAN_15_2024));
}

#[test]
fn sufficient_history_is_five_years() {
    assert!(has_sufficient_data(Some("2015-01-01"), Some("2024-01-01 12:00:00")));
    assert!(has_sufficient_data(Some("2019-01-01"), Some("2023-12-31")));
    assert!(!has_sufficient_data(Some("2019-01-02"), Some("2023-12-31")));
    assert!(!has_sufficient_data(Some("2020-01-01"), Some("2023-12-31")));
    assert!(!has_sufficient_data(None, Some("2023-12-31")));
    assert!(!has_sufficient_data(Some("2015-01-01"), None));
    assert!(!has_sufficient_data(Some("bad"), Some("2023-12-31")));
}

#[test]
fn classifies_stations() {
    assert_eq!(classify_station(Some("2010-01-01"), Some("2024-01-14"), JAN_15_2024), StationIntake::Accepted);
    assert_eq!(classify_station(Some("2022-01-01"), Some("2024-01-14"), JAN_15_2024), StationIntake::InsufficientHistory);
    assert_eq!(classify_station(Some("2010-01-01"), Some("2023-01-14"), JAN_15_2024), StationIntake::Inactive);
    assert_eq!(classify_station(None, None, JAN_15_2024), StationIntake::Inactive);
}
