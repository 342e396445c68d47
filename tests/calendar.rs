use tireswap::calendar::{
    average_day_of_year, calculate_average_date, day_of_year_to_date, parse_date_to_day_of_year,
};

fn texts(items: &[&str]) -> Vec<String> {
    items.iter().map(|s| s.to_string()).collect()
}

#[test]
fn parses_iso_dates() {
    assert_eq!(parse_date_to_day_of_year("2023-04-15"), Some(105));
    assert_eq!(parse_date_to_day_of_year("2023-01-01"), Some(1));
    assert_eq!(parse_date_to_day_of_year("2023-12-31"), Some(365));
    assert_eq!(parse_date_to_day_of_year("2023-+3-01"), Some(60));
}

#[test]
fn parses_month_day_labels() {
    assert_eq!(parse_date_to_day_of_year("April 15"), Some(105));
    assert_eq!(parse_date_to_day_of_year("  December   31 "), Some(365));
    assert_eq!(parse_date_to_day_of_year("January 1"), Some(1));
}

#[test]
fn rejects_unreadable_dates() {
    assert_eq!(parse_date_to_day_of_year("2023-04-xx"), None);
    assert_eq!(parse_date_to_day_of_year("2023-xx-15"), None);
    assert_eq!(parse_date_to_day_of_year("2023-13-01"), None);
    assert_eq!(parse_date_to_day_of_year("Smarch 3"), None);
    assert_eq!(parse_date_to_day_of_year("April"), None);
    assert_eq!(parse_date_to_day_of_year("April 15 2023"), None);
    assert_eq!(parse_date_to_day_of_year(""), None);
    assert_eq!(parse_date_to_day_of_year("December 4294967295"), None);
}

#[test]
fn rejects_days_a_month_does_not_have() {
    assert_eq!(parse_date_to_day_of_year("January 0"), None);
    assert_eq!(parse_date_to_day_of_year("2023-12-37"), None);
    assert_eq!(parse_date_to_day_of_year("February 29"), None);
    assert_eq!(parse_date_to_day_of_year("2023-04-31"), None);
    assert_eq!(parse_date_to_day_of_year("2023-02-28"), Some(59));
    assert_eq!(parse_date_to_day_of_year("April 30"), Some(120));
    let dates: Vec<String> = vec!["April 10".to_string(), "January 0".to_string()];
    assert_eq!(calculate_average_date(&dates), Some("April 10".to_string()));
}

#[test]
fn labels_days_of_the_year() {
    assert_eq!(day_of_year_to_date(1), "January 1");
    assert_eq!(day_of_year_to_date(59), "February 28");
    assert_eq!(day_of_year_to_date(60), "March 1");
    assert_eq!(day_of_year_to_date(183), "July 2");
    assert_eq!(day_of_year_to_date(365), "December 31");
    assert_eq!(day_of_year_to_date(366), "Invalid date");
}

#[test]
fn averages_dates_by_day_of_year() {
    let dates = texts(&["2023-04-15", "2023-04-17"]);
    assert_eq!(calculate_average_date(&dates), Some("April 16".to_string()));
    let mixed = texts(&["April 10", "not a date", "2023-04-13"]);
    assert_eq!(calculate_average_date(&mixed), Some("April 11".to_string()));
}

#[test]
fn empty_date_collection_has_no_average() {
    assert_eq!(calculate_average_date(&[]), None);
    assert_eq!(calculate_average_date(&texts(&["garbage", ""])), None);
    assert_eq!(average_day_of_year(&[]), None);
}

#[test]
fn year_boundary_average_lands_mid_year() {
    let dates = texts(&["December 30", "January 2"]);
    assert_eq!(calculate_average_date(&dates), Some("July 2".to_string()));
    let iso = texts(&["2023-12-30", "2024-01-02"]);
    assert_eq!(calculate_average_date(&iso), Some("July 2".to_string()));
}

#[test]
fn averages_days_into_reference_year_dates() {
    assert_eq!(average_day_of_year(&[100, 102]), Some("2023-04-11".to_string()));
    assert_eq!(average_day_of_year(&[1, 2]), Some("2023-01-01".to_string()));
    assert_eq!(average_day_of_year(&[365]), Some("2023-12-31".to_string()));
    assert_eq!(average_day_of_year(&[366]), None);
    assert_eq!(average_day_of_year(&[0]), None);
    assert_eq!(average_day_of_year(&[-5, 3]), None);
    assert_eq!(average_day_of_year(&[-1, 2]), None);
    assert_eq!(average_day_of_year(&[-3, 5]), Some("2023-01-01".to_string()));
}
