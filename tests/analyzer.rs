use tireswap::analyzer::{default_num_stations, Analyzer};
use tireswap::records::{ClimateData, ErrorResponse, Station};

fn haversine_m(lat1: i64, lon1: i64, lat2: i64, lon2: i64) -> u64 {
    let (lat1, lon1, lat2, lon2) =
        (lat1 as f64 / 1e7, lon1 as f64 / 1e7, lat2 as f64 / 1e7, lon2 as f64 / 1e7);
    let d_lat = (lat2 - lat1).to_radians();
    let d_lon = (lon2 - lon1).to_radians();
    let a = (d_lat / 2.0).sin().powi(2)
        + lat1.to_radians().cos() * lat2.to_radians().cos() * (d_lon / 2.0).sin().powi(2);
    let c = 2.0 * a.sqrt().atan2((1.0 - a).sqrt());
    (6_371_000.0 * c).round() as u64
}

fn deg(v: f64) -> i64 {
    (v * 1e7).round() as i64
}

fn station(id: i64, lat: f64, lon: f64) -> Station {
    Station {
        id,
        name: format!("Station {}", id),
        lon_x: deg(lon),
        lat_y: deg(lat),
        dly_first_date: None,
        dly_last_date: None,
    }
}

fn record(station_id: i64, summer: Option<&str>, winter: Option<&str>) -> ClimateData {
    ClimateData {
        id: station_id * 10,
        station_id,
        year: 2024,
        switch_to_summer: summer.map(|s| s.to_string()),
        switch_to_winter: winter.map(|s| s.to_string()),
    }
}

fn five_stations() -> Vec<Station> {
    vec![
        station(101, 45.00, -75.00),
        station(102, 45.10, -75.10),
        station(103, 44.90, -74.90),
        station(104, 50.00, -80.00),
        station(105, 40.00, -70.00),
    ]
}

fn stored(id: i64) -> Option<ClimateData> {
    match id {
        101 => Some(record(101, Some("2023-04-10"), Some("2023-11-01"))),
        102 => Some(record(102, Some("2023-04-20"), Some("2023-11-05"))),
        103 => Some(record(103, Some("2023-04-30"), Some("2023-11-09"))),
        104 => Some(record(104, Some("2023-06-01"), Some("2023-09-01"))),
        105 => Some(record(105, Some("2023-03-01"), Some("2023-12-20"))),
        _ => None,
    }
}

#[test]
fn end_to_end_recommendation_from_three_nearest() {
    let analyzer = Analyzer::new(five_stations()).unwrap();
    let near = analyzer.finder().find_k_nearest(deg(45.0), deg(-75.0), 3, &haversine_m);
    let mut ids: Vec<i64> = near.iter().map(|s| s.id).collect();
    ids.sort();
    assert_eq!(ids, vec![101, 102, 103]);
    let rec = analyzer.analyze(deg(45.0), deg(-75.0), 3, &haversine_m, &stored);
    assert_eq!(rec.stations_analyzed, 3);
    assert_eq!(rec.latitude, deg(45.0));
    assert_eq!(rec.longitude, deg(-75.0));
    assert_eq!(rec.switch_to_summer, Some("April 20".to_string()));
    assert_eq!(rec.switch_to_winter, Some("November 5".to_string()));
}

#[test]
fn missing_records_are_skipped() {
    let analyzer = Analyzer::new(five_stations()).unwrap();
    let partial = |id: i64| match id {
        101 => Some(record(101, Some("2023-04-10"), None)),
        102 => None,
        103 => Some(record(103, None, None)),
        _ => stored(id),
    };
    let rec = analyzer.analyze(deg(45.0), deg(-75.0), 3, &haversine_m, &partial);
    assert_eq!(rec.stations_analyzed, 3);
    assert_eq!(rec.switch_to_summer, Some("April 10".to_string()));
    assert_eq!(rec.switch_to_winter, None);
}

#[test]
fn no_stations_no_recommendation() {
    let analyzer = Analyzer::new(vec![]).unwrap();
    let rec = analyzer.analyze(deg(45.0), deg(-75.0), 5, &haversine_m, &stored);
    assert_eq!(rec.stations_analyzed, 0);
    assert_eq!(rec.switch_to_summer, None);
    assert_eq!(rec.switch_to_winter, None);
}

#[test]
fn asking_for_more_stations_than_exist() {
    let analyzer = Analyzer::new(five_stations()).unwrap();
    let rec = analyzer.analyze(deg(45.0), deg(-75.0), 10, &haversine_m, &stored);
    assert_eq!(rec.stations_analyzed, 5);
}

#[test]
fn default_station_count_is_five() {
    assert_eq!(default_num_stations(), 5);
}

#[test]
fn error_payload_holds_its_message() {
    let e = ErrorResponse { error: "Failed to create analyzer".to_string() };
    assert_eq!(e.error, "Failed to create analyzer");
}
