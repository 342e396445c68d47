use tireswap::nearest::{FinderError, NearestStationFinder, StationWithDistance};
use tireswap::records::Station;

/// Great-circle distance in metres between two points in 1e-7 degrees.
fn haversine_m(lat1: i64, lon1: i64, lat2: i64, lon2: i64) -> u64 {
    let (lat1, lon1, lat2, lon2) =
        (lat1 as f64 / 1e7, lon1 as f64 / 1e7, lat2 as f64 / 1e7, lon2 as f64 / 1e7);
    let d_lat = (lat2 - lat1).to_radians();
    let d_lon = (lon2 - lon1).to_radians();
    let a = (d_lat / 2.0).sin().powi(2)
        + lat1.to_radians().cos() * lat2.to_radians().cos() * (d_lon / 2.0).sin().powi(2);
    let c = 2.0 * a.sqrt().atan2((1.0 - a).sqrt());
    (6_371_000.0 * c).round() as u64
}

fn deg(v: f64) -> i64 {
    (v * 1e7).round() as i64
}

fn station(id: i64, lat: f64, lon: f64) -> Station {
    Station {
        id,
        name: format!("Station {}", id),
        lon_x: deg(lon),
        lat_y: deg(lat),
        dly_first_date: Some("2015-01-01".to_string()),
        dly_last_date: None,
    }
}

fn ids(r: &[StationWithDistance]) -> Vec<i64> {
    r.iter().map(|s| s.id).collect()
}

#[test]
fn empty_station_set_gives_absent_results() {
    let finder = NearestStationFinder::new(vec![]).unwrap();
    assert!(finder.find_nearest(deg(45.0), deg(-75.0), &haversine_m).is_none());
    assert!(finder.find_k_nearest(deg(45.0), deg(-75.0), 5, &haversine_m).is_empty());
}

#[test]
fn rejects_unindexable_station_lists() {
    let dup = vec![station(1, 45.0, -75.0), station(1, 46.0, -75.0)];
    assert_eq!(NearestStationFinder::new(dup).err(), Some(FinderError::DuplicateStationId));
    let far = vec![station(1, 45.0, -75.0), station(2, 45.0, -181.0)];
    assert_eq!(NearestStationFinder::new(far).err(), Some(FinderError::CoordinateOutOfRange));
    let shared: Vec<Station> = (0..32).map(|i| station(i, 40.0 + i as f64 * 0.01, -75.0)).collect();
    assert!(NearestStationFinder::new(shared).is_ok());
}

/// The `k` ids nearest by the metric, found by measuring every station;
/// ties in list order.
fn brute_force(stations: &[Station], lat: i64, lon: i64, k: usize) -> Vec<i64> {
    let mut all: Vec<(u64, usize)> = stations
        .iter()
        .enumerate()
        .map(|(i, s)| (haversine_m(lat, lon, s.lat_y, s.lon_x), i))
        .collect();
    all.sort();
    all.iter().take(k).map(|&(_, i)| stations[i].id).collect()
}

#[test]
fn shared_coordinates_are_indexed_too() {
    let same_lat: Vec<Station> = (0..17).map(|i| station(i, 0.0, i as f64)).collect();
    let finder = NearestStationFinder::new(same_lat.clone()).unwrap();
    for (k, lon) in [(1usize, 3.2), (3, 8.6), (5, 16.0), (17, 0.0)] {
        let r = finder.find_k_nearest(deg(0.0), deg(lon), k, &haversine_m);
        assert_eq!(ids(&r), brute_force(&same_lat, deg(0.0), deg(lon), k));
    }
    assert_eq!(finder.find_nearest(deg(0.1), deg(4.4), &haversine_m).unwrap().id, 4);
    let mut crowded: Vec<Station> = (0..40).map(|i| station(i, 45.0, -75.0 + i as f64 * 0.1)).collect();
    crowded.extend((40..60).map(|i| station(i, 40.0 + (i - 40) as f64 * 0.3, -70.0)));
    let finder = NearestStationFinder::new(crowded.clone()).unwrap();
    for (k, lat, lon) in [(2usize, 44.0, -73.0), (4, 42.2, -70.3), (10, 45.0, -72.0)] {
        let r = finder.find_k_nearest(deg(lat), deg(lon), k, &haversine_m);
        let got: Vec<u64> = r.iter().map(|s| s.distance_m).collect();
        let want: Vec<u64> = brute_force(&crowded, deg(lat), deg(lon), k)
            .iter()
            .map(|id| {
                let s = &crowded[*id as usize];
                haversine_m(deg(lat), deg(lon), s.lat_y, s.lon_x)
            })
            .collect();
        assert_eq!(got, want);
    }
}

#[test]
fn k_nearest_is_bounded_and_sorted() {
    let stations: Vec<Station> = (0..20)
        .map(|i| station(i, 40.0 + (i % 5) as f64 * 0.7, -80.0 + (i / 5) as f64 * 1.3))
        .collect();
    let finder = NearestStationFinder::new(stations).unwrap();
    for k in [0usize, 1, 3, 7, 20, 50] {
        let r = finder.find_k_nearest(deg(41.2), deg(-78.1), k, &haversine_m);
        assert_eq!(r.len(), k.min(20));
        for w in r.windows(2) {
            assert!(w[0].distance_m <= w[1].distance_m);
        }
        for s in &r {
            assert_eq!(s.distance_m, haversine_m(deg(41.2), deg(-78.1), s.lat_y, s.lon_x));
        }
    }
    let all = finder.find_k_nearest(deg(41.2), deg(-78.1), 20, &haversine_m);
    let mut seen = ids(&all);
    seen.sort();
    assert_eq!(seen, (0..20).collect::<Vec<i64>>());
}

#[test]
fn great_circle_ranking_overrides_raw_coordinates() {
    // At 80 degrees north, 20 degrees of longitude are about 384 km while
    // 10 degrees of latitude are about 1112 km: the raw coordinates rank the
    // second station nearer, the globe the first.
    let stations = vec![station(1, 80.0, 20.0), station(2, 70.0, 0.0), station(3, 10.0, 100.0)];
    let finder = NearestStationFinder::new(stations).unwrap();
    let best = finder.find_nearest(deg(80.0), deg(0.0), &haversine_m).unwrap();
    assert_eq!(best.id, 1);
    assert!((best.distance_m as i64 - 384_277).abs() < 1_000);
    let ranked = finder.find_k_nearest(deg(80.0), deg(0.0), 2, &haversine_m);
    assert_eq!(ids(&ranked), vec![1, 2]);
}

#[test]
fn equal_distances_keep_index_order() {
    let stations = vec![station(7, 45.0, -75.5), station(3, 45.0, -74.5), station(5, 45.0, -70.0)];
    let finder = NearestStationFinder::new(stations).unwrap();
    let flat = |_: i64, _: i64, _: i64, _: i64| 1000u64;
    let r = finder.find_k_nearest(deg(45.0), deg(-75.0), 1, &flat);
    assert_eq!(ids(&r), vec![7, 3, 5][..1].to_vec());
    let all = finder.find_k_nearest(deg(45.0), deg(-75.0), 3, &flat);
    assert_eq!(ids(&all), vec![7, 3, 5]);
    assert_eq!(finder.find_nearest(deg(45.0), deg(-75.0), &flat).unwrap().id, 7);
}

#[test]
fn results_carry_station_records() {
    let finder = NearestStationFinder::new(vec![station(42, 45.0, -75.0)]).unwrap();
    let s = finder.find_nearest(deg(45.0), deg(-75.0), &haversine_m).unwrap();
    assert_eq!(s.id, 42);
    assert_eq!(s.name, "Station 42");
    assert_eq!(s.lat_y, 450_000_000);
    assert_eq!(s.lon_x, -750_000_000);
    assert_eq!(s.distance_m, 0);
    assert_eq!(s.dly_first_date, Some("2015-01-01".to_string()));
}
