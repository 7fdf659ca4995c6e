use location_history::ingest::{
    deserialize, location_from_fields, parse_i64, sort_by_timestamp, IngestError,
};
use location_history::location::Location;
use location_history::series::LocationsExt;

fn rec(timestamp: i64, latitude_e7: i64, longitude_e7: i64, accuracy: i32) -> Location {
    Location { timestamp, latitude_e7, longitude_e7, accuracy, altitude: None }
}

fn haversine_distance(a: &Location, b: &Location) -> f64 {
    let long1 = (a.longitude_e7 as f64 / 10000000.0).to_radians();
    let long2 = (b.longitude_e7 as f64 / 10000000.0).to_radians();
    let lat1 = (a.latitude_e7 as f64 / 10000000.0).to_radians();
    let lat2 = (b.latitude_e7 as f64 / 10000000.0).to_radians();
    let dlon = long2 - long1;
    let dlat = lat2 - lat1;
    let h = (dlat / 2.0).sin().powi(2) + lat1.cos() * lat2.cos() * (dlon / 2.0).sin().powi(2);
    let c = 2.0 * h.sqrt().asin();
    c * 6371000.0
}

fn speed_kmh(a: &Location, b: &Location) -> f64 {
    let dist = haversine_distance(a, b);
    let time = a.timestamp - b.timestamp;
    if time > 0 {
        dist / time as f64 * 3.6
    } else {
        dist / 1000.0
    }
}

fn below_limit(a: Location, b: Location) -> bool {
    speed_kmh(&a, &b) < 300.0
}

#[test]
fn it_works() {
    let test_data = r#"{"locations" : [ {
                        "timestampMs" : "1491801919709",
                        "latitudeE7" : 500373489,
                        "longitudeE7" : 83320934,
                        "accuracy" : 19,
                        "activitys" : [ {
                            "timestampMs" : "1491802042056",
                            "activities" : [ {
                                "type" : "still",
                                "confidence" : 100
                            } ]
                            }, {
                            "timestampMs" : "1491801923049",
                            "activities" : [ {
                            "type" : "still",
                            "confidence" : 100
                            } ]
                        } ]
                        }]}"#;
    let locations = deserialize(&test_data).unwrap().filter_outliers(below_limit);
    assert_eq!(locations.len(), 1);
}

#[test]
fn ingest_sorts_unordered_input() {
    let data = r#"{"locations": [
        {"timestampMs": "30000", "latitudeE7": 3, "longitudeE7": 3, "accuracy": 3},
        {"timestampMs": "10000", "latitudeE7": 1, "longitudeE7": 1, "accuracy": 1},
        {"timestampMs": "20000", "latitudeE7": 2, "longitudeE7": 2, "accuracy": 2}
    ]}"#;
    let locations = deserialize(data).unwrap();
    assert_eq!(locations.len(), 3);
    for i in 1..locations.len() {
        assert!(locations[i - 1].timestamp <= locations[i].timestamp);
    }
    assert_eq!(locations[0].timestamp, 10);
    assert_eq!(locations[1].timestamp, 20);
    assert_eq!(locations[2].timestamp, 30);
    assert_eq!(locations[0].latitude_e7, 1);
    assert_eq!(locations[2].latitude_e7, 3);
}

#[test]
fn find_closest_boundary_policy() {
    let series = vec![rec(10, 1, 1, 1), rec(20, 2, 2, 2), rec(30, 3, 3, 3)];
    // exact match
    let hit = series.find_closest(20).unwrap();
    assert_eq!(hit.timestamp, 20);
    assert_eq!(hit.latitude_e7, 2);
    // before the first sample: nothing
    assert!(series.find_closest(5).is_none());
    // at or past the end: nothing
    assert!(series.find_closest(35).is_none());
    // strictly between two samples: the record at the insertion index
    let between = series.find_closest(15).unwrap();
    assert_eq!(between.timestamp, 20);
    assert_eq!(between.latitude_e7, 2);
}

#[test]
fn find_closest_edges() {
    let series = vec![rec(10, 1, 1, 1), rec(20, 2, 2, 2), rec(30, 3, 3, 3)];
    // exact match on the first record works even though its slot index is 0
    assert_eq!(series.find_closest(10).unwrap().timestamp, 10);
    // exact match on the last record
    assert_eq!(series.find_closest(30).unwrap().timestamp, 30);
    // just past the last record: nothing
    assert!(series.find_closest(31).is_none());
    // empty series: nothing
    let empty: Vec<Location> = vec![];
    assert!(empty.find_closest(10).is_none());
}

#[test]
fn find_closest_duplicate_timestamps_picks_first() {
    let series = vec![rec(10, 1, 1, 1), rec(20, 2, 2, 2), rec(20, 9, 9, 9), rec(30, 3, 3, 3)];
    let hit = series.find_closest(20).unwrap();
    assert_eq!(hit.latitude_e7, 2);
}

#[test]
fn filter_outliers_retains_seed() {
    // Even when every later record is rejected, the seed stays.
    let series = vec![rec(0, 0, 0, 1), rec(10, 800_000_000, 0, 1), rec(20, 0, 800_000_000, 1)];
    let kept = series.filter_outliers(below_limit);
    assert!(kept.len() >= 1);
    assert_eq!(kept[0].timestamp, 0);
    assert_eq!(kept[0].latitude_e7, 0);
}

#[test]
fn filter_outliers_compares_against_last_accepted() {
    // p2 implies an implausible speed from p1 and is dropped; p3 is judged
    // from p1 (the last accepted record), not from the rejected p2, and so
    // is kept; p4 is plausible from p3 and kept.
    let p1 = rec(0, 0, 0, 1);
    let p2 = rec(10, 800_000_000, 0, 1); // ~8900 km in 10 s
    let p3 = rec(20, 100, 0, 1); // ~1 m from p1 in 20 s; implausible from p2
    let p4 = rec(30, 200, 0, 1); // ~1 m from p3 in 10 s
    assert!(speed_kmh(&p2, &p1) >= 300.0);
    assert!(speed_kmh(&p3, &p1) < 300.0);
    assert!(speed_kmh(&p3, &p2) >= 300.0);
    assert!(speed_kmh(&p4, &p3) < 300.0);
    let kept = vec![p1, p2, p3, p4].filter_outliers(below_limit);
    assert_eq!(kept.len(), 3);
    assert_eq!(kept[0], p1);
    assert_eq!(kept[1], p3);
    assert_eq!(kept[2], p4);
}

#[test]
fn filter_outliers_always_plausible_keeps_everything() {
    let series = vec![rec(0, 0, 0, 1), rec(10, 100, 0, 1), rec(20, 200, 0, 1)];
    let kept = series.clone().filter_outliers(below_limit);
    assert_eq!(kept, series);
}

#[test]
fn average_time_of_three_records() {
    // gaps (0 - 10) + (10 - 30) = -30, divided by the full count 3
    let series = vec![rec(0, 0, 0, 1), rec(10, 0, 0, 1), rec(30, 0, 0, 1)];
    assert_eq!(series.average_time(), -10);
}

#[test]
fn average_time_single_record_is_zero() {
    let series = vec![rec(42, 0, 0, 1)];
    assert_eq!(series.average_time(), 0);
}

#[test]
fn average_time_truncates_toward_zero() {
    // gaps sum to -5 over 2 records: -5 / 2 truncates to -2
    let series = vec![rec(0, 0, 0, 1), rec(5, 0, 0, 1)];
    assert_eq!(series.average_time(), -2);
}

#[test]
fn unit_conversions_round_trip() {
    let data = r#"{"locations": [
        {"timestampMs": "1491801919709", "latitudeE7": 500373489, "longitudeE7": 83320934, "accuracy": 19}
    ]}"#;
    let locations = deserialize(data).unwrap();
    assert_eq!(locations.len(), 1);
    // milliseconds truncate to whole seconds
    assert_eq!(locations[0].timestamp, 1491801919);
    // the fixed-point coordinate is kept exactly; 500373489 stands for 50.0373489 degrees
    assert_eq!(locations[0].latitude_e7, 500373489);
    assert_eq!(locations[0].longitude_e7, 83320934);
    assert!(((locations[0].latitude_e7 as f64 / 10000000.0) - 50.0373489).abs() < 1e-9);
    assert_eq!(locations[0].accuracy, 19);
    assert_eq!(locations[0].altitude, None);
}

#[test]
fn altitude_is_kept_when_present() {
    let data = r#"{"locations": [
        {"timestampMs": "1000", "latitudeE7": 1, "longitudeE7": 2, "accuracy": 3, "altitude": 512}
    ]}"#;
    let locations = deserialize(data).unwrap();
    assert_eq!(locations[0].altitude, Some(512));
}

#[test]
fn empty_locations_array_gives_empty_series() {
    let locations = deserialize(r#"{"locations": []}"#).unwrap();
    assert!(locations.is_empty());
}

#[test]
fn bad_json_is_reported() {
    assert_eq!(deserialize("not json at all"), Err(IngestError::BadJson));
    assert_eq!(deserialize("{\"locations\": ["), Err(IngestError::BadJson));
}

#[test]
fn missing_locations_is_reported() {
    assert_eq!(deserialize("{}"), Err(IngestError::MissingLocations));
    assert_eq!(
        deserialize(r#"{"locations": "not an array"}"#),
        Err(IngestError::MissingLocations)
    );
}

#[test]
fn bad_fields_are_reported() {
    // timestampMs missing
    assert_eq!(
        deserialize(r#"{"locations": [{"latitudeE7": 1, "longitudeE7": 2, "accuracy": 3}]}"#),
        Err(IngestError::BadField)
    );
    // timestampMs not a numeric string
    assert_eq!(
        deserialize(
            r#"{"locations": [{"timestampMs": "soon", "latitudeE7": 1, "longitudeE7": 2, "accuracy": 3}]}"#
        ),
        Err(IngestError::BadField)
    );
    // timestampMs a bare number instead of a string
    assert_eq!(
        deserialize(
            r#"{"locations": [{"timestampMs": 1000, "latitudeE7": 1, "longitudeE7": 2, "accuracy": 3}]}"#
        ),
        Err(IngestError::BadField)
    );
    // latitudeE7 not an integer
    assert_eq!(
        deserialize(
            r#"{"locations": [{"timestampMs": "1000", "latitudeE7": "north", "longitudeE7": 2, "accuracy": 3}]}"#
        ),
        Err(IngestError::BadField)
    );
    // accuracy does not fit 32 bits
    assert_eq!(
        deserialize(
            r#"{"locations": [{"timestampMs": "1000", "latitudeE7": 1, "longitudeE7": 2, "accuracy": 5000000000}]}"#
        ),
        Err(IngestError::BadField)
    );
}

#[test]
fn location_from_fields_converts_exactly() {
    let loc = location_from_fields("1491801919709", 500373489, 83320934, 19, Some(7)).unwrap();
    assert_eq!(loc.timestamp, 1491801919);
    assert_eq!(loc.latitude_e7, 500373489);
    assert_eq!(loc.longitude_e7, 83320934);
    assert_eq!(loc.accuracy, 19);
    assert_eq!(loc.altitude, Some(7));
}

#[test]
fn location_from_fields_truncates_negative_milliseconds_toward_zero() {
    let loc = location_from_fields("-1500", 0, 0, 0, None).unwrap();
    assert_eq!(loc.timestamp, -1);
}

#[test]
fn location_from_fields_rejects_out_of_range_altitude() {
    assert_eq!(
        location_from_fields("1000", 0, 0, 0, Some(5_000_000_000)),
        Err(IngestError::BadField)
    );
}

#[test]
fn parse_i64_accepts_signed_decimals() {
    assert_eq!(parse_i64("0"), Some(0));
    assert_eq!(parse_i64("1491801919709"), Some(1491801919709));
    assert_eq!(parse_i64("+42"), Some(42));
    assert_eq!(parse_i64("-42"), Some(-42));
    assert_eq!(parse_i64("9223372036854775807"), Some(i64::MAX));
    assert_eq!(parse_i64("-9223372036854775808"), Some(i64::MIN));
}

#[test]
fn parse_i64_rejects_what_is_not_a_decimal() {
    assert_eq!(parse_i64(""), None);
    assert_eq!(parse_i64("+"), None);
    assert_eq!(parse_i64("-"), None);
    assert_eq!(parse_i64("12a"), None);
    assert_eq!(parse_i64(" 12"), None);
    assert_eq!(parse_i64("1.5"), None);
    // one past the largest value, both signs
    assert_eq!(parse_i64("9223372036854775808"), None);
    assert_eq!(parse_i64("-9223372036854775809"), None);
}

#[test]
fn sort_by_timestamp_orders_and_keeps_records() {
    let mut series = vec![rec(30, 3, 3, 3), rec(10, 1, 1, 1), rec(20, 2, 2, 2), rec(10, 9, 9, 9)];
    sort_by_timestamp(&mut series);
    assert_eq!(series.len(), 4);
    for i in 1..series.len() {
        assert!(series[i - 1].timestamp <= series[i].timestamp);
    }
    let mut lats: Vec<i64> = series.iter().map(|l| l.latitude_e7).collect();
    lats.sort();
    assert_eq!(lats, vec![1, 2, 3, 9]);
    // the sort is stable: the two records at timestamp 10 keep input order
    assert_eq!(series[0].latitude_e7, 1);
    assert_eq!(series[1].latitude_e7, 9);
}

#[test]
fn ingest_keeps_input_order_of_equal_timestamps() {
    let data = r#"{"locations": [
        {"timestampMs": "20000", "latitudeE7": 7, "longitudeE7": 7, "accuracy": 7},
        {"timestampMs": "10000", "latitudeE7": 1, "longitudeE7": 1, "accuracy": 1},
        {"timestampMs": "10000", "latitudeE7": 2, "longitudeE7": 2, "accuracy": 2}
    ]}"#;
    let locations = deserialize(data).unwrap();
    assert_eq!(locations.len(), 3);
    assert_eq!(locations[0].latitude_e7, 1);
    assert_eq!(locations[1].latitude_e7, 2);
    assert_eq!(locations[2].latitude_e7, 7);
}
