use trip_query::disk_hash::DiskHashTable;
use trip_query::filters::TripFilter;
use trip_query::report::{filter_to_rows, get_popular_destinations, stats_of};
use trip_query::results::{
    filter_by_destination, filter_by_index, filter_by_price_range, find_popular_destinations,
    get_stats_for_price_range,
};
use trip_query::rows::csv_header;
use trip_query::trip::Trip;

fn trip(key: &str, dest: &str, amount: &str) -> Trip {
    Trip {
        vendor_id: String::from("1"),
        tpep_pickup_datetime: String::from("2020-01-01 10:00:00"),
        tpep_dropoff_datetime: String::from("2020-01-01 10:30:00"),
        passenger_count: String::from("2"),
        trip_distance: String::from("3.5"),
        ratecode_id: String::from("1"),
        store_and_fwd_flag: String::from("N"),
        pu_location_id: String::from("100"),
        do_location_id: String::from(dest),
        payment_type: String::from("1"),
        fare_amount: String::from("10.0"),
        extra: String::from("0.5"),
        mta_tax: String::from("0.5"),
        tip_amount: String::from("2.0"),
        tolls_amount: String::from("0"),
        improvement_surcharge: String::from("0.3"),
        total_amount: String::from(amount),
        congestion_surcharge: String::from("2.5"),
        index: String::from(key),
    }
}

#[test]
fn report_writes_header_exactly_once_even_with_no_match() {
    let data = vec![trip("a", "d1", "5.00")];
    let (table, _) = DiskHashTable::build_hash_table_from_csv(&data).unwrap();
    let filter = TripFilter::Destination(String::from("nowhere"));
    let (rows, count) = filter_to_rows(&table, &data, &filter, Some(10));
    assert_eq!(count, 0);
    assert_eq!(rows.len(), 1);
    assert_eq!(rows[0], csv_header());
}

#[test]
fn report_never_exceeds_result_bound() {
    let data = vec![
        trip("a", "d", "5.00"),
        trip("b", "d", "5.00"),
        trip("c", "d", "5.00"),
        trip("d", "d", "5.00"),
        trip("e", "d", "5.00"),
    ];
    let (table, _) = DiskHashTable::build_hash_table_from_csv(&data).unwrap();
    let filter = TripFilter::Destination(String::from("d"));
    let (rows, count) = filter_to_rows(&table, &data, &filter, Some(3));
    assert_eq!(count, 3);
    assert_eq!(rows.len(), 4);
    assert_eq!(rows[0], csv_header());
}

#[test]
fn popular_destinations_orders_ties_by_first_seen() {
    // Destinations: A seen 5 times, B 5 times, C 3 times, D once — with A
    // first seen before B, B before C, C before D.
    let mut data = Vec::new();
    data.push(trip("k0", "A", "1.0"));
    data.push(trip("k1", "B", "1.0"));
    data.push(trip("k2", "C", "1.0"));
    data.push(trip("k3", "D", "1.0"));
    for i in 0..4 {
        data.push(trip(&format!("a{}", i), "A", "1.0"));
        data.push(trip(&format!("b{}", i), "B", "1.0"));
    }
    data.push(trip("c1", "C", "1.0"));
    data.push(trip("c2", "C", "1.0"));
    let top = get_popular_destinations(&data, 3);
    assert_eq!(top.len(), 3);
    assert_eq!(top[0], (String::from("A"), 5));
    assert_eq!(top[1], (String::from("B"), 5));
    assert_eq!(top[2], (String::from("C"), 3));
}

#[test]
fn popular_destinations_limit_larger_than_distinct() {
    let data = vec![trip("a", "X", "1.0"), trip("b", "Y", "1.0")];
    let top = get_popular_destinations(&data, 10);
    assert_eq!(top.len(), 2);
    let wrapped = find_popular_destinations(&data, 10);
    assert_eq!(wrapped.destinations.len(), 2);
    assert_eq!(wrapped.time_ms, 0);
}

#[test]
fn stats_over_no_records_reports_count_only() {
    let empty: Vec<Trip> = Vec::new();
    let s = stats_of(&empty);
    assert_eq!(s.count, 0);
    assert!(s.avg_distance.is_none());
    assert!(s.avg_amount.is_none());
    assert!(s.avg_passengers.is_none());
    assert!(s.total_amount.is_none());
}

#[test]
fn stats_averages_are_exact_fixed_point() {
    // distances 3.5 each; amounts 10.00 and 20.00; passengers 2 each.
    let records = vec![trip("a", "d", "10.00"), trip("b", "d", "20.00")];
    let s = stats_of(&records);
    assert_eq!(s.count, 2);
    assert_eq!(s.avg_distance, Some(350));
    assert_eq!(s.avg_amount, Some(1500));
    assert_eq!(s.avg_passengers, Some(200));
    assert_eq!(s.total_amount, Some(3000));
}

#[test]
fn stats_for_price_range_filters_first() {
    let data = vec![
        trip("a", "d", "10.00"),
        trip("b", "d", "20.00"),
        trip("c", "d", "90.00"),
    ];
    let (table, _) = DiskHashTable::build_hash_table_from_csv(&data).unwrap();
    let s = get_stats_for_price_range(&table, &data, 500, 2500);
    assert_eq!(s.stats.count, 2);
    assert_eq!(s.stats.total_amount, Some(3000));
    assert_eq!(s.time_ms, 0);
}

#[test]
fn filter_by_index_names_its_output_file() {
    let data = vec![trip("ride42", "d1", "5.00")];
    let (table, _) = DiskHashTable::build_hash_table_from_csv(&data).unwrap();
    let r = filter_by_index(&table, &data, "ride42");
    assert_eq!(r.count, 1);
    assert_eq!(r.output_file, "output/filtered_by_index_ride42.csv");
    assert_eq!(r.rows.len(), 2);
    assert_eq!(r.time_ms, 0);
}

#[test]
fn filter_by_destination_names_its_output_file() {
    let data = vec![trip("a", "harbor", "5.00"), trip("b", "uptown", "5.00")];
    let (table, _) = DiskHashTable::build_hash_table_from_csv(&data).unwrap();
    let r = filter_by_destination(&table, &data, "harbor");
    assert_eq!(r.count, 1);
    assert_eq!(r.output_file, "output/filtered_by_destination_harbor.csv");
}

#[test]
fn filter_by_price_range_names_its_output_file() {
    let data = vec![trip("a", "d", "7.50"), trip("b", "d", "99.00")];
    let (table, _) = DiskHashTable::build_hash_table_from_csv(&data).unwrap();
    let r = filter_by_price_range(&table, &data, 500, 1000);
    assert_eq!(r.count, 1);
    assert_eq!(r.output_file, "output/filtered_by_price_500_1000.csv");
}
