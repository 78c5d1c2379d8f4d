use trip_query::amount::{int_to_text, parse_amount};
use trip_query::disk_hash::DiskHashTable;
use trip_query::filters::TripFilter;
use trip_query::query::{can_use_hash_index, execute_filter, scan_filter};
use trip_query::trip::Trip;

fn trip(key: &str, dest: &str, amount: &str) -> Trip {
    Trip {
        vendor_id: String::from("1"),
        tpep_pickup_datetime: String::from("2020-01-01 10:00:00"),
        tpep_dropoff_datetime: String::from("2020-01-01 10:30:00"),
        passenger_count: String::from("2"),
        trip_distance: String::from("3.5"),
        ratecode_id: String::from("1"),
        store_and_fwd_flag: String::from("N"),
        pu_location_id: String::from("100"),
        do_location_id: String::from(dest),
        payment_type: String::from("1"),
        fare_amount: String::from("10.0"),
        extra: String::from("0.5"),
        mta_tax: String::from("0.5"),
        tip_amount: String::from("2.0"),
        tolls_amount: String::from("0"),
        improvement_surcharge: String::from("0.3"),
        total_amount: String::from(amount),
        congestion_surcharge: String::from("2.5"),
        index: String::from(key),
    }
}

#[test]
fn parse_amount_reads_plain_decimals() {
    assert_eq!(parse_amount("12.34"), 1234);
    assert_eq!(parse_amount("5"), 500);
    assert_eq!(parse_amount("5.0"), 500);
    assert_eq!(parse_amount(".5"), 50);
    assert_eq!(parse_amount("1."), 100);
    assert_eq!(parse_amount("-0.5"), -50);
    assert_eq!(parse_amount("+2"), 200);
    assert_eq!(parse_amount("5.001"), 500);
    assert_eq!(parse_amount("0"), 0);
}

#[test]
fn parse_amount_reads_junk_as_zero() {
    assert_eq!(parse_amount(""), 0);
    assert_eq!(parse_amount("abc"), 0);
    assert_eq!(parse_amount("1e3"), 0);
    assert_eq!(parse_amount("."), 0);
    assert_eq!(parse_amount("-"), 0);
    assert_eq!(parse_amount("1.2.3"), 0);
    assert_eq!(parse_amount(" 5"), 0);
    assert_eq!(parse_amount("99999999999999999999999999999"), 0);
}

#[test]
fn int_to_text_renders_decimals() {
    assert_eq!(int_to_text(0), "0");
    assert_eq!(int_to_text(7), "7");
    assert_eq!(int_to_text(1234), "1234");
    assert_eq!(int_to_text(-250), "-250");
    assert_eq!(int_to_text(i64::MAX), "9223372036854775807");
    assert_eq!(int_to_text(i64::MIN), "-9223372036854775808");
}

#[test]
fn price_filter_checks_both_bounds() {
    let f = TripFilter::Price {
        min: Some(500),
        max: Some(1500),
    };
    assert!(f.matches(&trip("k", "d", "5.00")));
    assert!(f.matches(&trip("k", "d", "15.00")));
    assert!(f.matches(&trip("k", "d", "10.10")));
    assert!(!f.matches(&trip("k", "d", "4.99")));
    assert!(!f.matches(&trip("k", "d", "15.01")));
}

#[test]
fn min_only_price_filter_excludes_unparsable_amount() {
    let f = TripFilter::Price {
        min: Some(500),
        max: None,
    };
    assert!(!f.matches(&trip("k", "d", "not a number")));
    assert!(f.matches(&trip("k", "d", "5.00")));
}

#[test]
fn max_only_price_filter_includes_unparsable_amount() {
    let f = TripFilter::Price {
        min: None,
        max: Some(500),
    };
    assert!(f.matches(&trip("k", "d", "garbage")));
}

#[test]
fn empty_and_matches_everything_empty_or_nothing() {
    let t = trip("k", "d", "1.00");
    assert!(TripFilter::And(vec![]).matches(&t));
    assert!(!TripFilter::Or(vec![]).matches(&t));
}

#[test]
fn and_or_combinators_evaluate_recursively() {
    let t = trip("k7", "zone4", "10.00");
    let both = TripFilter::And(vec![
        TripFilter::Index(String::from("k7")),
        TripFilter::Price {
            min: Some(500),
            max: None,
        },
    ]);
    assert!(both.matches(&t));
    let either = TripFilter::Or(vec![
        TripFilter::Destination(String::from("elsewhere")),
        TripFilter::Destination(String::from("zone4")),
    ]);
    assert!(either.matches(&t));
    let neither = TripFilter::Or(vec![
        TripFilter::Destination(String::from("elsewhere")),
        TripFilter::Index(String::from("other")),
    ]);
    assert!(!neither.matches(&t));
}

#[test]
fn index_eligibility_finds_first_key_leaf() {
    assert_eq!(
        can_use_hash_index(&TripFilter::Index(String::from("abc"))),
        Some(String::from("abc"))
    );
    let nested = TripFilter::And(vec![
        TripFilter::Price {
            min: Some(100),
            max: None,
        },
        TripFilter::Index(String::from("first")),
        TripFilter::Index(String::from("second")),
    ]);
    assert_eq!(can_use_hash_index(&nested), Some(String::from("first")));
    assert_eq!(
        can_use_hash_index(&TripFilter::Destination(String::from("d"))),
        None
    );
    assert_eq!(can_use_hash_index(&TripFilter::Or(vec![])), None);
}

#[test]
fn indexed_execution_equals_full_scan() {
    let data = vec![
        trip("a", "d1", "5.00"),
        trip("b", "d2", "10.00"),
        trip("c", "d1", "15.00"),
    ];
    let (table, _) = DiskHashTable::build_hash_table_from_csv(&data).unwrap();
    let filter = TripFilter::Index(String::from("b"));
    let indexed = execute_filter(&table, &data, &filter, None);
    let scanned = scan_filter(&data, &filter, None);
    assert_eq!(indexed.len(), scanned.len());
    assert_eq!(indexed.len(), 1);
    assert_eq!(indexed[0].index, scanned[0].index);
    assert_eq!(indexed[0].do_location_id, scanned[0].do_location_id);
}

#[test]
fn indexed_execution_falls_back_on_absent_key() {
    let data = vec![trip("a", "d1", "5.00"), trip("b", "d2", "10.00")];
    let (table, _) = DiskHashTable::build_hash_table_from_csv(&data).unwrap();
    let filter = TripFilter::Index(String::from("missing"));
    let indexed = execute_filter(&table, &data, &filter, None);
    let scanned = scan_filter(&data, &filter, None);
    assert_eq!(indexed.len(), 0);
    assert_eq!(scanned.len(), 0);
}

#[test]
fn indexed_execution_verifies_whole_filter_tree() {
    let data = vec![trip("a", "d1", "5.00"), trip("b", "d2", "10.00")];
    let (table, _) = DiskHashTable::build_hash_table_from_csv(&data).unwrap();
    // The key matches but the price constraint does not.
    let filter = TripFilter::And(vec![
        TripFilter::Index(String::from("a")),
        TripFilter::Price {
            min: Some(900),
            max: None,
        },
    ]);
    let indexed = execute_filter(&table, &data, &filter, None);
    assert_eq!(indexed.len(), 0);
    // With a satisfied price constraint the record comes back.
    let filter2 = TripFilter::And(vec![
        TripFilter::Index(String::from("b")),
        TripFilter::Price {
            min: Some(900),
            max: None,
        },
    ]);
    let indexed2 = execute_filter(&table, &data, &filter2, None);
    assert_eq!(indexed2.len(), 1);
    assert_eq!(indexed2[0].index, "b");
}

#[test]
fn scan_stops_at_result_bound() {
    let data = vec![
        trip("a", "d", "5.00"),
        trip("b", "d", "5.00"),
        trip("c", "d", "5.00"),
        trip("d", "d", "5.00"),
    ];
    let filter = TripFilter::Destination(String::from("d"));
    let bounded = scan_filter(&data, &filter, Some(2));
    assert_eq!(bounded.len(), 2);
    assert_eq!(bounded[0].index, "a");
    assert_eq!(bounded[1].index, "b");
    let zero = scan_filter(&data, &filter, Some(0));
    assert_eq!(zero.len(), 0);
    let all = scan_filter(&data, &filter, None);
    assert_eq!(all.len(), 4);
}
