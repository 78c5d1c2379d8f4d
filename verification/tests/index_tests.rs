use trip_query::disk_hash::{calculate_hash, DiskHashTable};
use trip_query::trip::Trip;

fn trip(key: &str, dest: &str, amount: &str) -> Trip {
    Trip {
        vendor_id: String::from("1"),
        tpep_pickup_datetime: String::from("2020-01-01 10:00:00"),
        tpep_dropoff_datetime: String::from("2020-01-01 10:30:00"),
        passenger_count: String::from("2"),
        trip_distance: String::from("3.5"),
        ratecode_id: String::from("1"),
        store_and_fwd_flag: String::from("N"),
        pu_location_id: String::from("100"),
        do_location_id: String::from(dest),
        payment_type: String::from("1"),
        fare_amount: String::from("10.0"),
        extra: String::from("0.5"),
        mta_tax: String::from("0.5"),
        tip_amount: String::from("2.0"),
        tolls_amount: String::from("0"),
        improvement_surcharge: String::from("0.3"),
        total_amount: String::from(amount),
        congestion_surcharge: String::from("2.5"),
        index: String::from(key),
    }
}

#[test]
fn insert_then_get_round_trip() {
    let mut table = DiskHashTable::new();
    let t = trip("k1", "dest9", "13.30");
    table.insert(String::from("k1"), t.clone()).unwrap();
    let got = table.get("k1").expect("key must be present");
    assert_eq!(got.vendor_id, t.vendor_id);
    assert_eq!(got.tpep_pickup_datetime, t.tpep_pickup_datetime);
    assert_eq!(got.tpep_dropoff_datetime, t.tpep_dropoff_datetime);
    assert_eq!(got.passenger_count, t.passenger_count);
    assert_eq!(got.trip_distance, t.trip_distance);
    assert_eq!(got.ratecode_id, t.ratecode_id);
    assert_eq!(got.store_and_fwd_flag, t.store_and_fwd_flag);
    assert_eq!(got.pu_location_id, t.pu_location_id);
    assert_eq!(got.do_location_id, t.do_location_id);
    assert_eq!(got.payment_type, t.payment_type);
    assert_eq!(got.fare_amount, t.fare_amount);
    assert_eq!(got.extra, t.extra);
    assert_eq!(got.mta_tax, t.mta_tax);
    assert_eq!(got.tip_amount, t.tip_amount);
    assert_eq!(got.tolls_amount, t.tolls_amount);
    assert_eq!(got.improvement_surcharge, t.improvement_surcharge);
    assert_eq!(got.total_amount, t.total_amount);
    assert_eq!(got.congestion_surcharge, t.congestion_surcharge);
    assert_eq!(got.index, t.index);
}

#[test]
fn get_absent_key_is_none() {
    let mut table = DiskHashTable::new();
    table
        .insert(String::from("present"), trip("present", "1", "1.0"))
        .unwrap();
    assert!(table.get("absent").is_none());
    assert!(DiskHashTable::new().get("anything").is_none());
}

#[test]
fn last_write_wins_on_same_key() {
    let mut table = DiskHashTable::new();
    table
        .insert(String::from("dup"), trip("dup", "first", "1.00"))
        .unwrap();
    table
        .insert(String::from("dup"), trip("dup", "second", "2.00"))
        .unwrap();
    let got = table.get("dup").unwrap();
    assert_eq!(got.do_location_id, "second");
    assert_eq!(got.total_amount, "2.00");
    assert_eq!(table.count_entries(), 1);
}

#[test]
fn build_from_dataset_last_write_wins() {
    let data = vec![
        trip("a", "d1", "1.00"),
        trip("b", "d2", "2.00"),
        trip("a", "d3", "3.00"),
    ];
    let (table, n) = DiskHashTable::build_hash_table_from_csv(&data).unwrap();
    assert_eq!(n, 3);
    assert_eq!(table.count_entries(), 2);
    let got = table.get("a").unwrap();
    assert_eq!(got.do_location_id, "d3");
    assert_eq!(got.total_amount, "3.00");
    let got_b = table.get("b").unwrap();
    assert_eq!(got_b.do_location_id, "d2");
}

#[test]
fn count_entries_counts_live_mappings() {
    let mut table = DiskHashTable::new();
    assert_eq!(table.count_entries(), 0);
    for i in 0..10 {
        table
            .insert(format!("key{}", i), trip(&format!("key{}", i), "d", "1.0"))
            .unwrap();
    }
    assert_eq!(table.count_entries(), 10);
    table
        .insert(String::from("key3"), trip("key3", "d", "9.0"))
        .unwrap();
    assert_eq!(table.count_entries(), 10);
}

#[test]
fn hash_is_deterministic() {
    assert_eq!(calculate_hash("some key"), calculate_hash("some key"));
    assert_eq!(calculate_hash(""), calculate_hash(""));
}

#[test]
fn empty_key_and_empty_fields_round_trip() {
    let mut table = DiskHashTable::new();
    let mut t = trip("", "", "");
    t.vendor_id = String::new();
    table.insert(String::new(), t).unwrap();
    let got = table.get("").unwrap();
    assert_eq!(got.vendor_id, "");
    assert_eq!(got.total_amount, "");
}
