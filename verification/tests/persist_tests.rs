use trip_query::disk_hash::{DiskHashTable, IndexError};
use trip_query::trip::Trip;

fn trip(key: &str, dest: &str, amount: &str) -> Trip {
    Trip {
        vendor_id: String::from("1"),
        tpep_pickup_datetime: String::from("2020-01-01 10:00:00"),
        tpep_dropoff_datetime: String::from("2020-01-01 10:30:00"),
        passenger_count: String::from("2"),
        trip_distance: String::from("3.5"),
        ratecode_id: String::from("1"),
        store_and_fwd_flag: String::from("N"),
        pu_location_id: String::from("100"),
        do_location_id: String::from(dest),
        payment_type: String::from("1"),
        fare_amount: String::from("10.0"),
        extra: String::from("0.5"),
        mta_tax: String::from("0.5"),
        tip_amount: String::from("2.0"),
        tolls_amount: String::from("0"),
        improvement_surcharge: String::from("0.3"),
        total_amount: String::from(amount),
        congestion_surcharge: String::from("2.5"),
        index: String::from(key),
    }
}

#[test]
fn blobs_round_trip_preserves_every_mapping() {
    let data = vec![
        trip("a", "d1", "1.00"),
        trip("b", "d2", "2.00"),
        trip("a", "d3", "3.00"),
        trip("c", "d1", "4.00"),
    ];
    let (table, _) = DiskHashTable::build_hash_table_from_csv(&data).unwrap();
    let (table_blob, store_blob) = table.to_blobs();
    let reopened = DiskHashTable::from_blobs(&table_blob, &store_blob).unwrap();
    assert_eq!(reopened.count_entries(), 3);
    let a = reopened.get("a").unwrap();
    assert_eq!(a.do_location_id, "d3");
    assert_eq!(a.total_amount, "3.00");
    assert_eq!(reopened.get("b").unwrap().total_amount, "2.00");
    assert_eq!(reopened.get("c").unwrap().do_location_id, "d1");
    assert!(reopened.get("d").is_none());
}

#[test]
fn empty_index_round_trips() {
    let table = DiskHashTable::new();
    let (table_blob, store_blob) = table.to_blobs();
    assert!(table_blob.is_empty());
    assert!(store_blob.is_empty());
    let reopened = DiskHashTable::from_blobs(&table_blob, &store_blob).unwrap();
    assert_eq!(reopened.count_entries(), 0);
}

#[test]
fn corrupt_table_blob_is_refused() {
    let data = vec![trip("a", "d1", "1.00")];
    let (table, _) = DiskHashTable::build_hash_table_from_csv(&data).unwrap();
    let (table_blob, store_blob) = table.to_blobs();

    // Garbage instead of a table.
    let garbage = vec![7u8, 7, 7];
    assert!(matches!(
        DiskHashTable::from_blobs(&garbage, &store_blob),
        Err(IndexError::Corrupt)
    ));

    // A truncated table blob.
    let mut truncated = table_blob.clone();
    truncated.pop();
    assert!(matches!(
        DiskHashTable::from_blobs(&truncated, &store_blob),
        Err(IndexError::Corrupt)
    ));

    // A valid table over an emptied store: the offset frames nothing.
    let empty_store: Vec<u8> = Vec::new();
    assert!(matches!(
        DiskHashTable::from_blobs(&table_blob, &empty_store),
        Err(IndexError::Corrupt)
    ));
}
