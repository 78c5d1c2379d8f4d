use trip_query::codec::{decode_trip, encode_trip};
use trip_query::rows::{csv_header, parse_row, render_row, split_row};
use trip_query::store::RecordStore;
use trip_query::trip::Trip;

const HEADER: &str = "vendor_id,tpep_pickup_datetime,tpep_dropoff_datetime,passenger_count,trip_distance,ratecode_id,store_and_fwd_flag,pu_location_id,do_location_id,payment_type,fare_amount,extra,mta_tax,tip_amount,tolls_amount,improvement_surcharge,total_amount,congestion_surcharge,index";

#[test]
fn header_lists_all_nineteen_columns() {
    let h = csv_header();
    assert_eq!(h, HEADER);
    assert_eq!(h.split(',').count(), 19);
}

#[test]
fn parse_row_reads_nineteen_fields() {
    let line = "2,2020-01-01 10:00:00,2020-01-01 10:30:00,1,2.5,1,N,41,66,2,9.5,0.5,0.5,1.0,0,0.3,11.8,2.5,ride1";
    let t = parse_row(line).expect("well-formed row must parse");
    assert_eq!(t.vendor_id, "2");
    assert_eq!(t.passenger_count, "1");
    assert_eq!(t.trip_distance, "2.5");
    assert_eq!(t.do_location_id, "66");
    assert_eq!(t.total_amount, "11.8");
    assert_eq!(t.congestion_surcharge, "2.5");
    assert_eq!(t.index, "ride1");
}

#[test]
fn parse_row_skips_short_rows() {
    assert!(parse_row("only,three,fields").is_none());
    assert!(parse_row("").is_none());
    let eighteen = "a,b,c,d,e,f,g,h,i,j,k,l,m,n,o,p,q,r";
    assert!(parse_row(eighteen).is_none());
}

#[test]
fn parse_row_takes_first_nineteen_of_more() {
    let twenty = "a,b,c,d,e,f,g,h,i,j,k,l,m,n,o,p,q,r,s,t";
    let t = parse_row(twenty).expect("long row still yields a record");
    assert_eq!(t.vendor_id, "a");
    assert_eq!(t.index, "s");
}

#[test]
fn split_row_keeps_empty_fields() {
    let fields = split_row("a,,c");
    assert_eq!(fields, vec!["a", "", "c"]);
    assert_eq!(split_row(""), vec![""]);
    assert_eq!(split_row(","), vec!["", ""]);
}

#[test]
fn render_row_inverts_parse_row() {
    let line = "2,2020-01-01 10:00:00,2020-01-01 10:30:00,1,2.5,1,N,41,66,2,9.5,0.5,0.5,1.0,0,0.3,11.8,2.5,ride1";
    let t = parse_row(line).unwrap();
    assert_eq!(render_row(&t), line);
}

#[test]
fn codec_round_trips_every_field() {
    let line = "2,2020-01-01 10:00:00,2020-01-01 10:30:00,1,2.5,1,N,41,66,2,9.5,0.5,0.5,1.0,0,0.3,11.8,2.5,ride1";
    let t = parse_row(line).unwrap();
    let bytes = encode_trip(&t).expect("ordinary record must encode");
    let back = decode_trip(&bytes).expect("its encoding must decode");
    assert_eq!(render_row(&back), line);
}

#[test]
fn decode_rejects_garbage() {
    assert!(decode_trip(&Vec::new()).is_none());
    assert!(decode_trip(&vec![1, 2, 3]).is_none());
    let t = parse_row("a,b,c,d,e,f,g,h,i,j,k,l,m,n,o,p,q,r,s").unwrap();
    let mut bytes = encode_trip(&t).unwrap();
    bytes.push(0);
    assert!(decode_trip(&bytes).is_none(), "trailing byte must be refused");
}

#[test]
fn codec_handles_non_ascii_text() {
    let t = parse_row("ü,路,c,d,e,f,g,h,i,j,k,l,m,n,o,p,q,r,clé").unwrap();
    let bytes = encode_trip(&t).unwrap();
    let back = decode_trip(&bytes).unwrap();
    assert_eq!(back.vendor_id, "ü");
    assert_eq!(back.tpep_pickup_datetime, "路");
    assert_eq!(back.index, "clé");
}

#[test]
fn store_frames_round_trip() {
    let mut store = RecordStore::new();
    let p1 = vec![1u8, 2, 3];
    let p2 = vec![9u8];
    let off1 = store.append(&p1).unwrap();
    let off2 = store.append(&p2).unwrap();
    assert_eq!(off1, 0);
    assert_eq!(off2, 7);
    assert_eq!(store.read_frame(off1).unwrap(), p1);
    assert_eq!(store.read_frame(off2).unwrap(), p2);
    assert_eq!(store.size(), 12);
}

#[test]
fn store_read_at_bad_offset_is_none() {
    let mut store = RecordStore::new();
    store.append(&vec![1u8, 2, 3]).unwrap();
    assert!(store.read_frame(100).is_none());
    assert!(store.read_frame(6).is_none());
}
