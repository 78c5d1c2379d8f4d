//! Rows of the delimited source dataset: a row is split on commas into
//! fields, a record is built from the first 19 fields, and a record is
//! rendered back as one comma-joined row. A row with fewer fields than the
//! schema requires yields no record (the stream skips it).

use crate::codec::views_of;
use crate::trip::{Trip, TripView};
use vstd::prelude::*;

verus! {

/// How many columns the schema requires.
pub const SCHEMA_FIELDS: usize = 19;

/// Index of the first comma of `s`, or `s.len()` if there is none.
pub open spec fn comma_pos(s: Seq<char>) -> int
    decreases s.len(),
{
    if s.len() == 0 {
        0
    } else if s[0] == ',' {
        0
    } else {
        1 + comma_pos(s.subrange(1, s.len() as int))
    }
}

/// If no character of `s.take(i)` is a comma, and either `i` is the end or
/// `s[i]` is a comma, then `i` is the first comma position.
pub proof fn lemma_comma_pos_from_scan(s: Seq<char>, i: int)
    requires
        0 <= i <= s.len(),
        forall|j: int| 0 <= j < i ==> #[trigger] s[j] != ',',
        i == s.len() || s[i] == ',',
    ensures
        comma_pos(s) == i,
    decreases i,
{
    if i > 0 {
        let t = s.subrange(1, s.len() as int);
        lemma_comma_pos_from_scan(t, i - 1);
    }
}

/// The fields of a row: the text split on every comma. A row always has at
/// least one field; an empty row has one empty field.
pub open spec fn split_commas(s: Seq<char>) -> Seq<Seq<char>>
    decreases s.len(),
{
    let c = comma_pos(s);
    if 0 <= c < s.len() {
        seq![s.take(c)] + split_commas(s.skip(c + 1))
    } else {
        seq![s]
    }
}

/// Builds a record from the first 19 fields of a row, if the row has that
/// many.
pub fn trip_from_fields(fields: &Vec<String>) -> (r: Option<Trip>)
    ensures
        r is Some <==> fields@.len() >= SCHEMA_FIELDS,
        r is Some ==> r->0@.fields() == views_of(fields@).take(SCHEMA_FIELDS as int),
{
    if fields.len() < SCHEMA_FIELDS {
        return None;
    }
    let t = Trip {
        vendor_id: fields[0].clone(),
        tpep_pickup_datetime: fields[1].clone(),
        tpep_dropoff_datetime: fields[2].clone(),
        passenger_count: fields[3].clone(),
        trip_distance: fields[4].clone(),
        ratecode_id: fields[5].clone(),
        store_and_fwd_flag: fields[6].clone(),
        pu_location_id: fields[7].clone(),
        do_location_id: fields[8].clone(),
        payment_type: fields[9].clone(),
        fare_amount: fields[10].clone(),
        extra: fields[11].clone(),
        mta_tax: fields[12].clone(),
        tip_amount: fields[13].clone(),
        tolls_amount: fields[14].clone(),
        improvement_surcharge: fields[15].clone(),
        total_amount: fields[16].clone(),
        congestion_surcharge: fields[17].clone(),
        index: fields[18].clone(),
    };
    proof {
        assert(t@.fields() =~= views_of(fields@).take(SCHEMA_FIELDS as int));
    }
    Some(t)
}

/// Splits one row into its fields.
pub fn split_row(line: &str) -> (r: Vec<String>)
    ensures
        views_of(r@) == split_commas(line@),
{
    let n = line.unicode_len();
    let mut fields: Vec<String> = Vec::new();
    let mut start: usize = 0;
    let mut i: usize = 0;
    proof {
        assert(line@.skip(0) =~= line@);
        assert(views_of(fields@) =~= Seq::<Seq<char>>::empty());
        assert(split_commas(line@) =~= views_of(fields@) + split_commas(line@.skip(0)));
    }
    while i < n
        invariant
            0 <= start <= i <= n,
            n == line@.len(),
            split_commas(line@) == views_of(fields@) + split_commas(line@.skip(start as int)),
            forall|j: int| start <= j < i ==> #[trigger] line@[j] != ',',
        decreases n - i,
    {
        let c = line.get_char(i);
        if c == ',' {
            let piece = line.substring_char(start, i).to_owned();
            proof {
                let rest = line@.skip(start as int);
                assert(forall|j: int|
                    0 <= j < rest.len() ==> #[trigger] rest[j] == line@[start + j]);
                lemma_comma_pos_from_scan(rest, i - start);
                assert(rest.take(i - start) =~= line@.subrange(start as int, i as int));
                assert(rest.skip(i - start + 1) =~= line@.skip(i + 1));
                assert(views_of(fields@.push(piece)) =~= views_of(fields@).push(piece@));
                assert(views_of(fields@) + split_commas(rest) =~= views_of(fields@.push(piece))
                    + split_commas(line@.skip(i + 1)));
            }
            fields.push(piece);
            start = i + 1;
        }
        i += 1;
    }
    let piece = line.substring_char(start, n).to_owned();
    proof {
        let rest = line@.skip(start as int);
        assert(forall|j: int| 0 <= j < rest.len() ==> #[trigger] rest[j] == line@[start + j]);
        lemma_comma_pos_from_scan(rest, n - start);
        assert(rest =~= line@.subrange(start as int, n as int));
        assert(views_of(fields@.push(piece)) =~= views_of(fields@).push(piece@));
        assert(views_of(fields@) + split_commas(rest) =~= views_of(fields@.push(piece)));
    }
    fields.push(piece);
    fields
}

/// Decodes one row of the source dataset into a record: the row is split
/// on commas and the first 19 fields become the record. Returns `None`
/// exactly when the row has fewer fields than the schema requires.
pub fn parse_row(line: &str) -> (r: Option<Trip>)
    ensures
        r is Some <==> split_commas(line@).len() >= SCHEMA_FIELDS,
        r is Some ==> r->0@.fields() == split_commas(line@).take(SCHEMA_FIELDS as int),
{
    let fields = split_row(line);
    trip_from_fields(&fields)
}

/// A sequence of fields joined with commas.
pub open spec fn join_commas(fs: Seq<Seq<char>>) -> Seq<char>
    decreases fs.len(),
{
    if fs.len() == 0 {
        Seq::empty()
    } else if fs.len() == 1 {
        fs[0]
    } else {
        fs[0] + seq![','] + join_commas(fs.skip(1))
    }
}

/// Joining one more field appends a comma and the field.
pub proof fn lemma_join_commas_snoc(fs: Seq<Seq<char>>, x: Seq<char>)
    requires
        fs.len() >= 1,
    ensures
        join_commas(fs.push(x)) == join_commas(fs) + seq![','] + x,
    decreases fs.len(),
{
    reveal_with_fuel(join_commas, 3);
    if fs.len() == 1 {
        assert(fs.push(x)[0] == fs[0]);
        assert(fs.push(x).skip(1) =~= seq![x]);
        assert(join_commas(fs.push(x)) =~= join_commas(fs) + seq![','] + x);
    } else {
        assert(fs.push(x)[0] == fs[0]);
        assert(fs.push(x).skip(1) =~= fs.skip(1).push(x));
        lemma_join_commas_snoc(fs.skip(1), x);
        assert(join_commas(fs.push(x)) =~= join_commas(fs) + seq![','] + x);
    }
}

/// The canonical rendering of a record: its 19 fields joined with commas.
pub open spec fn spec_render_row(t: TripView) -> Seq<char> {
    join_commas(t.fields())
}

/// Renders a record as one row in canonical field order.
pub fn render_row(t: &Trip) -> (r: String)
    ensures
        r@ == spec_render_row(t@),
{
    let fields: Vec<&String> = vec![
        &t.vendor_id,
        &t.tpep_pickup_datetime,
        &t.tpep_dropoff_datetime,
        &t.passenger_count,
        &t.trip_distance,
        &t.ratecode_id,
        &t.store_and_fwd_flag,
        &t.pu_location_id,
        &t.do_location_id,
        &t.payment_type,
        &t.fare_amount,
        &t.extra,
        &t.mta_tax,
        &t.tip_amount,
        &t.tolls_amount,
        &t.improvement_surcharge,
        &t.total_amount,
        &t.congestion_surcharge,
        &t.index,
    ];
    proof {
        assert forall|i: int| 0 <= i < 19 implies fields@[i]@ == t@.fields()[i] by {
            assert(t@.fields().len() == 19);
        }
        reveal_strlit(",");
    }
    let mut out = String::new();
    let mut i: usize = 0;
    while i < 19
        invariant
            0 <= i <= 19,
            fields@.len() == 19,
            t@.fields().len() == 19,
            forall|j: int| 0 <= j < 19 ==> #[trigger] fields@[j]@ == t@.fields()[j],
            ","@ =~= seq![','],
            out@ == join_commas(t@.fields().take(i as int)),
        decreases 19 - i,
    {
        if i > 0 {
            out.append(",");
        }
        out.append(fields[i].as_str());
        proof {
            assert(t@.fields().take(i + 1) =~= t@.fields().take(i as int).push(
                t@.fields()[i as int],
            ));
            if i == 0 {
                assert(join_commas(t@.fields().take(1)) == t@.fields()[0]);
            } else {
                lemma_join_commas_snoc(t@.fields().take(i as int), t@.fields()[i as int]);
            }
        }
        i += 1;
    }
    proof {
        assert(t@.fields().take(19) =~= t@.fields());
    }
    out
}

/// The header row of the dataset's 19-column schema.
pub open spec fn spec_header() -> Seq<char> {
    "vendor_id,tpep_pickup_datetime,tpep_dropoff_datetime,passenger_count,trip_distance,ratecode_id,store_and_fwd_flag,pu_location_id,do_location_id,payment_type,fare_amount,extra,mta_tax,tip_amount,tolls_amount,improvement_surcharge,total_amount,congestion_surcharge,index"@
}

/// The header row, written once at the top of every filtered output.
pub fn csv_header() -> (r: String)
    ensures
        r@ == spec_header(),
{
    let h = "vendor_id,tpep_pickup_datetime,tpep_dropoff_datetime,passenger_count,trip_distance,ratecode_id,store_and_fwd_flag,pu_location_id,do_location_id,payment_type,fare_amount,extra,mta_tax,tip_amount,tolls_amount,improvement_surcharge,total_amount,congestion_surcharge,index";
    h.to_owned()
}

} // verus!
