//! The record wire format: a record is serialized as its 19 fields in
//! canonical order, each field as a 4-byte little-endian length followed by
//! the field's UTF-8 bytes. Decoding is proved to be the exact inverse of
//! encoding, so a record read back from the store is the record that was
//! written.

use crate::trip::{Trip, TripView};
use vstd::bytes::{
    lemma_auto_spec_u32_to_from_le_bytes, spec_u32_from_le_bytes, spec_u32_to_le_bytes,
    u32_from_le_bytes, u32_to_le_bytes,
};
use vstd::prelude::*;
use vstd::slice::{slice_subrange, slice_to_vec};
use vstd::utf8::{encode_utf8, encode_utf8_decode_utf8, encode_utf8_valid_utf8, valid_utf8};

verus! {

/// A field can be framed only if its byte length fits the 4-byte prefix.
pub open spec fn field_encodable(s: Seq<char>) -> bool {
    encode_utf8(s).len() <= u32::MAX
}

/// One framed field: 4-byte little-endian byte count, then the UTF-8 bytes.
pub open spec fn spec_encode_field(s: Seq<char>) -> Seq<u8> {
    spec_u32_to_le_bytes(encode_utf8(s).len() as u32) + encode_utf8(s)
}

/// Framed fields, one after another.
pub open spec fn spec_encode_fields(fs: Seq<Seq<char>>) -> Seq<u8>
    decreases fs.len(),
{
    if fs.len() == 0 {
        Seq::empty()
    } else {
        spec_encode_field(fs[0]) + spec_encode_fields(fs.skip(1))
    }
}

/// A record can be framed only if each of its fields can.
pub open spec fn trip_encodable(t: TripView) -> bool {
    forall|i: int| 0 <= i < t.fields().len() ==> field_encodable(#[trigger] t.fields()[i])
}

/// The serialized form of a record: its fields in canonical order, framed.
pub open spec fn spec_encode_trip(t: TripView) -> Seq<u8> {
    spec_encode_fields(t.fields())
}

/// The fields of a decoded prefix, as character sequences.
pub open spec fn views_of(fl: Seq<String>) -> Seq<Seq<char>> {
    fl.map_values(|s: String| s@)
}

/// `cs` is framed at position `pos` of `b`.
pub open spec fn field_encoding_at(b: Seq<u8>, pos: int, cs: Seq<char>) -> bool {
    &&& field_encodable(cs)
    &&& 0 <= pos
    &&& pos + spec_encode_field(cs).len() <= b.len()
    &&& b.subrange(pos, pos + spec_encode_field(cs).len()) == spec_encode_field(cs)
}

/// A subrange equality read pointwise.
proof fn lemma_subrange_index(b: Seq<u8>, pos: int, e: Seq<u8>)
    requires
        0 <= pos,
        pos + e.len() <= b.len(),
        b.subrange(pos, pos + e.len()) == e,
    ensures
        forall|j: int| 0 <= j < e.len() ==> b[pos + j] == #[trigger] e[j],
{
    assert forall|j: int| 0 <= j < e.len() implies b[pos + j] == #[trigger] e[j] by {
        assert(b.subrange(pos, pos + e.len())[j] == e[j]);
    }
}

/// Framing one more field appends its frame.
pub proof fn lemma_encode_fields_snoc(fs: Seq<Seq<char>>, x: Seq<char>)
    ensures
        spec_encode_fields(fs.push(x)) == spec_encode_fields(fs) + spec_encode_field(x),
    decreases fs.len(),
{
    reveal_with_fuel(spec_encode_fields, 3);
    if fs.len() == 0 {
        assert(fs.push(x)[0] == x);
        assert(fs.push(x).skip(1) =~= Seq::<Seq<char>>::empty());
        assert(spec_encode_fields(fs.push(x)) =~= spec_encode_fields(fs) + spec_encode_field(x));
    } else {
        assert(fs.push(x)[0] == fs[0]);
        assert(fs.push(x).skip(1) =~= fs.skip(1).push(x));
        lemma_encode_fields_snoc(fs.skip(1), x);
        assert(spec_encode_fields(fs.push(x)) =~= spec_encode_fields(fs) + spec_encode_field(x));
    }
}

/// Framed fields split at any point into the frames of the two halves.
pub proof fn lemma_encode_fields_split(fs: Seq<Seq<char>>, i: int)
    requires
        0 <= i <= fs.len(),
    ensures
        spec_encode_fields(fs) == spec_encode_fields(fs.take(i)) + spec_encode_fields(fs.skip(i)),
    decreases i,
{
    reveal_with_fuel(spec_encode_fields, 2);
    if i == 0 {
        assert(fs.take(0) =~= Seq::<Seq<char>>::empty());
        assert(fs.skip(0) =~= fs);
        assert(spec_encode_fields(fs) =~= spec_encode_fields(fs.take(0)) + spec_encode_fields(
            fs.skip(0),
        ));
    } else {
        lemma_encode_fields_split(fs, i - 1);
        assert(fs.take(i) =~= fs.take(i - 1).push(fs[i - 1]));
        lemma_encode_fields_snoc(fs.take(i - 1), fs[i - 1]);
        assert(fs.skip(i - 1)[0] == fs[i - 1]);
        assert(fs.skip(i - 1).skip(1) =~= fs.skip(i));
        assert(spec_encode_fields(fs.skip(i - 1)) == spec_encode_field(fs[i - 1])
            + spec_encode_fields(fs.skip(i)));
        assert(spec_encode_fields(fs) =~= spec_encode_fields(fs.take(i)) + spec_encode_fields(
            fs.skip(i),
        ));
    }
}

/// Framed fields take at least four bytes each.
pub proof fn lemma_encode_fields_min_len(fs: Seq<Seq<char>>)
    ensures
        spec_encode_fields(fs).len() >= 4 * fs.len(),
    decreases fs.len(),
{
    lemma_auto_spec_u32_to_from_le_bytes();
    if fs.len() > 0 {
        lemma_encode_fields_min_len(fs.skip(1));
    }
}

/// Two fields framed at the same position of the same bytes are the same
/// field: the length prefix fixes the frame end, and UTF-8 encoding is
/// injective.
pub proof fn lemma_field_encoding_unique(b: Seq<u8>, pos: int, cs1: Seq<char>, cs2: Seq<char>)
    requires
        field_encoding_at(b, pos, cs1),
        field_encoding_at(b, pos, cs2),
    ensures
        cs1 == cs2,
{
    lemma_auto_spec_u32_to_from_le_bytes();
    let e1 = spec_encode_field(cs1);
    let e2 = spec_encode_field(cs2);
    let n1 = encode_utf8(cs1).len();
    let n2 = encode_utf8(cs2).len();
    lemma_subrange_index(b, pos, e1);
    lemma_subrange_index(b, pos, e2);
    assert(spec_u32_to_le_bytes(n1 as u32) =~= b.subrange(pos, pos + 4));
    assert(spec_u32_to_le_bytes(n2 as u32) =~= b.subrange(pos, pos + 4));
    assert(n1 as u32 == spec_u32_from_le_bytes(b.subrange(pos, pos + 4)));
    assert(n1 == n2);
    assert(e1 =~= e2);
    assert(encode_utf8(cs1) =~= e1.subrange(4, e1.len() as int));
    assert(encode_utf8(cs2) =~= e2.subrange(4, e2.len() as int));
    encode_utf8_decode_utf8(cs1);
    encode_utf8_decode_utf8(cs2);
}

/// Under the hypothesis that `bytes` is the serialized form of `tv`, the
/// frame of field `i` sits right after the frames of the fields before it.
proof fn lemma_trip_field_at(bytes: Seq<u8>, tv: TripView, i: int, pos: int)
    requires
        bytes == spec_encode_trip(tv),
        trip_encodable(tv),
        0 <= i < 19,
        pos == spec_encode_fields(tv.fields().take(i)).len(),
    ensures
        field_encoding_at(bytes, pos, tv.fields()[i]),
        pos + spec_encode_field(tv.fields()[i]).len() == spec_encode_fields(
            tv.fields().take(i + 1),
        ).len(),
{
    lemma_encode_fields_split(tv.fields(), i);
    assert(tv.fields().skip(i)[0] == tv.fields()[i]);
    assert(tv.fields().skip(i).len() > 0);
    let e = spec_encode_field(tv.fields()[i]);
    assert(spec_encode_fields(tv.fields().skip(i)) == e + spec_encode_fields(
        tv.fields().skip(i).skip(1),
    ));
    assert(bytes.subrange(pos, pos + e.len() as int) =~= e);
    assert(tv.fields().take(i + 1) =~= tv.fields().take(i).push(tv.fields()[i]));
    lemma_encode_fields_snoc(tv.fields().take(i), tv.fields()[i]);
}

/// Relies on `String::from_utf8`: it succeeds exactly on valid UTF-8 input
/// and returns the string whose UTF-8 encoding is that input.
#[verifier::external_body]
fn string_from_utf8(bytes: Vec<u8>) -> (r: Option<String>)
    ensures
        r is Some <==> valid_utf8(bytes@),
        r is Some ==> encode_utf8(r->0@) == bytes@,
{
    String::from_utf8(bytes).ok()
}

/// Appends one framed field to `out`. Fails, leaving `out` unchanged,
/// exactly when the field's byte length does not fit the 4-byte prefix.
pub(crate) fn encode_field(out: &mut Vec<u8>, s: &str) -> (ok: bool)
    ensures
        ok <==> field_encodable(s@),
        ok ==> final(out)@ == old(out)@ + spec_encode_field(s@),
        !ok ==> final(out)@ == old(out)@,
{
    let bytes = s.as_bytes();
    let len = bytes.len();
    if len as u64 > u32::MAX as u64 {
        return false;
    }
    let mut len_bytes = u32_to_le_bytes(len as u32);
    out.append(&mut len_bytes);
    out.extend_from_slice(bytes);
    true
}

/// Serializes a record: each field framed, in canonical order. Returns
/// `None` exactly when some field's byte length does not fit the prefix.
pub fn encode_trip(t: &Trip) -> (r: Option<Vec<u8>>)
    ensures
        r is Some <==> trip_encodable(t@),
        r is Some ==> r->0@ == spec_encode_trip(t@),
{
    let fields: Vec<&String> = vec![
        &t.vendor_id,
        &t.tpep_pickup_datetime,
        &t.tpep_dropoff_datetime,
        &t.passenger_count,
        &t.trip_distance,
        &t.ratecode_id,
        &t.store_and_fwd_flag,
        &t.pu_location_id,
        &t.do_location_id,
        &t.payment_type,
        &t.fare_amount,
        &t.extra,
        &t.mta_tax,
        &t.tip_amount,
        &t.tolls_amount,
        &t.improvement_surcharge,
        &t.total_amount,
        &t.congestion_surcharge,
        &t.index,
    ];
    proof {
        assert forall|i: int| 0 <= i < 19 implies fields@[i]@ == t@.fields()[i] by {
            assert(t@.fields().len() == 19);
        }
    }
    let mut out: Vec<u8> = Vec::new();
    let mut i: usize = 0;
    while i < 19
        invariant
            0 <= i <= 19,
            fields@.len() == 19,
            t@.fields().len() == 19,
            forall|j: int| 0 <= j < 19 ==> #[trigger] fields@[j]@ == t@.fields()[j],
            out@ == spec_encode_fields(t@.fields().take(i as int)),
            forall|j: int| 0 <= j < i ==> field_encodable(#[trigger] t@.fields()[j]),
        decreases 19 - i,
    {
        let ok = encode_field(&mut out, fields[i].as_str());
        if !ok {
            return None;
        }
        proof {
            lemma_encode_fields_snoc(t@.fields().take(i as int), t@.fields()[i as int]);
            assert(t@.fields().take(i + 1) =~= t@.fields().take(i as int).push(
                t@.fields()[i as int],
            ));
        }
        i += 1;
    }
    proof {
        assert(t@.fields().take(19) =~= t@.fields());
    }
    Some(out)
}

/// Reads one framed field at position `pos`. Returns the field and the
/// position just past its frame; `None` exactly when no field is framed
/// there.
pub(crate) fn decode_field(bytes: &Vec<u8>, pos: usize) -> (r: Option<(String, usize)>)
    ensures
        match r {
            Some((s, p)) => {
                &&& field_encoding_at(bytes@, pos as int, s@)
                &&& p == pos + spec_encode_field(s@).len()
                &&& p <= bytes@.len()
            },
            None => forall|cs: Seq<char>| !field_encoding_at(bytes@, pos as int, cs),
        },
{
    proof {
        lemma_auto_spec_u32_to_from_le_bytes();
    }
    let n = bytes.len();
    if pos > n || n - pos < 4 {
        proof {
            assert forall|cs: Seq<char>| !field_encoding_at(bytes@, pos as int, cs) by {
                assert(spec_encode_field(cs).len() >= 4);
            }
        }
        return None;
    }
    let len_slice = slice_subrange(bytes.as_slice(), pos, pos + 4);
    let l = u32_from_le_bytes(len_slice);
    if (l as u64) > ((n - pos - 4) as u64) {
        proof {
            assert forall|cs: Seq<char>| !field_encoding_at(bytes@, pos as int, cs) by {
                if field_encoding_at(bytes@, pos as int, cs) {
                    let k = encode_utf8(cs).len() as u32;
                    lemma_subrange_index(bytes@, pos as int, spec_encode_field(cs));
                    assert(spec_u32_to_le_bytes(k) =~= bytes@.subrange(pos as int, pos + 4));
                    assert(l == k);
                }
            }
        }
        return None;
    }
    let end = pos + 4 + (l as usize);
    let payload = slice_to_vec(slice_subrange(bytes.as_slice(), pos + 4, end));
    match string_from_utf8(payload) {
        Some(s) => {
            proof {
                assert(encode_utf8(s@).len() == l);
                assert(bytes@.subrange(pos as int, end as int) =~= spec_encode_field(s@));
            }
            Some((s, end))
        },
        None => {
            proof {
                assert forall|cs: Seq<char>| !field_encoding_at(bytes@, pos as int, cs) by {
                    if field_encoding_at(bytes@, pos as int, cs) {
                        let e = spec_encode_field(cs);
                        let k = encode_utf8(cs).len() as u32;
                        lemma_subrange_index(bytes@, pos as int, e);
                        assert(spec_u32_to_le_bytes(k) =~= bytes@.subrange(pos as int, pos + 4));
                        assert(l == k);
                        assert(encode_utf8(cs) =~= e.subrange(4, e.len() as int));
                        assert(bytes@.subrange(pos + 4, end as int) =~= encode_utf8(cs));
                        encode_utf8_valid_utf8(cs);
                    }
                }
            }
            None
        },
    }
}

/// Deserializes a record: 19 framed fields with nothing left over.
/// Succeeds exactly on the serialized forms that `encode_trip` produces,
/// and then returns the record that was encoded.
#[verifier::rlimit(60)]
pub fn decode_trip(bytes: &Vec<u8>) -> (r: Option<Trip>)
    ensures
        r is Some ==> trip_encodable(r->0@) && bytes@ == spec_encode_trip(r->0@),
        forall|tv: TripView|
            bytes@ == spec_encode_trip(tv) && trip_encodable(tv) ==> r is Some && r->0@ == tv,
{
    let mut fields: Vec<String> = Vec::new();
    let mut pos: usize = 0;
    let mut i: usize = 0;
    while i < 19
        invariant
            0 <= i <= 19,
            fields@.len() == i,
            pos <= bytes@.len(),
            pos == spec_encode_fields(views_of(fields@)).len(),
            bytes@.subrange(0, pos as int) == spec_encode_fields(views_of(fields@)),
            forall|j: int| 0 <= j < i ==> field_encodable(#[trigger] views_of(fields@)[j]),
            forall|tv: TripView|
                bytes@ == spec_encode_trip(tv) && trip_encodable(tv) ==> views_of(fields@)
                    == tv.fields().take(i as int),
        decreases 19 - i,
    {
        let r = decode_field(bytes, pos);
        match r {
            None => {
                proof {
                    assert forall|tv: TripView|
                        !(bytes@ == spec_encode_trip(tv) && trip_encodable(tv)) by {
                        if bytes@ == spec_encode_trip(tv) && trip_encodable(tv) {
                            lemma_trip_field_at(bytes@, tv, i as int, pos as int);
                        }
                    }
                }
                return None;
            },
            Some((s, p)) => {
                proof {
                    assert forall|tv: TripView|
                        bytes@ == spec_encode_trip(tv) && trip_encodable(tv) implies views_of(
                        fields@.push(s),
                    ) == tv.fields().take(i + 1) by {
                        lemma_trip_field_at(bytes@, tv, i as int, pos as int);
                        lemma_field_encoding_unique(bytes@, pos as int, s@, tv.fields()[i as int]);
                        assert(tv.fields().take(i + 1) =~= tv.fields().take(i as int).push(
                            tv.fields()[i as int],
                        ));
                        assert(views_of(fields@.push(s)) =~= tv.fields().take(i + 1));
                    }
                    lemma_encode_fields_snoc(views_of(fields@), s@);
                    assert(views_of(fields@.push(s)) =~= views_of(fields@).push(s@));
                    assert(bytes@.subrange(0, p as int) =~= bytes@.subrange(0, pos as int)
                        + bytes@.subrange(pos as int, p as int));
                }
                fields.push(s);
                pos = p;
            },
        }
        i += 1;
    }
    if pos != bytes.len() {
        proof {
            assert forall|tv: TripView| !(bytes@ == spec_encode_trip(tv) && trip_encodable(tv)) by {
                if bytes@ == spec_encode_trip(tv) && trip_encodable(tv) {
                    assert(tv.fields().take(19) =~= tv.fields());
                }
            }
        }
        return None;
    }
    let t = Trip {
        vendor_id: fields[0].clone(),
        tpep_pickup_datetime: fields[1].clone(),
        tpep_dropoff_datetime: fields[2].clone(),
        passenger_count: fields[3].clone(),
        trip_distance: fields[4].clone(),
        ratecode_id: fields[5].clone(),
        store_and_fwd_flag: fields[6].clone(),
        pu_location_id: fields[7].clone(),
        do_location_id: fields[8].clone(),
        payment_type: fields[9].clone(),
        fare_amount: fields[10].clone(),
        extra: fields[11].clone(),
        mta_tax: fields[12].clone(),
        tip_amount: fields[13].clone(),
        tolls_amount: fields[14].clone(),
        improvement_surcharge: fields[15].clone(),
        total_amount: fields[16].clone(),
        congestion_surcharge: fields[17].clone(),
        index: fields[18].clone(),
    };
    proof {
        assert(t@.fields() =~= views_of(fields@));
        assert(bytes@.subrange(0, bytes@.len() as int) =~= bytes@);
        assert forall|tv: TripView|
            bytes@ == spec_encode_trip(tv) && trip_encodable(tv) implies t@ == tv by {
            assert(views_of(fields@) == tv.fields().take(19));
            assert(tv.fields().take(19) =~= tv.fields());
            assert(t@ == TripView::from_fields(t@.fields()));
            assert(tv == TripView::from_fields(tv.fields()));
        }
    }
    Some(t)
}

} // verus!
