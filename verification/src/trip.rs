//! The record type: one ride transaction with 19 text fields, keyed by the
//! unique `index` field.

use vstd::prelude::*;

verus! {

/// One ride transaction. All 19 fields are stored as text, in the canonical
/// column order of the source dataset; `index` is the unique key by which
/// records are addressed.
#[derive(Debug)]
pub struct Trip {
    pub vendor_id: String,
    pub tpep_pickup_datetime: String,
    pub tpep_dropoff_datetime: String,
    pub passenger_count: String,
    pub trip_distance: String,
    pub ratecode_id: String,
    pub store_and_fwd_flag: String,
    pub pu_location_id: String,
    pub do_location_id: String,
    pub payment_type: String,
    pub fare_amount: String,
    pub extra: String,
    pub mta_tax: String,
    pub tip_amount: String,
    pub tolls_amount: String,
    pub improvement_surcharge: String,
    pub total_amount: String,
    pub congestion_surcharge: String,
    pub index: String,
}

/// The mathematical value of a `Trip`: each field as its character sequence.
pub struct TripView {
    pub vendor_id: Seq<char>,
    pub tpep_pickup_datetime: Seq<char>,
    pub tpep_dropoff_datetime: Seq<char>,
    pub passenger_count: Seq<char>,
    pub trip_distance: Seq<char>,
    pub ratecode_id: Seq<char>,
    pub store_and_fwd_flag: Seq<char>,
    pub pu_location_id: Seq<char>,
    pub do_location_id: Seq<char>,
    pub payment_type: Seq<char>,
    pub fare_amount: Seq<char>,
    pub extra: Seq<char>,
    pub mta_tax: Seq<char>,
    pub tip_amount: Seq<char>,
    pub tolls_amount: Seq<char>,
    pub improvement_surcharge: Seq<char>,
    pub total_amount: Seq<char>,
    pub congestion_surcharge: Seq<char>,
    pub index: Seq<char>,
}

impl TripView {
    /// The fields in canonical column order, as one sequence.
    pub open spec fn fields(self) -> Seq<Seq<char>> {
        seq![
            self.vendor_id,
            self.tpep_pickup_datetime,
            self.tpep_dropoff_datetime,
            self.passenger_count,
            self.trip_distance,
            self.ratecode_id,
            self.store_and_fwd_flag,
            self.pu_location_id,
            self.do_location_id,
            self.payment_type,
            self.fare_amount,
            self.extra,
            self.mta_tax,
            self.tip_amount,
            self.tolls_amount,
            self.improvement_surcharge,
            self.total_amount,
            self.congestion_surcharge,
            self.index,
        ]
    }

    /// Rebuilds a view from fields in canonical column order.
    pub open spec fn from_fields(fields: Seq<Seq<char>>) -> TripView {
        TripView {
            vendor_id: fields[0],
            tpep_pickup_datetime: fields[1],
            tpep_dropoff_datetime: fields[2],
            passenger_count: fields[3],
            trip_distance: fields[4],
            ratecode_id: fields[5],
            store_and_fwd_flag: fields[6],
            pu_location_id: fields[7],
            do_location_id: fields[8],
            payment_type: fields[9],
            fare_amount: fields[10],
            extra: fields[11],
            mta_tax: fields[12],
            tip_amount: fields[13],
            tolls_amount: fields[14],
            improvement_surcharge: fields[15],
            total_amount: fields[16],
            congestion_surcharge: fields[17],
            index: fields[18],
        }
    }
}

impl View for Trip {
    type V = TripView;

    open spec fn view(&self) -> TripView {
        TripView {
            vendor_id: self.vendor_id@,
            tpep_pickup_datetime: self.tpep_pickup_datetime@,
            tpep_dropoff_datetime: self.tpep_dropoff_datetime@,
            passenger_count: self.passenger_count@,
            trip_distance: self.trip_distance@,
            ratecode_id: self.ratecode_id@,
            store_and_fwd_flag: self.store_and_fwd_flag@,
            pu_location_id: self.pu_location_id@,
            do_location_id: self.do_location_id@,
            payment_type: self.payment_type@,
            fare_amount: self.fare_amount@,
            extra: self.extra@,
            mta_tax: self.mta_tax@,
            tip_amount: self.tip_amount@,
            tolls_amount: self.tolls_amount@,
            improvement_surcharge: self.improvement_surcharge@,
            total_amount: self.total_amount@,
            congestion_surcharge: self.congestion_surcharge@,
            index: self.index@,
        }
    }
}

impl DeepView for Trip {
    type V = TripView;

    open spec fn deep_view(&self) -> TripView {
        self.view()
    }
}

impl Clone for Trip {
    /// A clone carries every field over unchanged.
    fn clone(&self) -> (r: Self)
        ensures
            r == *self,
    {
        Trip {
            vendor_id: self.vendor_id.clone(),
            tpep_pickup_datetime: self.tpep_pickup_datetime.clone(),
            tpep_dropoff_datetime: self.tpep_dropoff_datetime.clone(),
            passenger_count: self.passenger_count.clone(),
            trip_distance: self.trip_distance.clone(),
            ratecode_id: self.ratecode_id.clone(),
            store_and_fwd_flag: self.store_and_fwd_flag.clone(),
            pu_location_id: self.pu_location_id.clone(),
            do_location_id: self.do_location_id.clone(),
            payment_type: self.payment_type.clone(),
            fare_amount: self.fare_amount.clone(),
            extra: self.extra.clone(),
            mta_tax: self.mta_tax.clone(),
            tip_amount: self.tip_amount.clone(),
            tolls_amount: self.tolls_amount.clone(),
            improvement_surcharge: self.improvement_surcharge.clone(),
            total_amount: self.total_amount.clone(),
            congestion_surcharge: self.congestion_surcharge.clone(),
            index: self.index.clone(),
        }
    }
}

} // verus!
