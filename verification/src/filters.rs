//! The filter tree: leaf predicates over single record fields, combined by
//! AND and OR nodes, evaluated by structural recursion.

use crate::amount::{parse_amount, spec_parse_amount};
use crate::trip::{Trip, TripView};
use vstd::prelude::*;

verus! {

/// A boolean predicate tree over records.
pub enum TripFilter {
    /// Range over the total-amount field, read as hundredths; each bound is
    /// optional, and an absent bound is unconstrained.
    Price { min: Option<i64>, max: Option<i64> },
    /// Exact match on the unique key field.
    Index(String),
    /// Exact match on the dropoff-location field.
    Destination(String),
    /// True exactly when every child matches (vacuously true of no children).
    And(Vec<TripFilter>),
    /// True exactly when some child matches (vacuously false of no children).
    Or(Vec<TripFilter>),
}

/// What a filter means on a record.
pub open spec fn spec_matches(f: TripFilter, t: TripView) -> bool
    decreases f,
{
    match f {
        TripFilter::Price { min, max } => {
            let p = spec_parse_amount(t.total_amount);
            &&& (min is Some ==> p >= min->0)
            &&& (max is Some ==> p <= max->0)
        },
        TripFilter::Index(k) => t.index == k@,
        TripFilter::Destination(d) => t.do_location_id == d@,
        TripFilter::And(fs) => forall|i: int|
            0 <= i < fs@.len() ==> spec_matches(#[trigger] fs@[i], t),
        TripFilter::Or(fs) => exists|i: int|
            0 <= i < fs@.len() && spec_matches(#[trigger] fs@[i], t),
    }
}

/// An AND of no children matches every record; an OR of no children
/// matches no record.
pub proof fn lemma_vacuous_and_or(fs: Vec<TripFilter>, t: TripView)
    requires
        fs@.len() == 0,
    ensures
        spec_matches(TripFilter::And(fs), t),
        !spec_matches(TripFilter::Or(fs), t),
{
}

/// A range filter with a positive lower bound and no upper bound excludes
/// every record whose amount field is not readable as a number: such a
/// field reads as zero, which lies below the bound.
pub proof fn lemma_min_bound_excludes_unreadable(t: TripView, min: i64)
    requires
        min > 0,
        !crate::amount::valid_number(t.total_amount),
    ensures
        !spec_matches(TripFilter::Price { min: Some(min), max: None }, t),
{
}

impl TripFilter {
    /// Evaluates the filter on one record. Left-to-right with short
    /// circuiting, which affects running time only: the result is exactly
    /// `spec_matches`.
    #[verifier::loop_isolation(false)]
    pub fn matches(&self, trip: &Trip) -> (r: bool)
        ensures
            r == spec_matches(*self, trip@),
        decreases *self,
    {
        match self {
            TripFilter::Price { min, max } => {
                let price = parse_amount(trip.total_amount.as_str());
                let min_check = match min {
                    Some(m) => price >= *m,
                    None => true,
                };
                let max_check = match max {
                    Some(m) => price <= *m,
                    None => true,
                };
                min_check && max_check
            },
            TripFilter::Index(k) => trip.index == *k,
            TripFilter::Destination(d) => trip.do_location_id == *d,
            TripFilter::And(fs) => {
                let mut i: usize = 0;
                while i < fs.len()
                    invariant
                        0 <= i <= fs@.len(),
                        forall|j: int| 0 <= j < i ==> spec_matches(#[trigger] fs@[j], trip@),
                    decreases fs@.len() - i,
                {
                    if !fs[i].matches(trip) {
                        return false;
                    }
                    i += 1;
                }
                true
            },
            TripFilter::Or(fs) => {
                let mut i: usize = 0;
                while i < fs.len()
                    invariant
                        0 <= i <= fs@.len(),
                        forall|j: int| 0 <= j < i ==> !spec_matches(#[trigger] fs@[j], trip@),
                    decreases fs@.len() - i,
                {
                    if fs[i].matches(trip) {
                        return true;
                    }
                    i += 1;
                }
                false
            },
        }
    }
}

} // verus!
