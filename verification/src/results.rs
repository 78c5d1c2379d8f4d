//! The query operations as the service layer consumes them: each runs one
//! query and wraps the outcome with the output-file name it belongs to.
//! Elapsed time is measured by the caller around the call and recorded in
//! the result's `time_ms` field afterwards; the library itself sets it to
//! zero.

use crate::disk_hash::DiskHashTable;
use crate::filters::{spec_matches, TripFilter};
use crate::pagination::{page_window, spec_window_len, spec_window_start, Pagination};
use crate::query::{
    lemma_scan_dest_filter, lemma_scan_index_filter, spec_bounded, spec_scan, spec_scan_dest,
    spec_scan_key,
};
use crate::report::{
    filter_to_rows, get_filter_stats, get_popular_destinations, popular_ok, stats_match,
    views_seq, StatsSummary,
};
use crate::rows::{spec_header, spec_render_row};
use crate::amount::{int_to_text, spec_int_text};
use crate::trip::Trip;
use vstd::prelude::*;

verus! {

/// Cap on full-scan results for the bounded query operations.
pub const MAX_SCAN_RESULTS: usize = 1000;

/// The outcome of one filtered query: how many records matched, the file
/// the rows belong in, and the rows themselves (header first).
pub struct FilterResult {
    pub count: usize,
    pub time_ms: u128,
    pub output_file: String,
    pub rows: Vec<String>,
}

/// The outcome of one aggregate query.
pub struct StatsResult {
    pub stats: StatsSummary,
    pub time_ms: u128,
}

/// The outcome of one popular-destinations query.
pub struct PopularDestinationsResult {
    pub destinations: Vec<(String, usize)>,
    pub time_ms: u128,
}

/// Looks one key up — through the index, re-verified, with the scan as
/// fallback — and reports the matching records as rows for the key's
/// output file.
pub fn filter_by_index(table: &DiskHashTable, dataset: &Vec<Trip>, index: &str) -> (r: FilterResult)
    requires
        table.wf(),
    ensures
        r.time_ms == 0,
        r.output_file@ == "output/filtered_by_index_"@ + index@ + ".csv"@,
        r.rows@.len() == r.count + 1,
        r.rows@[0]@ == spec_header(),
        ({
            let k = index@;
            if table@.dom().contains(k) && table@[k].index == k {
                r.count == 1 && r.rows@[1]@ == spec_render_row(table@[k])
            } else {
                let scan = spec_scan_key(dataset@, k);
                r.count == scan.len() && forall|i: int|
                    0 <= i < scan.len() ==> r.rows@[i + 1]@ == spec_render_row(
                        #[trigger] scan[i]@,
                    )
            }
        }),
{
    let key = index.to_owned();
    let ghost key_str = key;
    let filter = TripFilter::Index(key);
    let (rows, count) = filter_to_rows(table, dataset, &filter, None);
    proof {
        lemma_scan_index_filter(dataset@, key_str);
    }
    let mut name = String::new();
    name.append("output/filtered_by_index_");
    name.append(index);
    name.append(".csv");
    FilterResult { count, time_ms: 0, output_file: name, rows }
}

/// Scans for every record bound for one destination, up to the scan cap,
/// and reports the matches as rows for the destination's output file.
pub fn filter_by_destination(
    table: &DiskHashTable,
    dataset: &Vec<Trip>,
    destination: &str,
) -> (r: FilterResult)
    requires
        table.wf(),
    ensures
        r.time_ms == 0,
        r.output_file@ == "output/filtered_by_destination_"@ + destination@ + ".csv"@,
        r.rows@.len() == r.count + 1,
        r.rows@[0]@ == spec_header(),
        ({
            let scan = spec_bounded(
                spec_scan_dest(dataset@, destination@),
                Some(MAX_SCAN_RESULTS),
            );
            r.count == scan.len() && forall|i: int|
                0 <= i < scan.len() ==> r.rows@[i + 1]@ == spec_render_row(#[trigger] scan[i]@)
        }),
{
    let dest = destination.to_owned();
    let ghost dest_str = dest;
    let filter = TripFilter::Destination(dest);
    let (rows, count) = filter_to_rows(table, dataset, &filter, Some(MAX_SCAN_RESULTS));
    proof {
        lemma_scan_dest_filter(dataset@, dest_str);
    }
    let mut name = String::new();
    name.append("output/filtered_by_destination_");
    name.append(destination);
    name.append(".csv");
    FilterResult { count, time_ms: 0, output_file: name, rows }
}

/// Scans for every record whose total amount lies in the given range (in
/// hundredths), up to the scan cap, and reports the matches as rows.
pub fn filter_by_price_range(
    table: &DiskHashTable,
    dataset: &Vec<Trip>,
    min_price: i64,
    max_price: i64,
) -> (r: FilterResult)
    requires
        table.wf(),
    ensures
        r.time_ms == 0,
        r.output_file@ == "output/filtered_by_price_"@ + spec_int_text(min_price as int) + "_"@
            + spec_int_text(max_price as int) + ".csv"@,
        r.rows@.len() == r.count + 1,
        r.rows@[0]@ == spec_header(),
        ({
            let f = TripFilter::Price { min: Some(min_price), max: Some(max_price) };
            let scan = spec_bounded(spec_scan(dataset@, f), Some(MAX_SCAN_RESULTS));
            r.count == scan.len() && forall|i: int|
                0 <= i < scan.len() ==> r.rows@[i + 1]@ == spec_render_row(#[trigger] scan[i]@)
        }),
{
    let filter = TripFilter::Price { min: Some(min_price), max: Some(max_price) };
    let (rows, count) = filter_to_rows(table, dataset, &filter, Some(MAX_SCAN_RESULTS));
    let mut name = String::new();
    name.append("output/filtered_by_price_");
    let min_text = int_to_text(min_price);
    name.append(min_text.as_str());
    name.append("_");
    let max_text = int_to_text(max_price);
    name.append(max_text.as_str());
    name.append(".csv");
    FilterResult { count, time_ms: 0, output_file: name, rows }
}

/// Aggregate statistics over the records whose total amount lies in the
/// given range (in hundredths).
pub fn get_stats_for_price_range(
    table: &DiskHashTable,
    dataset: &Vec<Trip>,
    min_price: i64,
    max_price: i64,
) -> (r: StatsResult)
    requires
        table.wf(),
    ensures
        r.time_ms == 0,
        ({
            let f = TripFilter::Price { min: Some(min_price), max: Some(max_price) };
            stats_match(views_seq(spec_scan(dataset@, f)), r.stats)
        }),
{
    let filter = TripFilter::Price { min: Some(min_price), max: Some(max_price) };
    let stats = get_filter_stats(table, dataset, &filter);
    StatsResult { stats, time_ms: 0 }
}

/// The most common destinations of the dataset, up to `limit`.
pub fn find_popular_destinations(dataset: &Vec<Trip>, limit: usize) -> (r:
    PopularDestinationsResult)
    ensures
        r.time_ms == 0,
        popular_ok(dataset@, limit, r.destinations@),
{
    let destinations = get_popular_destinations(dataset, limit);
    PopularDestinationsResult { destinations, time_ms: 0 }
}

/// The records on the requested page, in order: the page window's slice of
/// the full result list.
pub fn page_of_trips(items: &Vec<Trip>, pagination: &Pagination) -> (r: Vec<Trip>)
    ensures
        r@.len() == spec_window_len(
            items@.len() as int,
            pagination.page as int,
            pagination.per_page as int,
        ),
        forall|i: int|
            0 <= i < r@.len() ==> #[trigger] r@[i] == items@[spec_window_start(
                items@.len() as int,
                pagination.page as int,
                pagination.per_page as int,
            ) + i],
{
    let (start, len) = page_window(items.len(), pagination);
    let mut out: Vec<Trip> = Vec::new();
    let mut k: usize = 0;
    while k < len
        invariant
            0 <= k <= len,
            start + len <= items@.len(),
            items@.len() <= usize::MAX,
            out@.len() == k,
            forall|i: int| 0 <= i < k ==> #[trigger] out@[i] == items@[start + i],
        decreases len - k,
    {
        out.push(items[start + k].clone());
        k += 1;
    }
    out
}

} // verus!
