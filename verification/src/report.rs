//! Result sinks: the filtered-rows report (header plus one rendered row
//! per matched record, bounded by an optional result cap), streaming
//! aggregate statistics, and the popular-destinations tally.

use crate::disk_hash::DiskHashTable;
use crate::filters::{spec_matches, TripFilter};
use crate::query::{execute_filter, spec_bounded, spec_index_key, spec_scan};
use crate::rows::{csv_header, render_row, spec_header, spec_render_row};
use crate::amount::{parse_amount, spec_parse_amount};
use crate::trip::{Trip, TripView};
use vstd::prelude::*;

verus! {

/// Produces the filtered output as rows of text: the header row first —
/// written exactly once, even when nothing matches — then one row per
/// returned record, never more than the result cap. The row count is
/// returned beside the rows.
pub fn filter_to_rows(
    table: &DiskHashTable,
    dataset: &Vec<Trip>,
    filter: &TripFilter,
    max_results: Option<usize>,
) -> (r: (Vec<String>, usize))
    requires
        table.wf(),
    ensures
        ({
            let lines = r.0@;
            let count = r.1;
            let scan = spec_bounded(spec_scan(dataset@, *filter), max_results);
            &&& lines.len() == count + 1
            &&& lines[0]@ == spec_header()
            &&& (match max_results {
                Some(m) => count <= m,
                None => true,
            })
            &&& (match spec_index_key(*filter) {
                Some(k) => {
                    if table@.dom().contains(k) && spec_matches(*filter, table@[k]) {
                        &&& count == (if max_results == Some(0usize) {
                            0int
                        } else {
                            1int
                        })
                        &&& (max_results != Some(0usize) ==> lines[1]@ == spec_render_row(
                            table@[k],
                        ))
                    } else {
                        &&& count == scan.len()
                        &&& forall|i: int|
                            0 <= i < scan.len() ==> lines[i + 1]@ == spec_render_row(
                                #[trigger] scan[i]@,
                            )
                    }
                },
                None => {
                    &&& count == scan.len()
                    &&& forall|i: int|
                        0 <= i < scan.len() ==> lines[i + 1]@ == spec_render_row(
                            #[trigger] scan[i]@,
                        )
                },
            })
        }),
{
    let results = execute_filter(table, dataset, filter, max_results);
    let mut lines: Vec<String> = Vec::new();
    lines.push(csv_header());
    let mut i: usize = 0;
    while i < results.len()
        invariant
            0 <= i <= results@.len(),
            lines@.len() == i + 1,
            lines@[0]@ == spec_header(),
            forall|j: int|
                0 <= j < i ==> lines@[j + 1]@ == spec_render_row(#[trigger] results@[j]@),
        decreases results@.len() - i,
    {
        let line = render_row(&results[i]);
        lines.push(line);
        i += 1;
    }
    let count = results.len();
    (lines, count)
}

/// The records of `ds`, as their mathematical values.
pub open spec fn views_seq(ds: Seq<Trip>) -> Seq<TripView> {
    ds.map_values(|t: Trip| t@)
}

/// Sum of the distance fields, read as fixed-point amounts.
pub open spec fn sum_distance(vs: Seq<TripView>) -> int
    decreases vs.len(),
{
    if vs.len() == 0 {
        0
    } else {
        sum_distance(vs.drop_last()) + spec_parse_amount(vs.last().trip_distance)
    }
}

/// Sum of the total-amount fields, read as fixed-point amounts.
pub open spec fn sum_amount(vs: Seq<TripView>) -> int
    decreases vs.len(),
{
    if vs.len() == 0 {
        0
    } else {
        sum_amount(vs.drop_last()) + spec_parse_amount(vs.last().total_amount)
    }
}

/// Sum of the passenger-count fields, read as fixed-point amounts.
pub open spec fn sum_passengers(vs: Seq<TripView>) -> int
    decreases vs.len(),
{
    if vs.len() == 0 {
        0
    } else {
        sum_passengers(vs.drop_last()) + spec_parse_amount(vs.last().passenger_count)
    }
}

/// Signed division rounding toward zero.
pub open spec fn div_toward_zero(a: int, b: int) -> int {
    if a >= 0 {
        a / b
    } else {
        -((-a) / b)
    }
}

/// Aggregate statistics over matched records. Averages and the total are
/// present only when at least one record matched — never zero or a
/// made-up value. All figures are fixed-point hundredths.
pub struct StatsSummary {
    pub count: usize,
    pub avg_distance: Option<i64>,
    pub avg_amount: Option<i64>,
    pub avg_passengers: Option<i64>,
    pub total_amount: Option<i128>,
}

/// `r` is the aggregate of the record values `vs`: the count, and — when
/// any record matched — each average as the sum divided by the count
/// (toward zero) and the total amount as the plain sum.
pub open spec fn stats_match(vs: Seq<TripView>, r: StatsSummary) -> bool {
    &&& r.count == vs.len()
    &&& if vs.len() == 0 {
        &&& r.avg_distance is None
        &&& r.avg_amount is None
        &&& r.avg_passengers is None
        &&& r.total_amount is None
    } else {
        &&& (match r.avg_distance {
            Some(v) => v as int == div_toward_zero(sum_distance(vs), vs.len() as int),
            None => false,
        })
        &&& (match r.avg_amount {
            Some(v) => v as int == div_toward_zero(sum_amount(vs), vs.len() as int),
            None => false,
        })
        &&& (match r.avg_passengers {
            Some(v) => v as int == div_toward_zero(sum_passengers(vs), vs.len() as int),
            None => false,
        })
        &&& (match r.total_amount {
            Some(v) => v as int == sum_amount(vs),
            None => false,
        })
    }
}

/// A sum of `n` amounts stays within `n` times the amount range.
proof fn lemma_sum_step_bound(s: int, a: int, i: int)
    requires
        -(i * 0x8000_0000_0000_0000) <= s <= i * 0x7fff_ffff_ffff_ffff,
        i64::MIN <= a <= i64::MAX,
        0 <= i,
        i + 1 <= 0x1_0000_0000_0000_0000,
    ensures
        -((i + 1) * 0x8000_0000_0000_0000) <= s + a <= (i + 1) * 0x7fff_ffff_ffff_ffff,
        i128::MIN <= s + a <= i128::MAX,
{
    let c = 0x8000_0000_0000_0000int;
    let d = 0x7fff_ffff_ffff_ffffint;
    assert((i + 1) * c == i * c + c) by (nonlinear_arith);
    assert((i + 1) * d == i * d + d) by (nonlinear_arith);
    assert((i + 1) * c <= 0x1_0000_0000_0000_0000 * c) by (nonlinear_arith)
        requires
            i + 1 <= 0x1_0000_0000_0000_0000 && c >= 0,
    ;
    assert((i + 1) * d <= 0x1_0000_0000_0000_0000 * d) by (nonlinear_arith)
        requires
            i + 1 <= 0x1_0000_0000_0000_0000 && d >= 0,
    ;
}

/// Divides a sum of at most `count` amounts by `count`, toward zero.
fn avg_of(total: i128, count: usize) -> (r: i64)
    requires
        count > 0,
        -((count as int) * 0x8000_0000_0000_0000) <= total <= (count as int)
            * 0x7fff_ffff_ffff_ffff,
    ensures
        r as int == div_toward_zero(total as int, count as int),
{
    proof {
        vstd::arithmetic::div_mod::lemma_div_multiples_vanish(
            0x7fff_ffff_ffff_ffffint,
            count as int,
        );
        vstd::arithmetic::div_mod::lemma_div_multiples_vanish(
            0x8000_0000_0000_0000int,
            count as int,
        );
    }
    if total >= 0 {
        let q = (total as u128) / (count as u128);
        proof {
            vstd::arithmetic::div_mod::lemma_div_is_ordered(
                total as int,
                (count as int) * 0x7fff_ffff_ffff_ffff,
                count as int,
            );
        }
        q as i64
    } else {
        let q = ((-total) as u128) / (count as u128);
        proof {
            vstd::arithmetic::div_mod::lemma_div_is_ordered(
                -(total as int),
                (count as int) * 0x8000_0000_0000_0000,
                count as int,
            );
        }
        (-(q as i128)) as i64
    }
}

/// Aggregates a list of matched records in one pass: count, running sums,
/// and final averages computed only when the count is positive.
pub fn stats_of(records: &Vec<Trip>) -> (r: StatsSummary)
    ensures
        stats_match(views_seq(records@), r),
{
    let mut sd: i128 = 0;
    let mut sa: i128 = 0;
    let mut sp: i128 = 0;
    let mut i: usize = 0;

    while i < records.len()
        invariant
            0 <= i <= records@.len(),
            sd == sum_distance(views_seq(records@.take(i as int))),
            sa == sum_amount(views_seq(records@.take(i as int))),
            sp == sum_passengers(views_seq(records@.take(i as int))),
            -(i as int * 0x8000_0000_0000_0000) <= sd <= i as int * 0x7fff_ffff_ffff_ffff,
            -(i as int * 0x8000_0000_0000_0000) <= sa <= i as int * 0x7fff_ffff_ffff_ffff,
            -(i as int * 0x8000_0000_0000_0000) <= sp <= i as int * 0x7fff_ffff_ffff_ffff,
        decreases records@.len() - i,
    {
        let t = &records[i];
        let d = parse_amount(t.trip_distance.as_str());
        let a = parse_amount(t.total_amount.as_str());
        let p = parse_amount(t.passenger_count.as_str());
        proof {
            let pre = views_seq(records@.take(i as int));
            let post = views_seq(records@.take(i + 1));
            assert(post.drop_last() =~= pre);
            assert(post.last() == records@[i as int]@);
            lemma_sum_step_bound(sd as int, d as int, i as int);
            lemma_sum_step_bound(sa as int, a as int, i as int);
            lemma_sum_step_bound(sp as int, p as int, i as int);
        }
        sd = sd + (d as i128);
        sa = sa + (a as i128);
        sp = sp + (p as i128);
        i += 1;
    }
    proof {
        assert(records@.take(records@.len() as int) =~= records@);
    }
    let count = records.len();
    if count == 0 {
        StatsSummary {
            count,
            avg_distance: None,
            avg_amount: None,
            avg_passengers: None,
            total_amount: None,
        }
    } else {
        StatsSummary {
            count,
            avg_distance: Some(avg_of(sd, count)),
            avg_amount: Some(avg_of(sa, count)),
            avg_passengers: Some(avg_of(sp, count)),
            total_amount: Some(sa),
        }
    }
}

/// Aggregate statistics of the records a filter returns: the point lookup
/// feeds a single record when the planner takes it and the record passes
/// the whole tree; the full scan feeds every match otherwise.
pub fn get_filter_stats(
    table: &DiskHashTable,
    dataset: &Vec<Trip>,
    filter: &TripFilter,
) -> (r: StatsSummary)
    requires
        table.wf(),
    ensures
        (match spec_index_key(*filter) {
            Some(k) => {
                if table@.dom().contains(k) && spec_matches(*filter, table@[k]) {
                    stats_match(seq![table@[k]], r)
                } else {
                    stats_match(views_seq(spec_scan(dataset@, *filter)), r)
                }
            },
            None => stats_match(views_seq(spec_scan(dataset@, *filter)), r),
        }),
{
    let results = execute_filter(table, dataset, filter, None);
    let r = stats_of(&results);
    proof {
        match spec_index_key(*filter) {
            Some(k) => {
                if table@.dom().contains(k) && spec_matches(*filter, table@[k]) {
                    assert(views_seq(results@) =~= seq![table@[k]]);
                } else {
                    assert(views_seq(results@) =~= views_seq(spec_scan(dataset@, *filter)));
                }
            },
            None => {
                assert(views_seq(results@) =~= views_seq(spec_scan(dataset@, *filter)));
            },
        }
    }
    r
}

/// Number of records whose dropoff location is `d`.
pub open spec fn count_of(ds: Seq<Trip>, d: Seq<char>) -> int
    decreases ds.len(),
{
    if ds.len() == 0 {
        0
    } else {
        count_of(ds.drop_last(), d) + if ds.last()@.do_location_id == d {
            1int
        } else {
            0int
        }
    }
}

/// The distinct destinations of `ds`, each at its first appearance.
pub open spec fn uniq_dests(ds: Seq<Trip>) -> Seq<Seq<char>>
    decreases ds.len(),
{
    if ds.len() == 0 {
        Seq::empty()
    } else {
        let u = uniq_dests(ds.drop_last());
        if u.contains(ds.last()@.do_location_id) {
            u
        } else {
            u.push(ds.last()@.do_location_id)
        }
    }
}

/// A destination's first-seen position among the distinct destinations.
pub open spec fn dest_rank(ds: Seq<Trip>, d: Seq<char>) -> int {
    uniq_dests(ds).index_of(d)
}

/// `d` is the destination of some tally entry.
pub open spec fn dest_in(cs: Seq<(String, usize)>, d: Seq<char>) -> bool {
    exists|j: int| 0 <= j < cs.len() && cs[j].0@ == d
}

/// A tally entry is a destination of the dataset with its exact count.
pub open spec fn tally_elem_ok(ds: Seq<Trip>, e: (String, usize)) -> bool {
    &&& uniq_dests(ds).contains(e.0@)
    &&& e.1 as int == count_of(ds, e.0@)
}

/// A destination's count never exceeds the dataset size.
proof fn lemma_count_of_bounds(ds: Seq<Trip>, d: Seq<char>)
    ensures
        0 <= count_of(ds, d) <= ds.len(),
    decreases ds.len(),
{
    if ds.len() > 0 {
        lemma_count_of_bounds(ds.drop_last(), d);
    }
}

/// A destination occurs exactly when it is among the distinct ones.
proof fn lemma_uniq_covers(ds: Seq<Trip>, d: Seq<char>)
    ensures
        count_of(ds, d) > 0 <==> uniq_dests(ds).contains(d),
    decreases ds.len(),
{
    lemma_count_of_bounds(ds, d);
    if ds.len() > 0 {
        let pre = ds.drop_last();
        lemma_uniq_covers(pre, d);
        lemma_count_of_bounds(pre, d);
        let x = ds.last()@.do_location_id;
        let u = uniq_dests(pre);
        if x == d {
            if !u.contains(x) {
                assert(u.push(x)[u.len() as int] == x);
            }
        } else {
            if !u.contains(x) {
                if u.contains(d) {
                    let i = choose|i: int| 0 <= i < u.len() && u[i] == d;
                    assert(u.push(x)[i] == d);
                }
                if uniq_dests(ds).contains(d) {
                    let i = choose|i: int| 0 <= i < u.push(x).len() && u.push(x)[i] == d;
                    assert(i < u.len());
                    assert(u[i] == d);
                }
            }
        }
    }
}

/// The distinct destinations are pairwise distinct.
proof fn lemma_uniq_distinct(ds: Seq<Trip>)
    ensures
        forall|a: int, b: int|
            0 <= a < b < uniq_dests(ds).len() ==> #[trigger] uniq_dests(ds)[a]
                != #[trigger] uniq_dests(ds)[b],
    decreases ds.len(),
{
    if ds.len() > 0 {
        let pre = ds.drop_last();
        lemma_uniq_distinct(pre);
        let x = ds.last()@.do_location_id;
        let u = uniq_dests(pre);
        if !u.contains(x) {
            assert forall|a: int, b: int|
                0 <= a < b < u.push(x).len() implies #[trigger] u.push(x)[a] != #[trigger] u.push(
                x,
            )[b] by {
                if b == u.len() {
                    assert(u.push(x)[a] == u[a]);
                    assert(u.contains(u[a]));
                }
            }
        }
    }
}

/// The first-seen rank of the `j`-th distinct destination is `j`.
proof fn lemma_rank_of(ds: Seq<Trip>, j: int)
    requires
        0 <= j < uniq_dests(ds).len(),
    ensures
        dest_rank(ds, uniq_dests(ds)[j]) == j,
{
    lemma_uniq_distinct(ds);
    let u = uniq_dests(ds);
    assert(0 <= j < u.len() && u[j] == u[j]);
    let i = u.index_of(u[j]);
    assert(0 <= i < u.len() && u[i] == u[j]);
}

/// Tallies destination occurrences in one pass over the dataset, one
/// entry per distinct destination, in first-seen order.
fn tally_destinations(dataset: &Vec<Trip>) -> (r: Vec<(String, usize)>)
    ensures
        r@.len() == uniq_dests(dataset@).len(),
        forall|j: int| 0 <= j < r@.len() ==> #[trigger] r@[j].0@ == uniq_dests(dataset@)[j],
        forall|j: int| 0 <= j < r@.len() ==> #[trigger] r@[j].1 as int == count_of(
            dataset@,
            r@[j].0@,
        ),
{
    let mut counts: Vec<(String, usize)> = Vec::new();
    let mut i: usize = 0;
    proof {
        assert(uniq_dests(dataset@.take(0)) =~= Seq::<Seq<char>>::empty());
    }
    while i < dataset.len()
        invariant
            0 <= i <= dataset@.len(),
            counts@.len() == uniq_dests(dataset@.take(i as int)).len(),
            forall|j: int|
                0 <= j < counts@.len() ==> #[trigger] counts@[j].0@ == uniq_dests(
                    dataset@.take(i as int),
                )[j],
            forall|j: int|
                0 <= j < counts@.len() ==> #[trigger] counts@[j].1 as int == count_of(
                    dataset@.take(i as int),
                    counts@[j].0@,
                ),
        decreases dataset@.len() - i,
    {
        let ghost pre = dataset@.take(i as int);
        let ghost post = dataset@.take(i + 1);
        proof {
            assert(post.drop_last() =~= pre);
            assert(post.last() == dataset@[i as int]);
        }
        let dest = &dataset[i].do_location_id;
        let mut j: usize = 0;
        let mut found = false;
        while !found && j < counts.len()
            invariant
                0 <= j <= counts@.len(),
                forall|a: int| 0 <= a < j ==> #[trigger] counts@[a].0@ != dest@,
                found ==> j < counts@.len() && counts@[j as int].0@ == dest@,
            decreases counts@.len() - j + (if found {
                0int
            } else {
                1int
            }),
        {
            if counts[j].0 == *dest {
                found = true;
            } else {
                j += 1;
            }
        }
        if j < counts.len() {
            proof {
                assert(counts@[j as int].0@ == dest@);
                assert(uniq_dests(pre)[j as int] == dest@);
                assert(uniq_dests(pre).contains(dest@));
                assert(uniq_dests(post) == uniq_dests(pre));
                lemma_count_of_bounds(pre, dest@);
                lemma_uniq_distinct(pre);
            }
            let d0 = counts[j].0.clone();
            let c0 = counts[j].1;
            counts[j] = (d0, c0 + 1);
        } else {
            proof {
                assert(!uniq_dests(pre).contains(dest@)) by {
                    if uniq_dests(pre).contains(dest@) {
                        let a = choose|a: int|
                            0 <= a < uniq_dests(pre).len() && uniq_dests(pre)[a] == dest@;
                        assert(counts@[a].0@ == dest@);
                    }
                }
                assert(uniq_dests(post) == uniq_dests(pre).push(dest@));
                lemma_uniq_covers(pre, dest@);
                lemma_count_of_bounds(pre, dest@);
            }
            counts.push((dest.clone(), 1));
        }
        i += 1;
    }
    proof {
        assert(dataset@.take(dataset@.len() as int) =~= dataset@);
    }
    counts
}

/// Sorts the tally by count, descending, by adjacent swaps that only move
/// a strictly greater count ahead — so entries with equal counts keep
/// their first-seen order.
#[verifier::loop_isolation(false)]
fn sort_tally(counts: &mut Vec<(String, usize)>, Ghost(ds): Ghost<Seq<Trip>>)
    requires
        forall|j: int| 0 <= j < old(counts)@.len() ==> tally_elem_ok(ds, #[trigger] old(counts)@[j]),
        forall|a: int, b: int|
            0 <= a < b < old(counts)@.len() && old(counts)@[a].1 == old(counts)@[b].1
                ==> dest_rank(ds, #[trigger] old(counts)@[a].0@) < dest_rank(
                ds,
                #[trigger] old(counts)@[b].0@,
            ),
    ensures
        final(counts)@.len() == old(counts)@.len(),
        forall|j: int| 0 <= j < final(counts)@.len() ==> tally_elem_ok(ds, #[trigger] final(counts)@[j]),
        forall|a: int, b: int|
            0 <= a < b < final(counts)@.len() ==> (#[trigger] final(counts)@[a]).1 >= (
            #[trigger] final(counts)@[b]).1,
        forall|a: int, b: int|
            0 <= a < b < final(counts)@.len() && final(counts)@[a].1 == final(counts)@[b].1
                ==> dest_rank(ds, #[trigger] final(counts)@[a].0@) < dest_rank(
                ds,
                #[trigger] final(counts)@[b].0@,
            ),
        forall|d: Seq<char>| #[trigger] dest_in(final(counts)@, d) <==> dest_in(old(counts)@, d),
{
    let n = counts.len();
    let mut i: usize = 1;
    while i < n
        invariant
            1 <= i <= n || (n == 0 && i == 1),
            counts@.len() == n,
            forall|j: int| 0 <= j < n ==> tally_elem_ok(ds, #[trigger] counts@[j]),
            forall|a: int, b: int|
                0 <= a < b < i ==> (#[trigger] counts@[a]).1 >= (#[trigger] counts@[b]).1,
            forall|a: int, b: int|
                0 <= a < b < n && counts@[a].1 == counts@[b].1 ==> dest_rank(
                    ds,
                    #[trigger] counts@[a].0@,
                ) < dest_rank(ds, #[trigger] counts@[b].0@),
            forall|d: Seq<char>| #[trigger] dest_in(counts@, d) <==> dest_in(old(counts)@, d),
        decreases n - i,
    {
        let mut j: usize = i;
        while j > 0 && counts[j - 1].1 < counts[j].1
            invariant
                0 <= j <= i < n,
                counts@.len() == n,
                forall|jj: int| 0 <= jj < n ==> tally_elem_ok(ds, #[trigger] counts@[jj]),
                forall|a: int, b: int|
                    0 <= a < b <= i && b != j ==> (#[trigger] counts@[a]).1 >= (
                    #[trigger] counts@[b]).1,
                forall|a: int, b: int|
                    0 <= a < b < n && counts@[a].1 == counts@[b].1 ==> dest_rank(
                        ds,
                        #[trigger] counts@[a].0@,
                    ) < dest_rank(ds, #[trigger] counts@[b].0@),
                forall|d: Seq<char>| #[trigger] dest_in(counts@, d) <==> dest_in(old(counts)@, d),
            decreases j,
        {
            let ghost before = counts@;
            let ea = (counts[j - 1].0.clone(), counts[j - 1].1);
            let eb = (counts[j].0.clone(), counts[j].1);
            proof {
                assert(ea == before[j - 1]);
                assert(eb == before[j as int]);
            }
            counts[j - 1] = eb;
            counts[j] = ea;
            proof {
                assert(counts@ =~= before.update(j - 1, before[j as int]).update(
                    j as int,
                    before[j - 1],
                ));
                assert forall|d: Seq<char>| #[trigger] dest_in(counts@, d) <==> dest_in(before, d) by {
                    if dest_in(before, d) {
                        let w = choose|w: int| 0 <= w < before.len() && before[w].0@ == d;
                        if w == j - 1 {
                            assert(counts@[j as int].0@ == d);
                        } else if w == j {
                            assert(counts@[j - 1].0@ == d);
                        } else {
                            assert(counts@[w].0@ == d);
                        }
                    }
                    if dest_in(counts@, d) {
                        let w = choose|w: int| 0 <= w < counts@.len() && counts@[w].0@ == d;
                        if w == j - 1 {
                            assert(before[j as int].0@ == d);
                        } else if w == j {
                            assert(before[j - 1].0@ == d);
                        } else {
                            assert(before[w].0@ == d);
                        }
                    }
                }
            }
            j -= 1;
        }
        i += 1;
    }
}

/// The most common destinations: one `(destination, occurrence count)`
/// pair per distinct destination, sorted by count descending with ties in
/// first-seen order, truncated to `limit`. Every destination left out
/// ranks at or below every one returned. Always a full scan: the whole
/// dataset must be read to count occurrences.
/// What the popular-destinations tally promises of its result `r`: one
/// entry per distinct destination up to the cap, with exact counts,
/// sorted by count descending, ties in first-seen order, no destination
/// twice, and no left-out destination ranking above any returned one.
pub open spec fn popular_ok(ds: Seq<Trip>, limit: usize, r: Seq<(String, usize)>) -> bool {
    &&& r.len() == (if limit as int <= uniq_dests(ds).len() {
        limit as int
    } else {
        uniq_dests(ds).len() as int
    })
    &&& forall|j: int|
        0 <= j < r.len() ==> uniq_dests(ds).contains((#[trigger] r[j]).0@) && r[j].1 as int
            == count_of(ds, r[j].0@)
    &&& forall|a: int, b: int| 0 <= a < b < r.len() ==> (#[trigger] r[a]).1 >= (#[trigger] r[b]).1
    &&& forall|a: int, b: int|
        0 <= a < b < r.len() && r[a].1 == r[b].1 ==> dest_rank(ds, (#[trigger] r[a]).0@)
            < dest_rank(ds, (#[trigger] r[b]).0@)
    &&& forall|a: int, b: int| 0 <= a < b < r.len() ==> (#[trigger] r[a]).0@ != (
    #[trigger] r[b]).0@
    &&& forall|d: Seq<char>, j: int|
        #![trigger dest_in(r, d), r[j]]
        uniq_dests(ds).contains(d) && !dest_in(r, d) && 0 <= j < r.len() ==> (r[j].1 as int
            > count_of(ds, d) || (r[j].1 as int == count_of(ds, d) && dest_rank(ds, r[j].0@)
            < dest_rank(ds, d)))
}

pub fn get_popular_destinations(dataset: &Vec<Trip>, limit: usize) -> (r: Vec<(String, usize)>)
    ensures
        popular_ok(dataset@, limit, r@),
{
    let mut counts = tally_destinations(dataset);
    proof {
        lemma_uniq_distinct(dataset@);
        assert forall|j: int|
            0 <= j < counts@.len() implies tally_elem_ok(dataset@, #[trigger] counts@[j]) by {
            assert(counts@[j].0@ == uniq_dests(dataset@)[j]);
        }
        assert forall|a: int, b: int|
            0 <= a < b < counts@.len() && counts@[a].1 == counts@[b].1 implies dest_rank(
            dataset@,
            counts@[a].0@,
        ) < dest_rank(dataset@, counts@[b].0@) by {
            lemma_rank_of(dataset@, a);
            lemma_rank_of(dataset@, b);
        }
    }
    let ghost tallied = counts@;
    sort_tally(&mut counts, Ghost(dataset@));
    let ghost sorted = counts@;
    if counts.len() > limit {
        counts.truncate(limit);
    }
    proof {
        assert(counts@ =~= sorted.take(counts@.len() as int));
        assert forall|a: int, b: int|
            0 <= a < b < counts@.len() implies (#[trigger] counts@[a]).0@ != (
        #[trigger] counts@[b]).0@ by {
            if counts@[a].0@ == counts@[b].0@ {
                assert(counts@[a].1 as int == count_of(dataset@, counts@[a].0@));
                assert(counts@[a].1 == counts@[b].1);
            }
        }
        assert forall|d: Seq<char>, j: int|
            #![trigger dest_in(counts@, d), counts@[j]]
            uniq_dests(dataset@).contains(d) && !dest_in(counts@, d) && 0 <= j
                < counts@.len() implies (counts@[j].1 as int > count_of(dataset@, d) || (
        counts@[j].1 as int == count_of(dataset@, d) && dest_rank(dataset@, counts@[j].0@)
            < dest_rank(dataset@, d))) by {
            let u = uniq_dests(dataset@);
            let w0 = u.index_of(d);
            assert(0 <= w0 < u.len() && u[w0] == d);
            assert(tallied[w0].0@ == d);
            assert(dest_in(tallied, d));
            assert(dest_in(sorted, d));
            let p = choose|p: int| 0 <= p < sorted.len() && sorted[p].0@ == d;
            assert(p >= counts@.len()) by {
                if p < counts@.len() {
                    assert(counts@[p].0@ == d);
                }
            }
            assert(sorted[j] == counts@[j]);
            assert(sorted[j].1 >= sorted[p].1);
            assert(tally_elem_ok(dataset@, sorted[p]));
            if sorted[j].1 == sorted[p].1 {
                assert(dest_rank(dataset@, sorted[j].0@) < dest_rank(dataset@, sorted[p].0@));
            }
        }
    }
    counts
}

} // verus!
