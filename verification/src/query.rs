//! The query planner: a filter with a key-equality leaf is answered by an
//! index point lookup, re-verified against the whole filter tree; anything
//! else — and any miss — falls back to a full sequential scan with an
//! optional result bound.

use crate::disk_hash::{lemma_build_last_write, last_with_key, spec_build_map, DiskHashTable};
use crate::filters::{spec_matches, TripFilter};
use crate::trip::{Trip, TripView};
use vstd::prelude::*;

verus! {

/// The first key-equality leaf among `fs`, if any.
pub open spec fn first_index_leaf(fs: Seq<TripFilter>) -> Option<Seq<char>>
    decreases fs.len(),
{
    if fs.len() == 0 {
        None
    } else {
        match fs[0] {
            TripFilter::Index(k) => Some(k@),
            _ => first_index_leaf(fs.skip(1)),
        }
    }
}

/// The key that makes a filter index-eligible: a bare key-equality leaf,
/// or the first key-equality leaf among the children of a top-level AND.
pub open spec fn spec_index_key(f: TripFilter) -> Option<Seq<char>> {
    match f {
        TripFilter::Index(k) => Some(k@),
        TripFilter::And(fs) => first_index_leaf(fs@),
        _ => None,
    }
}

/// `f` is a key-equality leaf demanding key `k`.
pub open spec fn is_index_leaf_for(f: TripFilter, k: Seq<char>) -> bool {
    match f {
        TripFilter::Index(s) => s@ == k,
        _ => false,
    }
}

/// While no key-equality leaf has been passed, the first one ahead is the
/// first one overall.
proof fn lemma_first_index_leaf_skip(fs: Seq<TripFilter>, i: int)
    requires
        0 <= i <= fs.len(),
        forall|j: int| 0 <= j < i ==> !(#[trigger] fs[j] is Index),
    ensures
        first_index_leaf(fs) == first_index_leaf(fs.skip(i)),
    decreases i,
{
    if i > 0 {
        lemma_first_index_leaf_skip(fs, i - 1);
        assert(fs.skip(i - 1)[0] == fs[i - 1]);
        assert(fs.skip(i - 1).skip(1) =~= fs.skip(i));
    } else {
        assert(fs.skip(0) =~= fs);
    }
}

/// A first key-equality leaf is a key-equality leaf of the list.
proof fn lemma_first_leaf_is_member(fs: Seq<TripFilter>, k: Seq<char>)
    requires
        first_index_leaf(fs) == Some(k),
    ensures
        exists|j: int| 0 <= j < fs.len() && is_index_leaf_for(#[trigger] fs[j], k),
    decreases fs.len(),
{
    if fs.len() > 0 {
        match fs[0] {
            TripFilter::Index(s) => {
                assert(is_index_leaf_for(fs[0], k));
            },
            _ => {
                lemma_first_leaf_is_member(fs.skip(1), k);
                let j = choose|j: int|
                    0 <= j < fs.skip(1).len() && is_index_leaf_for(#[trigger] fs.skip(1)[j], k);
                assert(fs.skip(1)[j] == fs[j + 1]);
                assert(is_index_leaf_for(fs[j + 1], k));
            },
        }
    }
}

/// Every record an index-eligible filter matches bears the filter's key:
/// the key-equality leaf is one of the conjuncts.
pub proof fn lemma_eligible_match_has_key(f: TripFilter, t: TripView)
    requires
        spec_index_key(f) is Some,
        spec_matches(f, t),
    ensures
        t.index == spec_index_key(f)->0,
{
    let k = spec_index_key(f)->0;
    match f {
        TripFilter::Index(s) => {},
        TripFilter::And(fs) => {
            lemma_first_leaf_is_member(fs@, k);
            let j = choose|j: int| 0 <= j < fs@.len() && is_index_leaf_for(#[trigger] fs@[j], k);
            assert(spec_matches(fs@[j], t));
        },
        _ => {},
    }
}

/// The matching predicate of a filter, as a function on records.
pub open spec fn match_pred(f: TripFilter) -> spec_fn(Trip) -> bool {
    |t: Trip| spec_matches(f, t@)
}

/// Records of `ds` that match `f`, in dataset order.
pub open spec fn spec_scan(ds: Seq<Trip>, f: TripFilter) -> Seq<Trip> {
    ds.filter(match_pred(f))
}

/// At most the first `max` elements (all of them when unbounded).
pub open spec fn spec_bounded(sq: Seq<Trip>, max: Option<usize>) -> Seq<Trip> {
    match max {
        Some(m) => if sq.len() > m {
            sq.take(m as int)
        } else {
            sq
        },
        None => sq,
    }
}

/// The predicate of a bare key-equality filter.
pub open spec fn key_pred(k: Seq<char>) -> spec_fn(Trip) -> bool {
    |t: Trip| t@.index == k
}

/// The records of `ds` whose key field is `k`, in dataset order.
pub open spec fn spec_scan_key(ds: Seq<Trip>, k: Seq<char>) -> Seq<Trip> {
    ds.filter(key_pred(k))
}

/// The predicate of a bare destination-equality filter.
pub open spec fn dest_pred(d: Seq<char>) -> spec_fn(Trip) -> bool {
    |t: Trip| t@.do_location_id == d
}

/// The records of `ds` whose dropoff location is `d`, in dataset order.
pub open spec fn spec_scan_dest(ds: Seq<Trip>, d: Seq<char>) -> Seq<Trip> {
    ds.filter(dest_pred(d))
}

/// A bare key-equality filter scans to exactly the records bearing its key.
pub proof fn lemma_scan_index_filter(ds: Seq<Trip>, s: String)
    ensures
        spec_scan(ds, TripFilter::Index(s)) == spec_scan_key(ds, s@),
{
    assert(match_pred(TripFilter::Index(s)) =~= key_pred(s@));
}

/// A bare destination filter scans to exactly the records bound for its
/// destination.
pub proof fn lemma_scan_dest_filter(ds: Seq<Trip>, s: String)
    ensures
        spec_scan(ds, TripFilter::Destination(s)) == spec_scan_dest(ds, s@),
{
    assert(match_pred(TripFilter::Destination(s)) =~= dest_pred(s@));
}

/// Finds the index-eligibility key of a filter, if it has one.
#[verifier::loop_isolation(false)]
pub fn can_use_hash_index(filter: &TripFilter) -> (r: Option<String>)
    ensures
        match r {
            Some(k) => spec_index_key(*filter) == Some(k@),
            None => spec_index_key(*filter) is None,
        },
{
    match filter {
        TripFilter::Index(idx) => Some(idx.clone()),
        TripFilter::And(fs) => {
            let mut i: usize = 0;
            while i < fs.len()
                invariant
                    0 <= i <= fs@.len(),
                    forall|j: int| 0 <= j < i ==> !(#[trigger] fs@[j] is Index),
                decreases fs@.len() - i,
            {
                match &fs[i] {
                    TripFilter::Index(idx) => {
                        proof {
                            lemma_first_index_leaf_skip(fs@, i as int);
                            assert(fs@.skip(i as int)[0] == fs@[i as int]);
                        }
                        return Some(idx.clone());
                    },
                    _ => {},
                }
                i += 1;
            }
            proof {
                lemma_first_index_leaf_skip(fs@, fs@.len() as int);
                assert(fs@.skip(fs@.len() as int).len() == 0);
            }
            None
        },
        _ => None,
    }
}

/// Scans the dataset in order, collecting the records that match, and
/// stops as soon as the optional result bound is reached. The early stop
/// is a normal completion, not a failure.
pub fn scan_filter(dataset: &Vec<Trip>, filter: &TripFilter, max: Option<usize>) -> (r: Vec<Trip>)
    ensures
        r@ == spec_bounded(spec_scan(dataset@, *filter), max),
{
    let mut out: Vec<Trip> = Vec::new();
    if let Some(m) = max {
        if m == 0 {
            proof {
                if spec_scan(dataset@, *filter).len() > 0 {
                    assert(spec_bounded(spec_scan(dataset@, *filter), max) =~= Seq::<
                        Trip,
                    >::empty());
                } else {
                    assert(spec_bounded(spec_scan(dataset@, *filter), max) =~= Seq::<
                        Trip,
                    >::empty());
                }
            }
            return out;
        }
    }
    let mut i: usize = 0;
    while i < dataset.len()
        invariant
            0 <= i <= dataset@.len(),
            out@ == spec_scan(dataset@.take(i as int), *filter),
            match max {
                Some(m) => out@.len() < m,
                None => true,
            },
        decreases dataset@.len() - i,
    {
        let t = &dataset[i];
        proof {
            assert(dataset@.take(i + 1) =~= dataset@.take(i as int).push(dataset@[i as int]));
            dataset@.take(i as int).lemma_filter_push(dataset@[i as int], match_pred(*filter));
        }
        if filter.matches(t) {
            out.push(t.clone());
            if let Some(m) = max {
                if out.len() >= m {
                    proof {
                        dataset@.take(i + 1).lemma_filter_monotone(dataset@, match_pred(*filter));
                        assert(dataset@.take(i + 1).is_prefix_of(dataset@));
                        let full = spec_scan(dataset@, *filter);
                        assert(out@.is_prefix_of(full));
                        assert(out@ =~= full.take(m as int));
                    }
                    return out;
                }
            }
        }
        i += 1;
    }
    proof {
        assert(dataset@.take(dataset@.len() as int) =~= dataset@);
    }
    out
}

/// Executes a filter: a point lookup through the index when the filter is
/// eligible and the looked-up record passes the whole filter tree (the
/// result bound still respected), and the bounded full scan otherwise —
/// on a miss or a failed re-verification the scan is the fallback.
pub fn execute_filter(
    table: &DiskHashTable,
    dataset: &Vec<Trip>,
    filter: &TripFilter,
    max: Option<usize>,
) -> (r: Vec<Trip>)
    requires
        table.wf(),
    ensures
        ({
            let scan = spec_bounded(spec_scan(dataset@, *filter), max);
            match spec_index_key(*filter) {
                Some(k) => {
                    if table@.dom().contains(k) && spec_matches(*filter, table@[k]) {
                        &&& r@.len() == (if max == Some(0usize) {
                            0int
                        } else {
                            1int
                        })
                        &&& (max != Some(0usize) ==> r@[0]@ == table@[k])
                    } else {
                        r@ == scan
                    }
                },
                None => r@ == scan,
            }
        }),
{
    match can_use_hash_index(filter) {
        Some(key) => {
            match table.get(key.as_str()) {
                Some(t) => {
                    if filter.matches(&t) {
                        let mut out: Vec<Trip> = Vec::new();
                        match max {
                            Some(0) => {},
                            _ => {
                                out.push(t);
                            },
                        }
                        out
                    } else {
                        scan_filter(dataset, filter, max)
                    }
                },
                None => scan_filter(dataset, filter, max),
            }
        },
        None => scan_filter(dataset, filter, max),
    }
}

/// No record of `ds` bears key `k` exactly when `last_with_key` finds
/// nothing.
proof fn lemma_last_with_key_none(ds: Seq<Trip>, k: Seq<char>)
    ensures
        (forall|i: int| 0 <= i < ds.len() ==> #[trigger] ds[i]@.index != k) <==> last_with_key(
            ds,
            k,
        ) == -1,
        last_with_key(ds, k) >= 0 ==> last_with_key(ds, k) < ds.len() && ds[last_with_key(
            ds,
            k,
        )]@.index == k,
    decreases ds.len(),
{
    if ds.len() > 0 {
        let pre = ds.drop_last();
        lemma_last_with_key_none(pre, k);
        assert(forall|i: int| 0 <= i < pre.len() ==> #[trigger] pre[i] == ds[i]);
        if ds.last()@.index != k && last_with_key(pre, k) == -1 {
            assert forall|i: int| 0 <= i < ds.len() implies #[trigger] ds[i]@.index != k by {
                if i < pre.len() {
                    assert(pre[i]@.index != k);
                }
            }
        }
    }
}

/// For an index-eligible filter over a dataset with pairwise distinct
/// keys, the full scan returns exactly the key's latest record when that
/// record matches, and nothing otherwise.
proof fn lemma_scan_eligible(ds: Seq<Trip>, f: TripFilter, k: Seq<char>)
    requires
        spec_index_key(f) == Some(k),
        forall|i: int, j: int|
            0 <= i < j < ds.len() ==> #[trigger] ds[i]@.index != #[trigger] ds[j]@.index,
    ensures
        ({
            let li = last_with_key(ds, k);
            spec_scan(ds, f) == if 0 <= li && spec_matches(f, ds[li]@) {
                seq![ds[li]]
            } else {
                Seq::<Trip>::empty()
            }
        }),
    decreases ds.len(),
{
    reveal_with_fuel(Seq::<_>::filter, 2);
    if ds.len() == 0 {
        assert(spec_scan(ds, f) =~= Seq::<Trip>::empty());
    } else {
        let pre = ds.drop_last();
        let x = ds.last();
        assert(forall|i: int| 0 <= i < pre.len() ==> #[trigger] pre[i] == ds[i]);
        lemma_scan_eligible(pre, f, k);
        lemma_last_with_key_none(pre, k);
        lemma_last_with_key_none(ds, k);
        assert(spec_scan(ds, f) == spec_scan(pre, f) + (if match_pred(f)(x) {
            seq![x]
        } else {
            Seq::<Trip>::empty()
        })) by {
            assert(pre.push(x) =~= ds);
            pre.lemma_filter_push(x, match_pred(f));
            if match_pred(f)(x) {
                assert(spec_scan(ds, f) =~= spec_scan(pre, f) + seq![x]);
            } else {
                assert(spec_scan(ds, f) =~= spec_scan(pre, f) + Seq::<Trip>::empty());
            }
        }
        if x@.index == k {
            assert(last_with_key(ds, k) == ds.len() - 1);
            assert forall|i: int| 0 <= i < pre.len() implies #[trigger] pre[i]@.index != k by {
                assert(ds[i]@.index != ds[ds.len() - 1]@.index);
            }
            assert(last_with_key(pre, k) == -1);
            assert(spec_scan(pre, f) =~= Seq::<Trip>::empty());
            if spec_matches(f, x@) {
                assert(spec_scan(ds, f) =~= seq![ds[last_with_key(ds, k)]]);
            } else {
                assert(spec_scan(ds, f) =~= Seq::<Trip>::empty());
            }
        } else {
            if spec_matches(f, x@) {
                lemma_eligible_match_has_key(f, x@);
            }
            assert(!match_pred(f)(x));
            assert(spec_scan(ds, f) =~= spec_scan(pre, f));
            assert(last_with_key(ds, k) == last_with_key(pre, k));
        }
    }
}

/// Index-accelerated evaluation agrees with the full scan: over a dataset
/// with pairwise distinct keys and the index built from it, an eligible
/// filter's point lookup — the looked-up record when it passes the whole
/// tree, nothing otherwise — is exactly the set the full scan returns.
pub proof fn lemma_index_scan_agree(ds: Seq<Trip>, f: TripFilter)
    requires
        spec_index_key(f) is Some,
        forall|i: int, j: int|
            0 <= i < j < ds.len() ==> #[trigger] ds[i]@.index != #[trigger] ds[j]@.index,
    ensures
        ({
            let k = spec_index_key(f)->0;
            let m = spec_build_map(ds);
            let scan = spec_scan(ds, f);
            &&& (m.dom().contains(k) && spec_matches(f, m[k]) ==> scan.len() == 1 && scan[0]@
                == m[k])
            &&& (!(m.dom().contains(k) && spec_matches(f, m[k])) ==> scan.len() == 0)
        }),
{
    let k = spec_index_key(f)->0;
    let m = spec_build_map(ds);
    lemma_build_last_write(ds, k);
    lemma_last_with_key_none(ds, k);
    lemma_scan_eligible(ds, f, k);
    let li = last_with_key(ds, k);
    if m.dom().contains(k) {
        assert(li >= 0) by {
            if li == -1 {
                let i = choose|i: int| 0 <= i < ds.len() && #[trigger] ds[i]@.index == k;
                assert(ds[i]@.index != k);
            }
        }
        assert(li == last_with_key(ds, k));
        assert(m[k] == ds[li]@);
    } else {
        assert(li == -1) by {
            if li >= 0 {
                assert(ds[li]@.index == k);
            }
        }
    }
}

} // verus!
