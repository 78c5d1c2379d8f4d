//! The key→record index: a bucketed hash table over the append-only record
//! store. Keys are hashed into a fixed number of buckets; each bucket holds
//! the live `(key, offset)` pairs whose keys land in it. A later insert for
//! an existing key supersedes its mapping (last write wins); the superseded
//! frame stays in the store unreferenced.

use crate::codec::{
    decode_field, decode_trip, encode_field, encode_trip, field_encodable, field_encoding_at,
    lemma_encode_fields_min_len, lemma_field_encoding_unique, spec_encode_field, spec_encode_trip,
    trip_encodable,
};
use crate::store::{frame_at, lemma_frame_stable, lemma_frame_unique, RecordStore};
use crate::trip::{Trip, TripView};
use vstd::bytes::{
    lemma_auto_spec_u64_to_from_le_bytes, spec_u64_from_le_bytes, spec_u64_to_le_bytes,
    u64_from_le_bytes, u64_to_le_bytes,
};
use vstd::prelude::*;
use vstd::slice::slice_subrange;
use vstd::utf8::encode_utf8;

verus! {

/// Number of hash buckets.
pub const BUCKET_COUNT: usize = 64;

/// The FNV-1a offset basis.
pub const FNV_OFFSET: u64 = 0xcbf29ce484222325;

/// The FNV-1a prime.
pub const FNV_PRIME: u64 = 0x100000001b3;

/// FNV-1a over a byte sequence.
pub open spec fn fnv1a_bytes(bytes: Seq<u8>) -> u64
    decreases bytes.len(),
{
    if bytes.len() == 0 {
        FNV_OFFSET
    } else {
        vstd::wrapping::u64_specs::wrapping_mul(
            fnv1a_bytes(bytes.drop_last()) ^ (bytes.last() as u64),
            FNV_PRIME,
        )
    }
}

/// The hash of a key: FNV-1a over its UTF-8 bytes.
#[verifier::opaque]
pub open spec fn spec_hash(key: Seq<char>) -> u64 {
    fnv1a_bytes(encode_utf8(key))
}

/// The bucket a key lands in.
pub open spec fn spec_bucket(key: Seq<char>) -> int {
    spec_hash(key) as int % (BUCKET_COUNT as int)
}

/// Hashes a key.
pub fn calculate_hash(key: &str) -> (h: u64)
    ensures
        h == spec_hash(key@),
{
    let bytes = key.as_bytes();
    let mut h: u64 = FNV_OFFSET;
    let mut i: usize = 0;
    while i < bytes.len()
        invariant
            0 <= i <= bytes@.len(),
            h == fnv1a_bytes(bytes@.take(i as int)),
        decreases bytes@.len() - i,
    {
        proof {
            assert(bytes@.take(i + 1).drop_last() =~= bytes@.take(i as int));
            assert(bytes@.take(i + 1).last() == bytes@[i as int]);
        }
        h = (h ^ (bytes[i] as u64)).wrapping_mul(FNV_PRIME);
        i += 1;
    }
    proof {
        assert(bytes@.take(bytes@.len() as int) =~= bytes@);
        reveal(spec_hash);
    }
    h
}

/// A record can be held by the store: every field fits its frame, and the
/// whole serialized record fits one store frame.
pub open spec fn frameable(t: TripView) -> bool {
    trip_encodable(t) && spec_encode_trip(t).len() <= u32::MAX
}

/// Why an index operation was refused.
#[derive(Clone, Copy, Debug, PartialEq, Eq, Structural)]
pub enum IndexError {
    /// The record's serialized form (or the key) does not fit one frame.
    RecordTooLarge,
    /// The store would outgrow the address space.
    StoreFull,
    /// A persisted blob is not a well-formed index over its store.
    Corrupt,
}

/// The map that building an index from `ds` produces: each record keyed by
/// its `index` field, a later record superseding an earlier one with the
/// same key.
pub open spec fn spec_build_map(ds: Seq<Trip>) -> Map<Seq<char>, TripView>
    decreases ds.len(),
{
    if ds.len() == 0 {
        Map::empty()
    } else {
        spec_build_map(ds.drop_last()).insert(ds.last()@.index, ds.last()@)
    }
}

/// Store bytes that building from `ds` appends: one frame per record.
pub open spec fn spec_frames_size(ds: Seq<Trip>) -> int
    decreases ds.len(),
{
    if ds.len() == 0 {
        0
    } else {
        spec_frames_size(ds.drop_last()) + 4 + spec_encode_trip(ds.last()@).len()
    }
}

/// A prefix of the dataset never takes more store bytes than the whole.
proof fn lemma_frames_size_prefix_le(ds: Seq<Trip>, i: int)
    requires
        0 <= i <= ds.len(),
    ensures
        spec_frames_size(ds.take(i)) <= spec_frames_size(ds),
    decreases ds.len() - i,
{
    if i < ds.len() {
        assert(ds.take(i + 1).drop_last() =~= ds.take(i));
        assert(ds.take(i + 1).last() == ds[i]);
        lemma_frames_size_prefix_le(ds, i + 1);
    } else {
        assert(ds.take(i) =~= ds);
    }
}

/// Index of the last record of `ds` whose key is `k` (-1 when none is).
pub open spec fn last_with_key(ds: Seq<Trip>, k: Seq<char>) -> int
    decreases ds.len(),
{
    if ds.len() == 0 {
        -1
    } else if ds.last()@.index == k {
        ds.len() - 1
    } else {
        last_with_key(ds.drop_last(), k)
    }
}

/// Last write wins: after a build over `ds`, a key is mapped exactly when
/// some record of `ds` bears it, and then to the most recently inserted
/// such record.
pub proof fn lemma_build_last_write(ds: Seq<Trip>, k: Seq<char>)
    ensures
        spec_build_map(ds).dom().contains(k) <==> exists|i: int|
            0 <= i < ds.len() && #[trigger] ds[i]@.index == k,
        spec_build_map(ds).dom().contains(k) ==> {
            &&& 0 <= last_with_key(ds, k) < ds.len()
            &&& ds[last_with_key(ds, k)]@.index == k
            &&& forall|j: int| last_with_key(ds, k) < j < ds.len() ==> #[trigger] ds[j]@.index != k
            &&& spec_build_map(ds)[k] == ds[last_with_key(ds, k)]@
        },
    decreases ds.len(),
{
    if ds.len() > 0 {
        let pre = ds.drop_last();
        lemma_build_last_write(pre, k);
        assert(forall|i: int| 0 <= i < pre.len() ==> #[trigger] pre[i] == ds[i]);
        if ds.last()@.index == k {
            assert(ds[ds.len() - 1]@.index == k);
        } else {
            if spec_build_map(ds).dom().contains(k) {
                assert(spec_build_map(pre).dom().contains(k));
                let i = choose|i: int| 0 <= i < pre.len() && #[trigger] pre[i]@.index == k;
                assert(ds[i]@.index == k);
                let lw = last_with_key(pre, k);
                assert(last_with_key(ds, k) == lw);
                assert(spec_build_map(ds)[k] == spec_build_map(pre)[k]);
                assert(ds[lw] == pre[lw]);
                assert forall|j: int| lw < j < ds.len() implies #[trigger] ds[j]@.index != k by {
                    if j < pre.len() {
                        assert(pre[j]@.index != k);
                    } else {
                        assert(ds[j] == ds.last());
                    }
                }
            }
            if exists|i: int| 0 <= i < ds.len() && #[trigger] ds[i]@.index == k {
                let i = choose|i: int| 0 <= i < ds.len() && #[trigger] ds[i]@.index == k;
                assert(i < pre.len());
                assert(pre[i]@.index == k);
                assert(spec_build_map(pre).dom().contains(k));
            }
        }
    }
}

/// Round trip: inserting a record under a key and then looking the key up
/// yields that record, field for field — the mapping written is exactly
/// the mapping read.
pub proof fn lemma_insert_then_get(m: Map<Seq<char>, TripView>, k: Seq<char>, t: TripView)
    ensures
        m.insert(k, t).dom().contains(k),
        m.insert(k, t)[k] == t,
{
}

/// One persisted mapping: the key's frame (4-byte length prefix plus the
/// key's UTF-8 bytes) followed by its 8-byte little-endian store offset.
pub open spec fn spec_encode_entry(k: Seq<char>, off: int) -> Seq<u8> {
    spec_encode_field(k) + spec_u64_to_le_bytes(off as u64)
}

/// Persisted mappings, one after another.
pub open spec fn spec_encode_entries(es: Seq<(Seq<char>, int)>) -> Seq<u8>
    decreases es.len(),
{
    if es.len() == 0 {
        Seq::empty()
    } else {
        spec_encode_entry(es[0].0, es[0].1) + spec_encode_entries(es.skip(1))
    }
}

/// Persisting one more mapping appends its bytes.
proof fn lemma_encode_entries_snoc(es: Seq<(Seq<char>, int)>, k: Seq<char>, off: int)
    ensures
        spec_encode_entries(es.push((k, off))) == spec_encode_entries(es) + spec_encode_entry(
            k,
            off,
        ),
    decreases es.len(),
{
    reveal_with_fuel(spec_encode_entries, 3);
    if es.len() == 0 {
        assert(es.push((k, off))[0] == (k, off));
        assert(es.push((k, off)).skip(1) =~= Seq::<(Seq<char>, int)>::empty());
        assert(spec_encode_entries(es.push((k, off))) =~= spec_encode_entries(es)
            + spec_encode_entry(k, off));
    } else {
        assert(es.push((k, off))[0] == es[0]);
        assert(es.push((k, off)).skip(1) =~= es.skip(1).push((k, off)));
        lemma_encode_entries_snoc(es.skip(1), k, off);
        assert(spec_encode_entries(es.push((k, off))) =~= spec_encode_entries(es)
            + spec_encode_entry(k, off));
    }
}

/// Persisted mappings split at any point into the bytes of the two halves.
proof fn lemma_encode_entries_split(es: Seq<(Seq<char>, int)>, i: int)
    requires
        0 <= i <= es.len(),
    ensures
        spec_encode_entries(es) == spec_encode_entries(es.take(i)) + spec_encode_entries(
            es.skip(i),
        ),
    decreases i,
{
    reveal_with_fuel(spec_encode_entries, 2);
    if i == 0 {
        assert(es.take(0) =~= Seq::<(Seq<char>, int)>::empty());
        assert(es.skip(0) =~= es);
        assert(spec_encode_entries(es) =~= spec_encode_entries(es.take(0)) + spec_encode_entries(
            es.skip(0),
        ));
    } else {
        lemma_encode_entries_split(es, i - 1);
        assert(es.take(i) =~= es.take(i - 1).push(es[i - 1]));
        lemma_encode_entries_snoc(es.take(i - 1), es[i - 1].0, es[i - 1].1);
        assert(es.skip(i - 1)[0] == es[i - 1]);
        assert(es.skip(i - 1).skip(1) =~= es.skip(i));
        assert(spec_encode_entries(es.skip(i - 1)) == spec_encode_entry(es[i - 1].0, es[i - 1].1)
            + spec_encode_entries(es.skip(i)));
        assert(spec_encode_entries(es) =~= spec_encode_entries(es.take(i)) + spec_encode_entries(
            es.skip(i),
        ));
    }
}

/// Persisted mappings take at least twelve bytes each.
proof fn lemma_encode_entries_min_len(es: Seq<(Seq<char>, int)>)
    ensures
        spec_encode_entries(es).len() >= 12 * es.len(),
    decreases es.len(),
{
    vstd::bytes::lemma_auto_spec_u32_to_from_le_bytes();
    lemma_auto_spec_u64_to_from_le_bytes();
    if es.len() > 0 {
        lemma_encode_entries_min_len(es.skip(1));
    }
}

/// The two blobs persist exactly the index `t0`.
pub open spec fn blobs_of(t0: DiskHashTable, table_blob: Seq<u8>, store_blob: Seq<u8>) -> bool {
    &&& t0.wf()
    &&& table_blob == t0.spec_table_blob()
    &&& store_blob == t0.store_bytes()
}

/// One live mapping: a key and the store offset of its current frame.
struct Entry {
    key: String,
    offset: usize,
}

/// The persistent-index structure: hash buckets of live `(key, offset)`
/// entries over an append-only record store. Its mathematical value is the
/// map from key to current record.
pub struct DiskHashTable {
    buckets: Vec<Vec<Entry>>,
    store: RecordStore,
    entries: usize,
    model: Ghost<Map<Seq<char>, TripView>>,
}

impl View for DiskHashTable {
    type V = Map<Seq<char>, TripView>;

    closed spec fn view(&self) -> Map<Seq<char>, TripView> {
        self.model@
    }
}

impl DiskHashTable {
    /// Bytes held by the underlying record store.
    pub closed spec fn store_size(&self) -> int {
        self.store@.len() as int
    }

    /// The entry at bucket `b`, slot `j` is live: it is in its key's
    /// bucket, its key is mapped, and its offset holds the frame of the
    /// key's current record.
    spec fn entry_ok(&self, b: int, j: int) -> bool {
        let e = self.buckets@[b]@[j];
        &&& spec_bucket(e.key@) == b
        &&& field_encodable(e.key@)
        &&& self.model@.dom().contains(e.key@)
        &&& frameable(self.model@[e.key@])
        &&& frame_at(self.store@, e.offset as int, spec_encode_trip(self.model@[e.key@]))
    }

    /// Some slot of `k`'s bucket carries `k`.
    spec fn has_entry_for(&self, k: Seq<char>) -> bool {
        exists|j: int|
            0 <= j < self.buckets@[spec_bucket(k)]@.len() && self.buckets@[spec_bucket(
                k,
            )]@[j].key@ == k
    }

    /// The structure's invariant: one bucket per hash class, every entry
    /// live, no key twice in a bucket, every mapped key represented, and
    /// the entry count equal to the number of mapped keys. Each mapping's
    /// frame takes at least eighty store bytes, so the key count times
    /// eighty never exceeds the store size.
    pub closed spec fn wf(&self) -> bool {
        &&& self.buckets@.len() == BUCKET_COUNT
        &&& self.model@.dom().finite()
        &&& self.entries == self.model@.dom().len()
        &&& self.model@.dom().len() * 80 <= self.store@.len()
        &&& forall|b: int, j: int|
            0 <= b < self.buckets@.len() && 0 <= j < self.buckets@[b]@.len()
                ==> #[trigger] self.entry_ok(b, j)
        &&& forall|b: int, j1: int, j2: int|
            #![trigger self.buckets@[b]@[j1], self.buckets@[b]@[j2]]
            0 <= b < self.buckets@.len() && 0 <= j1 < j2 < self.buckets@[b]@.len()
                ==> self.buckets@[b]@[j1].key@ != self.buckets@[b]@[j2].key@
        &&& forall|k: Seq<char>|
            #[trigger] self.model@.dom().contains(k) ==> self.has_entry_for(k)
    }

    /// The `(key, offset)` pairs of one bucket's slots, in slot order.
    spec fn bucket_pairs(es: Seq<Entry>) -> Seq<(Seq<char>, int)> {
        es.map_values(|e: Entry| (e.key@, e.offset as int))
    }

    /// The live pairs of buckets `b` onward, in bucket order.
    spec fn pairs_from(buckets: Seq<Vec<Entry>>, b: int) -> Seq<(Seq<char>, int)>
        decreases buckets.len() - b,
    {
        if b < 0 || b >= buckets.len() {
            Seq::empty()
        } else {
            Self::bucket_pairs(buckets[b]@) + Self::pairs_from(buckets, b + 1)
        }
    }

    /// The live pairs of buckets before `b`, in bucket order.
    spec fn pairs_upto(buckets: Seq<Vec<Entry>>, b: int) -> Seq<(Seq<char>, int)>
        decreases b,
    {
        if b <= 0 || b > buckets.len() {
            Seq::empty()
        } else {
            Self::pairs_upto(buckets, b - 1) + Self::bucket_pairs(buckets[b - 1]@)
        }
    }

    /// All live pairs split at any bucket boundary.
    proof fn lemma_pairs_decompose(buckets: Seq<Vec<Entry>>, b: int)
        requires
            0 <= b <= buckets.len(),
        ensures
            Self::pairs_from(buckets, 0) == Self::pairs_upto(buckets, b) + Self::pairs_from(
                buckets,
                b,
            ),
        decreases b,
    {
        if b == 0 {
            assert(Self::pairs_from(buckets, 0) =~= Self::pairs_upto(buckets, 0)
                + Self::pairs_from(buckets, 0));
        } else {
            Self::lemma_pairs_decompose(buckets, b - 1);
            assert(Self::pairs_from(buckets, 0) =~= Self::pairs_upto(buckets, b)
                + Self::pairs_from(buckets, b));
        }
    }

    /// Every bucket slot appears among the flattened pairs.
    proof fn lemma_pairs_covers(buckets: Seq<Vec<Entry>>, b0: int, b: int, j: int)
        requires
            0 <= b0 <= b < buckets.len(),
            0 <= j < buckets[b]@.len(),
        ensures
            exists|p: int|
                0 <= p < Self::pairs_from(buckets, b0).len() && #[trigger] Self::pairs_from(
                    buckets,
                    b0,
                )[p] == (buckets[b]@[j].key@, buckets[b]@[j].offset as int),
        decreases b - b0,
    {
        if b0 == b {
            assert(Self::pairs_from(buckets, b0)[j] == (
                buckets[b]@[j].key@,
                buckets[b]@[j].offset as int,
            ));
        } else {
            Self::lemma_pairs_covers(buckets, b0 + 1, b, j);
            let p = choose|p: int|
                0 <= p < Self::pairs_from(buckets, b0 + 1).len() && #[trigger] Self::pairs_from(
                    buckets,
                    b0 + 1,
                )[p] == (buckets[b]@[j].key@, buckets[b]@[j].offset as int);
            let shift = Self::bucket_pairs(buckets[b0]@).len();
            assert(Self::pairs_from(buckets, b0)[shift + p] == (
                buckets[b]@[j].key@,
                buckets[b]@[j].offset as int,
            ));
        }
    }

    /// Every flattened pair comes from some bucket slot.
    proof fn lemma_pairs_elem(buckets: Seq<Vec<Entry>>, b0: int, p: int)
        requires
            0 <= b0,
            0 <= p < Self::pairs_from(buckets, b0).len(),
        ensures
            exists|b: int, j: int|
                b0 <= b < buckets.len() && 0 <= j < buckets[b]@.len() && Self::pairs_from(
                    buckets,
                    b0,
                )[p] == (#[trigger] buckets[b]@[j].key@, buckets[b]@[j].offset as int),
        decreases buckets.len() - b0,
    {
        let head = Self::bucket_pairs(buckets[b0]@);
        if p < head.len() {
            assert(Self::pairs_from(buckets, b0)[p] == (
                buckets[b0]@[p].key@,
                buckets[b0]@[p].offset as int,
            ));
        } else {
            Self::lemma_pairs_elem(buckets, b0 + 1, p - head.len());
            let (b, j) = choose|b: int, j: int|
                b0 + 1 <= b < buckets.len() && 0 <= j < buckets[b]@.len() && Self::pairs_from(
                    buckets,
                    b0 + 1,
                )[p - head.len()] == (#[trigger] buckets[b]@[j].key@, buckets[b]@[j].offset as int);
            assert(Self::pairs_from(buckets, b0)[p] == (
                buckets[b]@[j].key@,
                buckets[b]@[j].offset as int,
            ));
        }
    }

    /// The index's live pairs, in bucket order.
    spec fn spec_entries(&self) -> Seq<(Seq<char>, int)> {
        Self::pairs_from(self.buckets@, 0)
    }

    /// The persisted form of the key→offset table: every live pair's
    /// bytes, in bucket order.
    pub closed spec fn spec_table_blob(&self) -> Seq<u8> {
        spec_encode_entries(self.spec_entries())
    }

    /// The persisted form of the record store.
    pub closed spec fn store_bytes(&self) -> Seq<u8> {
        self.store@
    }

    /// No key appears twice among the live pairs: within a bucket the
    /// keys are distinct, and across buckets they hash apart.
    proof fn lemma_pairs_distinct(&self, b0: int, p1: int, p2: int)
        requires
            self.wf(),
            0 <= b0,
            0 <= p1 < p2 < Self::pairs_from(self.buckets@, b0).len(),
        ensures
            Self::pairs_from(self.buckets@, b0)[p1].0 != Self::pairs_from(self.buckets@, b0)[p2].0,
        decreases self.buckets@.len() - b0,
    {
        let buckets = self.buckets@;
        let head = Self::bucket_pairs(buckets[b0]@);
        assert(b0 < buckets.len());
        if p2 < head.len() {
            assert(Self::pairs_from(buckets, b0)[p1] == (
                buckets[b0]@[p1].key@,
                buckets[b0]@[p1].offset as int,
            ));
            assert(Self::pairs_from(buckets, b0)[p2] == (
                buckets[b0]@[p2].key@,
                buckets[b0]@[p2].offset as int,
            ));
            assert(buckets[b0]@[p1].key@ != buckets[b0]@[p2].key@);
        } else if p1 >= head.len() {
            self.lemma_pairs_distinct(b0 + 1, p1 - head.len(), p2 - head.len());
            assert(Self::pairs_from(buckets, b0)[p1] == Self::pairs_from(buckets, b0 + 1)[p1
                - head.len()]);
            assert(Self::pairs_from(buckets, b0)[p2] == Self::pairs_from(buckets, b0 + 1)[p2
                - head.len()]);
        } else {
            assert(Self::pairs_from(buckets, b0)[p1] == (
                buckets[b0]@[p1].key@,
                buckets[b0]@[p1].offset as int,
            ));
            assert(self.entry_ok(b0, p1));
            let k1 = buckets[b0]@[p1].key@;
            assert(spec_bucket(k1) == b0);
            Self::lemma_pairs_elem(buckets, b0 + 1, p2 - head.len());
            let (b, j) = choose|b: int, j: int|
                b0 + 1 <= b < buckets.len() && 0 <= j < buckets[b]@.len() && Self::pairs_from(
                    buckets,
                    b0 + 1,
                )[p2 - head.len()] == (#[trigger] buckets[b]@[j].key@, buckets[b]@[j].offset as int);
            assert(self.entry_ok(b, j));
            assert(Self::pairs_from(buckets, b0)[p2] == Self::pairs_from(buckets, b0 + 1)[p2
                - head.len()]);
            assert(spec_bucket(buckets[b]@[j].key@) == b);
        }
    }

    /// Every live pair is a valid mapping: its key hashes to its bucket
    /// and is mapped, and its offset holds the frame of the key's record.
    proof fn lemma_entry_facts(&self, p: int)
        requires
            self.wf(),
            0 <= p < self.spec_entries().len(),
        ensures
            ({
                let (k, off) = self.spec_entries()[p];
                &&& field_encodable(k)
                &&& spec_bucket(k) == spec_bucket(k)
                &&& self.model@.dom().contains(k)
                &&& frameable(self.model@[k])
                &&& 0 <= off <= usize::MAX
                &&& frame_at(self.store@, off, spec_encode_trip(self.model@[k]))
            }),
    {
        Self::lemma_pairs_elem(self.buckets@, 0, p);
        let (b, j) = choose|b: int, j: int|
            0 <= b < self.buckets@.len() && 0 <= j < self.buckets@[b]@.len()
                && self.spec_entries()[p] == (
            #[trigger] self.buckets@[b]@[j].key@,
            self.buckets@[b]@[j].offset as int,
            );
        assert(self.entry_ok(b, j));
    }

    /// The mappings that the first `i` persisted pairs of `t0` carry.
    spec fn prefix_map(t0: DiskHashTable, i: int) -> Map<Seq<char>, TripView>
        decreases i,
    {
        if i <= 0 {
            Map::empty()
        } else {
            Self::prefix_map(t0, i - 1).insert(
                t0.spec_entries()[i - 1].0,
                t0.model@[t0.spec_entries()[i - 1].0],
            )
        }
    }

    /// The first `i` pairs carry `i` distinct keys, all of them mapped in
    /// `t0` to the same records, and no others.
    proof fn lemma_prefix_map_props(t0: DiskHashTable, i: int)
        requires
            t0.wf(),
            0 <= i <= t0.spec_entries().len(),
        ensures
            Self::prefix_map(t0, i).dom().finite(),
            Self::prefix_map(t0, i).dom().len() == i,
            forall|k: Seq<char>|
                #[trigger] Self::prefix_map(t0, i).dom().contains(k) ==> t0.model@.dom().contains(
                    k,
                ) && Self::prefix_map(t0, i)[k] == t0.model@[k] && (exists|p: int|
                    0 <= p < i && #[trigger] t0.spec_entries()[p].0 == k),
            forall|p: int|
                0 <= p < i ==> Self::prefix_map(t0, i).dom().contains(
                    #[trigger] t0.spec_entries()[p].0,
                ),
        decreases i,
    {
        if i > 0 {
            Self::lemma_prefix_map_props(t0, i - 1);
            t0.lemma_entry_facts(i - 1);
            let k = t0.spec_entries()[i - 1].0;
            assert(!Self::prefix_map(t0, i - 1).dom().contains(k)) by {
                if Self::prefix_map(t0, i - 1).dom().contains(k) {
                    let p = choose|p: int| 0 <= p < i - 1 && #[trigger] t0.spec_entries()[p].0 == k;
                    t0.lemma_pairs_distinct(0, p, i - 1);
                }
            }
            vstd::set::axiom_set_insert_len(Self::prefix_map(t0, i - 1).dom(), k);
            assert(Self::prefix_map(t0, i).dom() =~= Self::prefix_map(t0, i - 1).dom().insert(k));
        } else {
            assert(Self::prefix_map(t0, i).dom() =~= Set::<Seq<char>>::empty());
        }
    }

    /// Reconstructing every persisted pair of a well-formed index yields
    /// its map exactly.
    proof fn lemma_prefix_map_complete(t0: DiskHashTable)
        requires
            t0.wf(),
        ensures
            Self::prefix_map(t0, t0.spec_entries().len() as int) == t0.model@,
    {
        let n = t0.spec_entries().len() as int;
        Self::lemma_prefix_map_props(t0, n);
        let m = Self::prefix_map(t0, n);
        assert forall|k: Seq<char>| #[trigger] t0.model@.dom().contains(k) implies m.dom().contains(
            k,
        ) by {
            assert(t0.has_entry_for(k));
            let j = choose|j: int|
                0 <= j < t0.buckets@[spec_bucket(k)]@.len() && t0.buckets@[spec_bucket(
                    k,
                )]@[j].key@ == k;
            Self::lemma_pairs_covers(t0.buckets@, 0, spec_bucket(k), j);
            let p = choose|p: int|
                0 <= p < t0.spec_entries().len() && #[trigger] t0.spec_entries()[p] == (
                t0.buckets@[spec_bucket(k)]@[j].key@,
                t0.buckets@[spec_bucket(k)]@[j].offset as int,
                );
            assert(m.dom().contains(t0.spec_entries()[p].0));
        }
        assert(m =~= t0.model@);
    }

    /// Under the hypothesis that `blob` is the persisted table of `t0`,
    /// the `i`-th pair's bytes sit right after those of the pairs before
    /// it: the key's frame, then the 8-byte offset.
    proof fn lemma_entry_at(t0: DiskHashTable, blob: Seq<u8>, i: int, pos: int)
        requires
            t0.wf(),
            blob == t0.spec_table_blob(),
            0 <= i < t0.spec_entries().len(),
            pos == spec_encode_entries(t0.spec_entries().take(i)).len(),
        ensures
            ({
                let (k, off) = t0.spec_entries()[i];
                let fe = spec_encode_field(k);
                &&& field_encoding_at(blob, pos, k)
                &&& pos + fe.len() + 8 <= blob.len()
                &&& blob.subrange(pos + fe.len(), pos + fe.len() + 8) == spec_u64_to_le_bytes(
                    off as u64,
                )
                &&& pos + fe.len() + 8 == spec_encode_entries(t0.spec_entries().take(i + 1)).len()
            }),
    {
        lemma_auto_spec_u64_to_from_le_bytes();
        let es = t0.spec_entries();
        let (k, off) = es[i];
        t0.lemma_entry_facts(i);
        lemma_encode_entries_split(es, i);
        assert(es.skip(i)[0] == es[i]);
        assert(es.skip(i).len() > 0);
        let e = spec_encode_entry(k, off);
        assert(spec_encode_entries(es.skip(i)) == e + spec_encode_entries(es.skip(i).skip(1)));
        assert(blob.subrange(pos, pos + e.len() as int) =~= e);
        let fe = spec_encode_field(k);
        assert(blob.subrange(pos, pos + fe.len() as int) =~= fe) by {
            assert forall|q: int| 0 <= q < fe.len() implies blob[pos + q] == fe[q] by {
                assert(blob.subrange(pos, pos + e.len() as int)[q] == e[q]);
            }
        }
        assert(blob.subrange(pos + fe.len(), pos + fe.len() + 8) =~= spec_u64_to_le_bytes(
            off as u64,
        )) by {
            assert forall|q: int| 0 <= q < 8 implies #[trigger] blob[pos + fe.len() + q]
                == spec_u64_to_le_bytes(off as u64)[q] by {
                assert(blob.subrange(pos, pos + e.len() as int)[fe.len() + q] == e[fe.len() + q]);
            }
        }
        assert(es.take(i + 1) =~= es.take(i).push(es[i]));
        lemma_encode_entries_snoc(es.take(i), k, off);
    }

    /// Serializes the index for persistence: the key→offset table blob
    /// and the append-only record-bytes blob.
    pub fn to_blobs(&self) -> (r: (Vec<u8>, Vec<u8>))
        requires
            self.wf(),
        ensures
            r.0@ == self.spec_table_blob(),
            r.1@ == self.store_bytes(),
    {
        let mut blob: Vec<u8> = Vec::new();
        let mut b: usize = 0;
        proof {
            assert(blob@ =~= spec_encode_entries(Self::pairs_upto(self.buckets@, 0)));
        }
        while b < self.buckets.len()
            invariant
                self.wf(),
                0 <= b <= self.buckets@.len(),
                blob@ == spec_encode_entries(Self::pairs_upto(self.buckets@, b as int)),
            decreases self.buckets@.len() - b,
        {
            let bucket_len = self.buckets[b].len();
            let mut j: usize = 0;
            while j < bucket_len
                invariant
                    self.wf(),
                    0 <= b < self.buckets@.len(),
                    0 <= j <= bucket_len,
                    bucket_len == self.buckets@[b as int]@.len(),
                    blob@ == spec_encode_entries(
                        Self::pairs_upto(self.buckets@, b as int) + Self::bucket_pairs(
                            self.buckets@[b as int]@,
                        ).take(j as int),
                    ),
                decreases bucket_len - j,
            {
                let ghost done = Self::pairs_upto(self.buckets@, b as int) + Self::bucket_pairs(
                    self.buckets@[b as int]@,
                ).take(j as int);
                proof {
                    assert(self.entry_ok(b as int, j as int));
                }
                let e = &self.buckets[b][j];
                let ok = encode_field(&mut blob, e.key.as_str());
                if !ok {
                    proof {
                        assert(false);
                    }
                    return (blob, Vec::new());
                }
                let mut off_bytes = u64_to_le_bytes(e.offset as u64);
                blob.append(&mut off_bytes);
                proof {
                    lemma_encode_entries_snoc(done, e.key@, e.offset as int);
                    assert(done.push((e.key@, e.offset as int)) =~= Self::pairs_upto(
                        self.buckets@,
                        b as int,
                    ) + Self::bucket_pairs(self.buckets@[b as int]@).take(j + 1));
                    assert(blob@ =~= spec_encode_entries(done.push((e.key@, e.offset as int))));
                }
                j += 1;
            }
            proof {
                assert(Self::bucket_pairs(self.buckets@[b as int]@).take(bucket_len as int)
                    =~= Self::bucket_pairs(self.buckets@[b as int]@));
                assert(Self::pairs_upto(self.buckets@, b as int) + Self::bucket_pairs(
                    self.buckets@[b as int]@,
                ) =~= Self::pairs_upto(self.buckets@, b + 1));
            }
            b += 1;
        }
        proof {
            Self::lemma_pairs_decompose(self.buckets@, self.buckets@.len() as int);
            assert(Self::pairs_from(self.buckets@, self.buckets@.len() as int).len() == 0);
            assert(Self::pairs_upto(self.buckets@, self.buckets@.len() as int)
                =~= self.spec_entries());
        }
        let store_bytes = self.store.to_bytes();
        (blob, store_bytes)
    }

    /// A position that covers only part of the pairs lies strictly inside
    /// the persisted table.
    proof fn lemma_pos_strict(t0: DiskHashTable, i: int)
        requires
            t0.wf(),
            0 <= i < t0.spec_entries().len(),
        ensures
            spec_encode_entries(t0.spec_entries().take(i)).len() < t0.spec_table_blob().len(),
    {
        let es = t0.spec_entries();
        lemma_encode_entries_split(es, i);
        lemma_encode_entries_min_len(es.skip(i));
    }

    /// Under the hypothesis that the blobs persist `t0`, a position that
    /// covers `i` pairs and is strictly inside the blob leaves pairs ahead.
    proof fn lemma_hyp_in_progress(t0: DiskHashTable, blob: Seq<u8>, sb: Seq<u8>, i: int, pos: int)
        requires
            blobs_of(t0, blob, sb),
            0 <= i <= t0.spec_entries().len(),
            pos == spec_encode_entries(t0.spec_entries().take(i)).len(),
            pos < blob.len(),
        ensures
            i < t0.spec_entries().len(),
    {
        if i == t0.spec_entries().len() {
            assert(t0.spec_entries().take(i) =~= t0.spec_entries());
        }
    }

    /// Under the hypothesis that the blobs persist `t0`, a field parsed
    /// at the `i`-th pair's position is the `i`-th key, the eight bytes
    /// after it are its offset, and that offset frames the key's record.
    proof fn lemma_from_blobs_step(
        t0: DiskHashTable,
        blob: Seq<u8>,
        sb: Seq<u8>,
        i: int,
        pos: int,
        key: Seq<char>,
        p1: int,
    )
        requires
            blobs_of(t0, blob, sb),
            0 <= i <= t0.spec_entries().len(),
            pos == spec_encode_entries(t0.spec_entries().take(i)).len(),
            pos < blob.len(),
            field_encoding_at(blob, pos, key),
            p1 == pos + spec_encode_field(key).len(),
        ensures
            ({
                let (k, off) = t0.spec_entries()[i];
                &&& i < t0.spec_entries().len()
                &&& key == k
                &&& p1 + 8 <= blob.len()
                &&& blob.subrange(p1, p1 + 8) == spec_u64_to_le_bytes(off as u64)
                &&& 0 <= off <= usize::MAX
                &&& p1 + 8 == spec_encode_entries(t0.spec_entries().take(i + 1)).len()
                &&& t0.model@.dom().contains(k)
                &&& frameable(t0.model@[k])
                &&& frame_at(sb, off, spec_encode_trip(t0.model@[k]))
            }),
    {
        Self::lemma_hyp_in_progress(t0, blob, sb, i, pos);
        Self::lemma_entry_at(t0, blob, i, pos);
        let (k, off) = t0.spec_entries()[i];
        lemma_field_encoding_unique(blob, pos, key, k);
        t0.lemma_entry_facts(i);
    }

    /// No index is persisted here: no field is framed where the next
    /// pair's key would have to be.
    proof fn lemma_corrupt_no_field(blob: Seq<u8>, sb: Seq<u8>, i: int, pos: int)
        requires
            0 <= pos < blob.len(),
            forall|t0: DiskHashTable|
                #[trigger] blobs_of(t0, blob, sb) ==> 0 <= i <= t0.spec_entries().len() && pos
                    == spec_encode_entries(t0.spec_entries().take(i)).len(),
            forall|cs: Seq<char>| !field_encoding_at(blob, pos, cs),
        ensures
            forall|t0: DiskHashTable| !blobs_of(t0, blob, sb),
    {
        assert forall|t0: DiskHashTable| !blobs_of(t0, blob, sb) by {
            if blobs_of(t0, blob, sb) {
                let tr = t0.spec_entries().take(i);
                Self::lemma_hyp_in_progress(t0, blob, sb, i, pos);
                Self::lemma_entry_at(t0, blob, i, pos);
            }
        }
    }

    /// No index is persisted here: the bytes after the parsed key are too
    /// few to hold an offset.
    proof fn lemma_corrupt_short_offset(
        blob: Seq<u8>,
        sb: Seq<u8>,
        i: int,
        pos: int,
        key: Seq<char>,
        p1: int,
    )
        requires
            0 <= pos < blob.len(),
            forall|t0: DiskHashTable|
                #[trigger] blobs_of(t0, blob, sb) ==> 0 <= i <= t0.spec_entries().len() && pos
                    == spec_encode_entries(t0.spec_entries().take(i)).len(),
            field_encoding_at(blob, pos, key),
            p1 == pos + spec_encode_field(key).len(),
            p1 + 8 > blob.len(),
        ensures
            forall|t0: DiskHashTable| !blobs_of(t0, blob, sb),
    {
        assert forall|t0: DiskHashTable| !blobs_of(t0, blob, sb) by {
            if blobs_of(t0, blob, sb) {
                let tr = t0.spec_entries().take(i);
                Self::lemma_from_blobs_step(t0, blob, sb, i, pos, key, p1);
            }
        }
    }

    /// No index is persisted here: the parsed offset does not name a
    /// frame of the store (too large for the address space, outside the
    /// store, or not holding a serialized record).
    proof fn lemma_corrupt_bad_offset(
        blob: Seq<u8>,
        sb: Seq<u8>,
        i: int,
        pos: int,
        key: Seq<char>,
        p1: int,
        off64: u64,
        frame_missing: bool,
        payload: Seq<u8>,
    )
        requires
            0 <= pos < blob.len(),
            forall|t0: DiskHashTable|
                #[trigger] blobs_of(t0, blob, sb) ==> 0 <= i <= t0.spec_entries().len() && pos
                    == spec_encode_entries(t0.spec_entries().take(i)).len(),
            field_encoding_at(blob, pos, key),
            p1 == pos + spec_encode_field(key).len(),
            p1 + 8 <= blob.len(),
            off64 == spec_u64_from_le_bytes(blob.subrange(p1, p1 + 8)),
            off64 > usize::MAX || (frame_missing && forall|p: Seq<u8>|
                !frame_at(sb, off64 as int, p)) || (!frame_missing && frame_at(
                sb,
                off64 as int,
                payload,
            ) && forall|tv: TripView|
                !(payload == spec_encode_trip(tv) && trip_encodable(tv))),
        ensures
            forall|t0: DiskHashTable| !blobs_of(t0, blob, sb),
    {
        lemma_auto_spec_u64_to_from_le_bytes();
        assert forall|t0: DiskHashTable| !blobs_of(t0, blob, sb) by {
            if blobs_of(t0, blob, sb) {
                let tr = t0.spec_entries().take(i);
                Self::lemma_from_blobs_step(t0, blob, sb, i, pos, key, p1);
                let (k, off) = t0.spec_entries()[i];
                assert(off64 == off as u64);
                if off64 <= usize::MAX {
                    assert(frame_at(sb, off64 as int, spec_encode_trip(t0.model@[k])));
                    if !frame_missing {
                        lemma_frame_unique(
                            sb,
                            off64 as int,
                            payload,
                            spec_encode_trip(t0.model@[k]),
                        );
                    }
                }
            }
        }
    }

    /// No index is persisted here: the reconstructed mappings already
    /// account for more store bytes than the store holds.
    proof fn lemma_corrupt_over_capacity(
        blob: Seq<u8>,
        sb: Seq<u8>,
        i: int,
        pos: int,
        m: Map<Seq<char>, TripView>,
        entries: int,
    )
        requires
            0 <= pos < blob.len(),
            forall|t0: DiskHashTable|
                #[trigger] blobs_of(t0, blob, sb) ==> 0 <= i <= t0.spec_entries().len() && pos
                    == spec_encode_entries(t0.spec_entries().take(i)).len() && m
                    == Self::prefix_map(t0, i),
            entries == m.dom().len(),
            entries >= sb.len() / 80,
        ensures
            forall|t0: DiskHashTable| !blobs_of(t0, blob, sb),
    {
        assert forall|t0: DiskHashTable| !blobs_of(t0, blob, sb) by {
            if blobs_of(t0, blob, sb) {
                let tr = t0.spec_entries().take(i);
                Self::lemma_hyp_in_progress(t0, blob, sb, i, pos);
                Self::lemma_prefix_map_props(t0, i);
                assert(entries == i);
                let nn = t0.spec_entries().len() as int;
                Self::lemma_prefix_map_props(t0, nn);
                Self::lemma_prefix_map_complete(t0);
                assert(t0.model@.dom().len() == nn);
                assert(nn * 80 <= sb.len());
                vstd::arithmetic::div_mod::lemma_div_multiples_vanish(nn, 80);
                vstd::arithmetic::div_mod::lemma_div_is_ordered(nn * 80, sb.len() as int, 80);
                assert(nn <= sb.len() as int / 80);
            }
        }
    }

    /// Under the hypothesis, consuming the parsed pair advances the
    /// reconstruction by exactly the `i`-th persisted mapping.
    proof fn lemma_step_advance(
        t0: DiskHashTable,
        blob: Seq<u8>,
        sb: Seq<u8>,
        i: int,
        pos: int,
        key: Seq<char>,
        p1: int,
        off64: u64,
        payload: Seq<u8>,
        rec_view: TripView,
    )
        requires
            blobs_of(t0, blob, sb),
            0 <= i <= t0.spec_entries().len(),
            pos == spec_encode_entries(t0.spec_entries().take(i)).len(),
            pos < blob.len(),
            field_encoding_at(blob, pos, key),
            p1 == pos + spec_encode_field(key).len(),
            p1 + 8 <= blob.len(),
            off64 == spec_u64_from_le_bytes(blob.subrange(p1, p1 + 8)),
            off64 <= usize::MAX,
            frame_at(sb, off64 as int, payload),
            forall|tv: TripView|
                payload == spec_encode_trip(tv) && trip_encodable(tv) ==> rec_view == tv,
        ensures
            i + 1 <= t0.spec_entries().len(),
            p1 + 8 == spec_encode_entries(t0.spec_entries().take(i + 1)).len(),
            Self::prefix_map(t0, i + 1) == Self::prefix_map(t0, i).insert(key, rec_view),
    {
        lemma_auto_spec_u64_to_from_le_bytes();
        Self::lemma_from_blobs_step(t0, blob, sb, i, pos, key, p1);
        let (k, off) = t0.spec_entries()[i];
        assert(off64 == off as u64);
        lemma_frame_unique(sb, off64 as int, payload, spec_encode_trip(t0.model@[k]));
        assert(rec_view == t0.model@[k]);
    }

    /// Reopens a persisted index from its two blobs, validating every
    /// entry against the store. The blob pair that `to_blobs` wrote for a
    /// well-formed index reopens to an index with exactly the same
    /// mappings; a table blob that is not a well-formed entry list over
    /// its store is refused as corrupt.
    pub fn from_blobs(table_blob: &Vec<u8>, store_blob: &Vec<u8>) -> (r: Result<
        DiskHashTable,
        IndexError,
    >)
        ensures
            match r {
                Ok(t) => t.wf() && t.store_bytes() == store_blob@,
                Err(e) => e == IndexError::Corrupt,
            },
            forall|t0: DiskHashTable|
                blobs_of(t0, table_blob@, store_blob@) ==> match r {
                    Ok(t) => t@ == t0@,
                    Err(_) => false,
                },
    {
        let store = RecordStore::from_bytes(vstd::slice::slice_to_vec(store_blob.as_slice()));
        let store_len = store.size();
        let mut buckets: Vec<Vec<Entry>> = Vec::new();
        let mut bi: usize = 0;
        while bi < BUCKET_COUNT
            invariant
                0 <= bi <= BUCKET_COUNT,
                buckets@.len() == bi,
                forall|b: int| 0 <= b < bi ==> #[trigger] buckets@[b]@.len() == 0,
            decreases BUCKET_COUNT - bi,
        {
            buckets.push(Vec::new());
            bi += 1;
        }
        let mut t = DiskHashTable { buckets, store, entries: 0, model: Ghost(Map::empty()) };
        proof {
            assert(t.model@.dom() =~= Set::<Seq<char>>::empty());
            assert(t.wf());
        }
        let n = table_blob.len();
        let mut pos: usize = 0;
        let ghost mut i: int = 0;
        proof {
            assert forall|t0: DiskHashTable| #[trigger] blobs_of(t0, table_blob@, store_blob@) implies pos
                == spec_encode_entries(t0.spec_entries().take(0)).len() && t.model@
                == Self::prefix_map(t0, 0) by {
                assert(t0.spec_entries().take(0) =~= Seq::<(Seq<char>, int)>::empty());
            }
        }
        while pos < n
            invariant
                t.wf(),
                t.store@ == store_blob@,
                store_len == store_blob@.len(),
                0 <= pos <= n,
                n == table_blob@.len(),
                0 <= i,
                forall|t0: DiskHashTable|
                    #[trigger] blobs_of(t0, table_blob@, store_blob@) ==> 0 <= i <= t0.spec_entries().len()
                        && pos == spec_encode_entries(t0.spec_entries().take(i)).len() && t.model@
                        == Self::prefix_map(t0, i),
            decreases n - pos,
        {
            let parsed = decode_field(table_blob, pos);
            let (key, p1) = match parsed {
                Some(kp) => kp,
                None => {
                    proof {
                        Self::lemma_corrupt_no_field(table_blob@, store_blob@, i, pos as int);
                    }
                    return Err(IndexError::Corrupt);
                },
            };
            if n - p1 < 8 {
                proof {
                    Self::lemma_corrupt_short_offset(
                        table_blob@,
                        store_blob@,
                        i,
                        pos as int,
                        key@,
                        p1 as int,
                    );
                }
                return Err(IndexError::Corrupt);
            }
            let off_slice = slice_subrange(table_blob.as_slice(), p1, p1 + 8);
            let off64 = u64_from_le_bytes(off_slice);
            if off64 > (usize::MAX as u64) {
                proof {
                    Self::lemma_corrupt_bad_offset(
                        table_blob@,
                        store_blob@,
                        i,
                        pos as int,
                        key@,
                        p1 as int,
                        off64,
                        true,
                        Seq::empty(),
                    );
                }
                return Err(IndexError::Corrupt);
            }
            let off = off64 as usize;
            let payload = match t.store.read_frame(off) {
                Some(p) => p,
                None => {
                    proof {
                        Self::lemma_corrupt_bad_offset(
                            table_blob@,
                            store_blob@,
                            i,
                            pos as int,
                            key@,
                            p1 as int,
                            off64,
                            true,
                            Seq::empty(),
                        );
                    }
                    return Err(IndexError::Corrupt);
                },
            };
            let rec = match decode_trip(&payload) {
                Some(rc) => rc,
                None => {
                    proof {
                        Self::lemma_corrupt_bad_offset(
                            table_blob@,
                            store_blob@,
                            i,
                            pos as int,
                            key@,
                            p1 as int,
                            off64,
                            false,
                            payload@,
                        );
                    }
                    return Err(IndexError::Corrupt);
                },
            };
            if t.entries >= store_len / 80 {
                proof {
                    Self::lemma_corrupt_over_capacity(
                        table_blob@,
                        store_blob@,
                        i,
                        pos as int,
                        t.model@,
                        t.entries as int,
                    );
                }
                return Err(IndexError::Corrupt);
            }
            proof {
                vstd::arithmetic::div_mod::lemma_fundamental_div_mod(store_len as int, 80);
                assert((t@.dom().len() + 1) * 80 <= t.store@.len()) by {
                    assert(t.entries as int + 1 <= store_len as int / 80);
                    assert((t.entries as int + 1) * 80 <= (store_len as int / 80) * 80)
                        by (nonlinear_arith)
                        requires
                            t.entries as int + 1 <= store_len as int / 80,
                    ;
                }
            }
            let h = calculate_hash(key.as_str());
            let b = (h % (BUCKET_COUNT as u64)) as usize;
            proof {
                assert(b as int == spec_bucket(key@));
            }
            let ghost key_view = key@;
            let ghost pos0 = pos as int;
            let ghost i0 = i;
            let ghost model0 = t.model@;
            t.update_mapping(b, key, off, Ghost(rec@));
            pos = p1 + 8;
            proof {
                i = i0 + 1;
                assert forall|t0: DiskHashTable| #[trigger] blobs_of(t0, table_blob@, store_blob@) implies 0
                    <= i <= t0.spec_entries().len() && pos == spec_encode_entries(
                    t0.spec_entries().take(i),
                ).len() && t.model@ == Self::prefix_map(t0, i) by {
                    Self::lemma_step_advance(
                        t0,
                        table_blob@,
                        store_blob@,
                        i0,
                        pos0,
                        key_view,
                        p1 as int,
                        off64,
                        payload@,
                        rec@,
                    );
                    assert(t.model@ == model0.insert(key_view, rec@));
                }
            }
        }
        proof {
            assert forall|t0: DiskHashTable| blobs_of(t0, table_blob@, store_blob@) implies t@ == t0@ by {
                let tr = t0.spec_entries().take(i);
                assert(i == t0.spec_entries().len()) by {
                    if i < t0.spec_entries().len() {
                        Self::lemma_pos_strict(t0, i);
                    }
                }
                assert(t0.spec_entries().take(i) =~= t0.spec_entries());
                Self::lemma_prefix_map_complete(t0);
            }
        }
        Ok(t)
    }

    /// An empty index over an empty store.
    pub fn new() -> (t: Self)
        ensures
            t.wf(),
            t@ == Map::<Seq<char>, TripView>::empty(),
            t.store_size() == 0,
    {
        let mut buckets: Vec<Vec<Entry>> = Vec::new();
        let mut i: usize = 0;
        while i < BUCKET_COUNT
            invariant
                0 <= i <= BUCKET_COUNT,
                buckets@.len() == i,
                forall|b: int| 0 <= b < i ==> #[trigger] buckets@[b]@.len() == 0,
            decreases BUCKET_COUNT - i,
        {
            buckets.push(Vec::new());
            i += 1;
        }
        let t = DiskHashTable {
            buckets,
            store: RecordStore::new(),
            entries: 0,
            model: Ghost(Map::empty()),
        };
        proof {
            assert(t.model@.dom() =~= Set::<Seq<char>>::empty());
        }
        t
    }

    /// Number of live mappings.
    pub fn count_entries(&self) -> (n: usize)
        requires
            self.wf(),
        ensures
            n == self@.dom().len(),
    {
        self.entries
    }

    /// Finds the slot of `key` in `bucket`, if any.
    fn find_in_bucket(bucket: &Vec<Entry>, key: &String) -> (r: Option<usize>)
        ensures
            match r {
                Some(j) => j < bucket@.len() && bucket@[j as int].key@ == key@,
                None => forall|j: int|
                    0 <= j < bucket@.len() ==> #[trigger] bucket@[j].key@ != key@,
            },
    {
        let mut j: usize = 0;
        while j < bucket.len()
            invariant
                0 <= j <= bucket@.len(),
                forall|i: int| 0 <= i < j ==> #[trigger] bucket@[i].key@ != key@,
            decreases bucket@.len() - j,
        {
            if bucket[j].key == *key {
                return Some(j);
            }
            j += 1;
        }
        None
    }

    /// Growing the store (without touching buckets, count or model) keeps
    /// the invariant: frames are stable under appends.
    proof fn lemma_wf_store_extend(pre: Self, post: Self)
        requires
            pre.wf(),
            post.buckets == pre.buckets,
            post.model == pre.model,
            post.entries == pre.entries,
            pre.store@.is_prefix_of(post.store@),
        ensures
            post.wf(),
    {
        assert forall|b: int, j: int|
            0 <= b < post.buckets@.len() && 0 <= j < post.buckets@[b]@.len()
                implies #[trigger] post.entry_ok(b, j) by {
            assert(pre.entry_ok(b, j));
            let e = pre.buckets@[b]@[j];
            lemma_frame_stable(
                pre.store@,
                post.store@,
                e.offset as int,
                spec_encode_trip(pre.model@[e.key@]),
            );
        }
        assert forall|k: Seq<char>|
            #[trigger] post.model@.dom().contains(k) implies post.has_entry_for(k) by {
            assert(pre.has_entry_for(k));
        }
    }

    /// Points `key` at the frame already written at `off`, replacing the
    /// key's old entry or adding one, and records the new mapping.
    fn update_mapping(&mut self, b: usize, key: String, off: usize, Ghost(tv): Ghost<TripView>)
        requires
            old(self).wf(),
            b as int == spec_bucket(key@),
            frameable(tv),
            frame_at(old(self).store@, off as int, spec_encode_trip(tv)),
            field_encodable(key@),
            (old(self)@.dom().len() + 1) * 80 <= old(self).store@.len(),
            old(self).store@.len() <= usize::MAX,
        ensures
            final(self).wf(),
            final(self)@ == old(self)@.insert(key@, tv),
            final(self).store@ == old(self).store@,
    {
        let ghost key_view = key@;
        let ghost old_model = self.model@;
        let ghost old_buckets = self.buckets@;
        let found = Self::find_in_bucket(&self.buckets[b], &key);
        match found {
            Some(j) => {
                self.buckets[b][j] = Entry { key, offset: off };
            },
            None => {
                self.entries = self.entries + 1;
                self.buckets[b].push(Entry { key, offset: off });
            },
        }
        self.model = Ghost(old_model.insert(key_view, tv));
        proof {
            let new = *self;
            if found is Some {
                assert(old(self).entry_ok(b as int, found->0 as int));
                assert(old_model.dom().contains(key_view));
            }
            if old_model.dom().contains(key_view) {
                assert(old_model.dom().insert(key_view) =~= old_model.dom());
                assert(found is Some) by {
                    assert(old(self).has_entry_for(key_view));
                }
            }
            if found is None {
                assert(!old_model.dom().contains(key_view)) by {
                    if old_model.dom().contains(key_view) {
                        assert(old(self).has_entry_for(key_view));
                    }
                }
            }
            assert(new.model@.dom() =~= old_model.dom().insert(key_view));
            vstd::set::axiom_set_insert_len(old_model.dom(), key_view);
            assert(new.entries == new.model@.dom().len());
            assert forall|bb: int, j1: int, j2: int|
                #![trigger new.buckets@[bb]@[j1], new.buckets@[bb]@[j2]]
                0 <= bb < new.buckets@.len() && 0 <= j1 < j2 < new.buckets@[bb]@.len()
                    implies new.buckets@[bb]@[j1].key@ != new.buckets@[bb]@[j2].key@ by {
                if bb == b as int {
                    match found {
                        Some(jf) => {
                            assert(old_buckets[bb]@[jf as int].key@ == key_view);
                            assert(old_buckets[bb]@[j1].key@ != old_buckets[bb]@[j2].key@);
                        },
                        None => {
                            if j2 == new.buckets@[bb]@.len() - 1 {
                                assert(new.buckets@[bb]@[j1] == old_buckets[bb]@[j1]);
                                assert(old_buckets[bb]@[j1].key@ != key_view);
                            } else {
                                assert(old_buckets[bb]@[j1].key@ != old_buckets[bb]@[j2].key@);
                            }
                        },
                    }
                } else {
                    assert(old_buckets[bb]@[j1].key@ != old_buckets[bb]@[j2].key@);
                }
            }
            assert forall|bb: int, j: int|
                0 <= bb < new.buckets@.len() && 0 <= j < new.buckets@[bb]@.len()
                    implies #[trigger] new.entry_ok(bb, j) by {
                let e = new.buckets@[bb]@[j];
                if bb == b as int && e.key@ == key_view {
                } else {
                    assert(0 <= j < old_buckets[bb]@.len());
                    assert(e == old_buckets[bb]@[j]);
                    assert(old(self).entry_ok(bb, j));
                }
            }
            assert forall|k: Seq<char>|
                #[trigger] new.model@.dom().contains(k) implies new.has_entry_for(k) by {
                if k == key_view {
                    match found {
                        Some(j) => {
                            assert(new.buckets@[b as int]@[j as int].key@ == k);
                        },
                        None => {
                            let j = new.buckets@[b as int]@.len() - 1;
                            assert(new.buckets@[b as int]@[j].key@ == k);
                        },
                    }
                } else {
                    assert(old_model.dom().contains(k));
                    assert(old(self).has_entry_for(k));
                    let j = choose|j: int|
                        0 <= j < old_buckets[spec_bucket(k)]@.len() && old_buckets[spec_bucket(
                            k,
                        )]@[j].key@ == k;
                    assert(new.buckets@[spec_bucket(k)]@[j].key@ == k);
                }
            }
        }
    }

    /// Appends the record's frame to the store and makes `key` map to it.
    /// A key already present is remapped to the new record — last write
    /// wins — and its old frame stays in the store unreferenced. Fails,
    /// changing nothing, exactly when the record cannot be framed or the
    /// store would outgrow the address space.
    pub fn insert(&mut self, key: String, trip: Trip) -> (r: Result<(), IndexError>)
        requires
            old(self).wf(),
        ensures
            final(self).wf(),
            match r {
                Ok(()) => {
                    &&& frameable(trip@)
                    &&& old(self).store_size() + 4 + spec_encode_trip(trip@).len() <= usize::MAX
                    &&& final(self)@ == old(self)@.insert(key@, trip@)
                    &&& final(self).store_size() == old(self).store_size() + 4 + spec_encode_trip(
                        trip@,
                    ).len()
                },
                Err(IndexError::RecordTooLarge) => {
                    &&& !frameable(trip@) || !field_encodable(key@)
                    &&& final(self)@ == old(self)@
                    &&& final(self).store_size() == old(self).store_size()
                },
                Err(IndexError::StoreFull) => {
                    &&& frameable(trip@)
                    &&& old(self).store_size() + 4 + spec_encode_trip(trip@).len() > usize::MAX
                    &&& final(self)@ == old(self)@
                    &&& final(self).store_size() == old(self).store_size()
                },
                Err(IndexError::Corrupt) => false,
            },
    {
        let payload = match encode_trip(&trip) {
            Some(p) => p,
            None => {
                return Err(IndexError::RecordTooLarge);
            },
        };
        if payload.len() as u64 > u32::MAX as u64 {
            return Err(IndexError::RecordTooLarge);
        }
        if key.as_str().as_bytes().len() as u64 > u32::MAX as u64 {
            return Err(IndexError::RecordTooLarge);
        }
        let ghost pre = *self;
        let off = match self.store.append(&payload) {
            Some(o) => o,
            None => {
                proof {
                    assert(pre.store@.is_prefix_of(self.store@)) by {
                        assert(self.store@.subrange(0, pre.store@.len() as int) =~= pre.store@);
                    }
                    Self::lemma_wf_store_extend(pre, *self);
                }
                return Err(IndexError::StoreFull);
            },
        };
        proof {
            assert(pre.store@.is_prefix_of(self.store@)) by {
                assert(self.store@.subrange(0, pre.store@.len() as int) =~= pre.store@);
            }
            Self::lemma_wf_store_extend(pre, *self);
            lemma_encode_fields_min_len(trip@.fields());
            assert(spec_encode_trip(trip@).len() >= 76);
        }
        let h = calculate_hash(key.as_str());
        let b = (h % (BUCKET_COUNT as u64)) as usize;
        proof {
            assert(b as int == spec_bucket(key@));
        }
        self.update_mapping(b, key, off, Ghost(trip@));
        Ok(())
    }

    /// Builds a fresh index from the full dataset, inserting every record
    /// under its `index` field, and returns it with the count of records
    /// processed. Fails exactly when some record cannot be framed or the
    /// store would outgrow the address space.
    pub fn build_hash_table_from_csv(trips: &Vec<Trip>) -> (r: Result<(DiskHashTable, usize), IndexError>)
        ensures
            match r {
                Ok((t, n)) => {
                    &&& t.wf()
                    &&& t@ == spec_build_map(trips@)
                    &&& n == trips@.len()
                },
                Err(IndexError::RecordTooLarge) => exists|i: int|
                    0 <= i < trips@.len() && !frameable(#[trigger] trips@[i]@),
                Err(IndexError::StoreFull) => spec_frames_size(trips@) > usize::MAX,
                Err(IndexError::Corrupt) => false,
            },
    {
        let mut table = DiskHashTable::new();
        let mut i: usize = 0;
        while i < trips.len()
            invariant
                0 <= i <= trips@.len(),
                table.wf(),
                table@ == spec_build_map(trips@.take(i as int)),
                table.store_size() == spec_frames_size(trips@.take(i as int)),
            decreases trips@.len() - i,
        {
            let trip = &trips[i];
            let key = trip.index.clone();
            proof {
                assert(trips@.take(i + 1).drop_last() =~= trips@.take(i as int));
                assert(trips@.take(i + 1).last() == trips@[i as int]);
            }
            match table.insert(key, trip.clone()) {
                Ok(()) => {},
                Err(e) => {
                    proof {
                        if e is StoreFull {
                            lemma_frames_size_prefix_le(trips@, i + 1);
                        }
                        if e is RecordTooLarge {
                            if frameable(trips@[i as int]@) {
                                assert(trips@[i as int]@.fields()[18] == trips@[i as int]@.index);
                            }
                        }
                    }
                    return Err(e);
                },
            }
            i += 1;
        }
        proof {
            assert(trips@.take(trips@.len() as int) =~= trips@);
        }
        Ok((table, i))
    }

    /// Looks `key` up: the current record for it, or `None` when the key
    /// is absent.
    pub fn get(&self, key: &str) -> (r: Option<Trip>)
        requires
            self.wf(),
        ensures
            match r {
                Some(t) => self@.dom().contains(key@) && t@ == self@[key@],
                None => !self@.dom().contains(key@),
            },
    {
        let h = calculate_hash(key);
        let b = (h % (BUCKET_COUNT as u64)) as usize;
        proof {
            assert(b as int == spec_bucket(key@));
        }
        let owned = key.to_owned();
        let found = Self::find_in_bucket(&self.buckets[b], &owned);
        match found {
            Some(j) => {
                let e = &self.buckets[b][j];
                proof {
                    assert(self.entry_ok(b as int, j as int));
                }
                let ghost tv = self.model@[key@];
                match self.store.read_frame(e.offset) {
                    Some(payload) => {
                        proof {
                            lemma_frame_unique(
                                self.store@,
                                e.offset as int,
                                payload@,
                                spec_encode_trip(tv),
                            );
                        }
                        match decode_trip(&payload) {
                            Some(t) => Some(t),
                            None => {
                                proof {
                                    assert(false);
                                }
                                None
                            },
                        }
                    },
                    None => {
                        proof {
                            assert(frame_at(self.store@, e.offset as int, spec_encode_trip(tv)));
                            assert(false);
                        }
                        None
                    },
                }
            },
            None => {
                proof {
                    if self.model@.dom().contains(key@) {
                        assert(self.has_entry_for(key@));
                    }
                }
                None
            },
        }
    }
}

} // verus!
