//! The record store: an append-only byte log of length-prefixed frames.
//! An offset handed out by `append` is stable — the bytes at it never move
//! or change — so the index can keep offsets across later writes.

use vstd::bytes::{
    lemma_auto_spec_u32_to_from_le_bytes, spec_u32_from_le_bytes, spec_u32_to_le_bytes,
    u32_from_le_bytes, u32_to_le_bytes,
};
use vstd::prelude::*;
use vstd::slice::{slice_subrange, slice_to_vec};

verus! {

/// An append-only byte log of `[length: 4 bytes][payload]` frames.
pub struct RecordStore {
    data: Vec<u8>,
}

impl View for RecordStore {
    type V = Seq<u8>;

    closed spec fn view(&self) -> Seq<u8> {
        self.data@
    }
}

/// A frame holding `payload` begins at offset `off` of the log `s`.
pub open spec fn frame_at(s: Seq<u8>, off: int, payload: Seq<u8>) -> bool {
    &&& 0 <= off
    &&& payload.len() <= u32::MAX
    &&& off + 4 + payload.len() <= s.len()
    &&& s.subrange(off, off + 4) == spec_u32_to_le_bytes(payload.len() as u32)
    &&& s.subrange(off + 4, off + 4 + payload.len()) == payload
}

/// Whatever is appended to the log, every frame already in it stays.
pub proof fn lemma_frame_stable(s1: Seq<u8>, s2: Seq<u8>, off: int, payload: Seq<u8>)
    requires
        frame_at(s1, off, payload),
        s1.is_prefix_of(s2),
    ensures
        frame_at(s2, off, payload),
{
    assert(s2.subrange(off, off + 4) =~= s1.subrange(off, off + 4));
    assert(s2.subrange(off + 4, off + 4 + payload.len()) =~= s1.subrange(
        off + 4,
        off + 4 + payload.len(),
    ));
}

/// At one offset the log holds at most one frame: the length prefix fixes
/// the payload.
pub proof fn lemma_frame_unique(s: Seq<u8>, off: int, p1: Seq<u8>, p2: Seq<u8>)
    requires
        frame_at(s, off, p1),
        frame_at(s, off, p2),
    ensures
        p1 == p2,
{
    lemma_auto_spec_u32_to_from_le_bytes();
    let c1 = p1.len() as u32;
    let c2 = p2.len() as u32;
    assert(spec_u32_to_le_bytes(c1).len() == 4);
    assert(spec_u32_to_le_bytes(c2).len() == 4);
    assert(spec_u32_from_le_bytes(spec_u32_to_le_bytes(c1)) == c1);
    assert(spec_u32_from_le_bytes(spec_u32_to_le_bytes(c2)) == c2);
    assert(spec_u32_to_le_bytes(c1) == s.subrange(off, off + 4));
    assert(spec_u32_to_le_bytes(c2) == s.subrange(off, off + 4));
    assert(c1 == c2);
    assert(p1 =~= p2);
}

impl RecordStore {
    /// An empty log.
    pub fn new() -> (s: Self)
        ensures
            s@ == Seq::<u8>::empty(),
    {
        RecordStore { data: Vec::new() }
    }

    /// A log reopened from persisted bytes.
    pub fn from_bytes(data: Vec<u8>) -> (s: Self)
        ensures
            s@ == data@,
    {
        RecordStore { data }
    }

    /// The log's bytes, for persistence.
    pub fn to_bytes(&self) -> (r: Vec<u8>)
        ensures
            r@ == self@,
    {
        slice_to_vec(self.data.as_slice())
    }

    /// Total bytes in the log.
    pub fn size(&self) -> (n: usize)
        ensures
            n == self@.len(),
    {
        self.data.len()
    }

    /// Appends one frame and returns its offset. Fails, leaving the log
    /// unchanged, exactly when the payload is longer than the 4-byte prefix
    /// admits or the log would outgrow `usize`.
    pub fn append(&mut self, payload: &Vec<u8>) -> (r: Option<usize>)
        ensures
            match r {
                Some(off) => {
                    &&& off == old(self)@.len()
                    &&& old(self)@.len() + 4 + payload@.len() <= usize::MAX
                    &&& final(self)@ == old(self)@ + spec_u32_to_le_bytes(payload@.len() as u32)
                        + payload@
                    &&& final(self)@.len() == old(self)@.len() + 4 + payload@.len()
                    &&& frame_at(final(self)@, off as int, payload@)
                },
                None => {
                    &&& final(self)@ == old(self)@
                    &&& payload@.len() > u32::MAX || old(self)@.len() + 4 + payload@.len()
                        > usize::MAX
                },
            },
    {
        if payload.len() as u64 > u32::MAX as u64 {
            return None;
        }
        let off = self.data.len();
        let headroom = usize::MAX - off;
        if headroom < 4 || headroom - 4 < payload.len() {
            return None;
        }
        let mut len_bytes = u32_to_le_bytes(payload.len() as u32);
        self.data.append(&mut len_bytes);
        self.data.extend_from_slice(payload.as_slice());
        proof {
            assert(self.data@.subrange(off as int, off + 4) =~= spec_u32_to_le_bytes(
                payload@.len() as u32,
            ));
            assert(self.data@.subrange(off + 4, off + 4 + payload@.len()) =~= payload@);
        }
        Some(off)
    }

    /// Reads the frame at `off`: its payload, or `None` when no frame lies
    /// at that offset.
    pub fn read_frame(&self, off: usize) -> (r: Option<Vec<u8>>)
        ensures
            match r {
                Some(p) => frame_at(self@, off as int, p@),
                None => forall|p: Seq<u8>| !frame_at(self@, off as int, p),
            },
    {
        proof {
            lemma_auto_spec_u32_to_from_le_bytes();
        }
        let n = self.data.len();
        if off > n || n - off < 4 {
            return None;
        }
        let len_slice = slice_subrange(self.data.as_slice(), off, off + 4);
        let l = u32_from_le_bytes(len_slice);
        if (l as u64) > ((n - off - 4) as u64) {
            proof {
                assert forall|p: Seq<u8>| !frame_at(self@, off as int, p) by {
                    if frame_at(self@, off as int, p) {
                        assert(spec_u32_to_le_bytes(p.len() as u32) =~= self@.subrange(
                            off as int,
                            off + 4,
                        ));
                        assert(l == p.len() as u32);
                    }
                }
            }
            return None;
        }
        let end = off + 4 + (l as usize);
        let payload = slice_to_vec(slice_subrange(self.data.as_slice(), off + 4, end));
        proof {
            assert(self@.subrange(off as int, off + 4) =~= spec_u32_to_le_bytes(
                payload@.len() as u32,
            ));
        }
        Some(payload)
    }
}

} // verus!
