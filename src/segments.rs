//! The log's segments: the sealed ones, oldest first, and the active one
//! that records are appended to. Segment ids are consecutive, so the
//! segment of an id is found by its distance from the active one.
use vstd::prelude::*;

verus! {

/// A segment: its id and its bytes.
#[derive(Clone, Debug)]
pub struct Segment {
    pub id: u64,
    pub data: Vec<u8>,
}

/// Where a record lies: its segment, its first byte there and its length.
#[derive(Clone, Copy, Debug, PartialEq, Eq, Structural)]
pub struct Location {
    pub segment: u64,
    pub offset: usize,
    pub len: usize,
}

/// The number of bytes in the segments `segs`.
pub open spec fn sealed_len(segs: Seq<Segment>) -> int
    decreases segs.len(),
{
    if segs.len() == 0 {
        0
    } else {
        sealed_len(segs.drop_last()) + segs.last().data@.len()
    }
}

/// The first `k` segments hold one segment more than the first `k - 1`, and
/// no more bytes than all of them.
pub proof fn lemma_sealed_len_take(segs: Seq<Segment>, k: int)
    requires
        0 <= k <= segs.len(),
    ensures
        0 <= sealed_len(segs.take(k)) <= sealed_len(segs),
        k < segs.len() ==> sealed_len(segs.take(k + 1)) == sealed_len(segs.take(k))
            + segs[k].data@.len(),
    decreases segs.len(),
{
    if k < segs.len() {
        assert(segs.take(k + 1).drop_last() =~= segs.take(k));
        lemma_sealed_len_take(segs.drop_last(), k);
        assert(segs.drop_last().take(k) =~= segs.take(k));
    } else {
        assert(segs.take(k) =~= segs);
        if segs.len() > 0 {
            lemma_sealed_len_take(segs.drop_last(), k - 1);
            assert(segs.drop_last().take(k - 1) =~= segs.drop_last());
        }
    }
}

/// The segments of a log.
pub struct SegmentLog {
    /// Sealed segments, in ascending id order.
    pub sealed: Vec<Segment>,
    /// Id of the active segment.
    pub active_id: u64,
    /// Bytes of the active segment.
    pub active: Vec<u8>,
    /// Size past which the active segment is sealed.
    pub max_segment_len: usize,
}

impl SegmentLog {
    /// The sealed segments hold the ids just below the active one.
    pub open spec fn wf(&self) -> bool {
        &&& self.sealed@.len() <= self.active_id
        &&& forall|i: int|
            0 <= i < self.sealed@.len() ==> #[trigger] self.sealed@[i].id == self.active_id
                - self.sealed@.len() + i
    }

    /// The bytes of every segment, oldest first, the active one last.
    pub open spec fn segs(&self) -> Seq<Seq<u8>> {
        self.sealed@.map_values(|s: Segment| s.data@).push(self.active@)
    }

    /// The bytes of the segment with id `id`, if the log has it.
    pub open spec fn segment_data(&self, id: u64) -> Option<Seq<u8>> {
        let i = id - (self.active_id - self.sealed@.len());
        if id == self.active_id {
            Some(self.active@)
        } else if 0 <= i < self.sealed@.len() {
            Some(self.sealed@[i].data@)
        } else {
            None
        }
    }

    /// The bytes at `loc`, if the log holds them.
    pub open spec fn bytes_at(&self, loc: Location) -> Option<Seq<u8>> {
        match self.segment_data(loc.segment) {
            Some(d) => if loc.offset + loc.len <= d.len() {
                Some(d.subrange(loc.offset as int, loc.offset + loc.len))
            } else {
                None
            },
            None => None,
        }
    }

    /// Every location that the log holds keeps its bytes in `other`.
    pub open spec fn kept_in(&self, other: &SegmentLog) -> bool {
        forall|loc: Location| #[trigger]
            self.bytes_at(loc) is Some ==> other.bytes_at(loc) == self.bytes_at(loc)
    }

    /// The number of bytes in all segments.
    pub open spec fn total_len(&self) -> int {
        sealed_len(self.sealed@) + self.active@.len()
    }

    /// The number of bytes in all segments, or `u64::MAX` where that is more.
    pub fn len(&self) -> (r: u64)
        ensures
            r == if self.total_len() <= u64::MAX { self.total_len() } else { u64::MAX as int },
    {
        let mut total: u64 = 0;
        let mut i: usize = 0;
        while i < self.sealed.len()
            invariant
                i <= self.sealed@.len(),
                total == if sealed_len(self.sealed@.take(i as int)) <= u64::MAX {
                    sealed_len(self.sealed@.take(i as int))
                } else {
                    u64::MAX as int
                },
            decreases self.sealed@.len() - i,
        {
            assert(self.sealed@.take(i + 1).drop_last() =~= self.sealed@.take(i as int));
            total = total.saturating_add(self.sealed[i].data.len() as u64);
            i = i + 1;
        }
        assert(self.sealed@.take(i as int) =~= self.sealed@);
        total.saturating_add(self.active.len() as u64)
    }

    /// A log with one empty active segment.
    pub fn new(active_id: u64, max_segment_len: usize) -> (r: SegmentLog)
        ensures
            r.wf(),
            r.sealed@.len() == 0,
            r.active@.len() == 0,
            r.active_id == active_id,
            r.max_segment_len == max_segment_len,
    {
        SegmentLog { sealed: Vec::new(), active_id, active: Vec::new(), max_segment_len }
    }

    /// Appends `bytes` to the active segment and returns where they went.
    pub fn append(&mut self, bytes: &[u8]) -> (r: Location)
        requires
            old(self).wf(),
        ensures
            final(self).wf(),
            old(self).kept_in(&*final(self)),
            final(self).bytes_at(r) == Some(bytes@),
            r.segment == old(self).active_id,
            final(self).active_id == old(self).active_id,
            final(self).sealed@ == old(self).sealed@,
            final(self).active@ == old(self).active@ + bytes@,
            final(self).max_segment_len == old(self).max_segment_len,
            final(self).total_len() == old(self).total_len() + bytes@.len(),
    {
        let offset = self.active.len();
        crate::codec::push_bytes(&mut self.active, bytes);
        let r = Location { segment: self.active_id, offset, len: bytes.len() };
        assert(self.active@.subrange(offset as int, offset + bytes@.len()) =~= bytes@);
        assert forall|loc: Location| #[trigger] old(self).bytes_at(loc) is Some implies
            self.bytes_at(loc) == old(self).bytes_at(loc) by {
            if loc.segment == self.active_id {
                assert(self.active@.subrange(loc.offset as int, loc.offset + loc.len)
                    =~= old(self).active@.subrange(loc.offset as int, loc.offset + loc.len));
            }
        }
        r
    }

    /// Seals the active segment and opens an empty one with the next id,
    /// once the active segment is over the size limit.
    pub fn roll_if_needed(&mut self)
        requires
            old(self).wf(),
        ensures
            final(self).wf(),
            old(self).kept_in(&*final(self)),
            final(self).max_segment_len == old(self).max_segment_len,
            final(self).total_len() == old(self).total_len(),
            old(self).active@.len() > old(self).max_segment_len && old(self).active_id < u64::MAX
                ==> final(self).active@.len() == 0 && final(self).active_id == old(self).active_id + 1
                && final(self).sealed@.drop_last() == old(self).sealed@ && final(self).sealed@.len()
                == old(self).sealed@.len() + 1 && final(self).sealed@.last().data@ == old(self).active@,
            !(old(self).active@.len() > old(self).max_segment_len && old(self).active_id < u64::MAX)
                ==> *final(self) == *old(self),
    {
        if self.active.len() > self.max_segment_len && self.active_id < u64::MAX {
            let mut data: Vec<u8> = Vec::new();
            data.append(&mut self.active);
            let id = self.active_id;
            self.sealed.push(Segment { id, data });
            self.active_id = id + 1;
            assert(self.sealed@.drop_last() =~= old(self).sealed@);
            assert forall|loc: Location| #[trigger] old(self).bytes_at(loc) is Some implies
                self.bytes_at(loc) == old(self).bytes_at(loc) by {
                if loc.segment == id {
                    assert(self.sealed@[self.sealed@.len() - 1].data@ == old(self).active@);
                }
            }
        }
    }

    /// The bytes of the segment with id `id`, if the log has it.
    pub fn segment(&self, id: u64) -> (r: Option<&Vec<u8>>)
        requires
            self.wf(),
        ensures
            match self.segment_data(id) {
                Some(d) => r matches Some(v) && v@ == d,
                None => r is None,
            },
    {
        let n = self.sealed.len();
        if id == self.active_id {
            Some(&self.active)
        } else if id < self.active_id && self.active_id - id <= n as u64 {
            let i = n - (self.active_id - id) as usize;
            Some(&self.sealed[i].data)
        } else {
            None
        }
    }

    /// The bytes at `loc`, if the log holds them.
    pub fn read(&self, loc: Location) -> (r: Option<Vec<u8>>)
        requires
            self.wf(),
        ensures
            match self.bytes_at(loc) {
                Some(b) => r matches Some(v) && v@ == b,
                None => r is None,
            },
    {
        let n = self.sealed.len();
        let data: &Vec<u8> = if loc.segment == self.active_id {
            &self.active
        } else if loc.segment < self.active_id && self.active_id - loc.segment <= n as u64 {
            let i = n - (self.active_id - loc.segment) as usize;
            &self.sealed[i].data
        } else {
            return None;
        };
        if loc.offset > data.len() || loc.len > data.len() - loc.offset {
            return None;
        }
        let mut v: Vec<u8> = Vec::new();
        crate::codec::push_bytes(
            &mut v,
            vstd::slice::slice_subrange(data.as_slice(), loc.offset, loc.offset + loc.len),
        );
        Some(v)
    }
}

} // verus!
