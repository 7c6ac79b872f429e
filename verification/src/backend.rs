//! The segmented append-only message log.
//!
//! Messages carry dense, strictly increasing ids assigned on push. Whole
//! leading segments are retired by garbage collection, so the retained ids
//! always form the contiguous range `[first_id(), tail())`. The trailing
//! (open) segment is never retired.

use vstd::prelude::*;
use vstd::slice::slice_to_vec;

verus! {

/// A message stored in the log: the id the log assigned on push, the queue
/// clock at push time, and an opaque byte payload.
#[derive(Debug)]
pub struct Message {
    pub id: u64,
    pub timestamp: u32,
    pub body: Vec<u8>,
}

impl Message {
    /// The id the log assigned to this message on push.
    pub fn id(&self) -> (r: u64)
        ensures
            r == self.id,
    {
        self.id
    }
}

/// The in-memory segmented log.
#[derive(Debug)]
pub struct Backend {
    /// Advisory byte size at which the open segment is sealed.
    segment_size: u64,
    /// Id of `msgs[0]`; ids are dense from here on.
    base_id: u64,
    /// Every message pushed since the last purge, in id order.
    msgs: Vec<Message>,
    /// Start id of each live segment, ascending. The first entry is the
    /// smallest retained id; the last entry starts the open segment.
    seg_starts: Vec<u64>,
    /// Payload bytes accumulated in the open segment.
    open_bytes: u64,
}

impl Backend {
    /// Id of the first message in the stored log.
    pub closed spec fn base(&self) -> u64 {
        self.base_id
    }

    /// The stored log, in id order.
    pub closed spec fn log(&self) -> Seq<Message> {
        self.msgs@
    }

    /// Segment start ids, ascending.
    pub closed spec fn starts(&self) -> Seq<u64> {
        self.seg_starts@
    }

    /// The next id to be assigned: one past the highest assigned id,
    /// or 1 if nothing was ever pushed.
    pub open spec fn tail_spec(&self) -> int {
        self.base() + self.log().len()
    }

    /// The smallest retained id.
    pub open spec fn first_spec(&self) -> u64 {
        self.starts()[0]
    }

    /// Whether a read of `id` is answered.
    pub open spec fn serves(&self, id: u64) -> bool {
        self.first_spec() <= id && id < self.tail_spec()
    }

    /// The stored message with the given id.
    pub open spec fn msg_at(&self, id: u64) -> Message {
        self.log()[id - self.base()]
    }

    /// Number of live segments.
    pub open spec fn files_spec(&self) -> int {
        self.starts().len() as int
    }

    pub open spec fn wf(&self) -> bool {
        &&& 1 <= self.base()
        &&& self.tail_spec() <= u64::MAX
        &&& forall|k: int|
            0 <= k < self.log().len() ==> (#[trigger] self.log()[k]).id == self.base() + k
        &&& 1 <= self.starts().len()
        &&& forall|i: int, j: int|
            0 <= i < j < self.starts().len() ==> self.starts()[i] < self.starts()[j]
        &&& self.base() <= self.starts()[0]
        &&& forall|i: int|
            0 <= i < self.starts().len() ==> self.base() <= #[trigger] self.starts()[i]
                <= self.tail_spec()
    }

    /// A fresh, empty log: ids start at 1, one open empty segment.
    pub fn new(segment_size: u64) -> (r: Backend)
        ensures
            r.wf(),
            r.base() == 1,
            r.log().len() == 0,
            r.tail_spec() == 1,
            r.first_spec() == 1,
            r.files_spec() == 1,
    {
        let mut seg_starts: Vec<u64> = Vec::new();
        seg_starts.push(1);
        Backend { segment_size, base_id: 1, msgs: Vec::new(), seg_starts, open_bytes: 0 }
    }

    /// The next id to be assigned.
    pub fn tail(&self) -> (r: u64)
        requires
            self.wf(),
        ensures
            r == self.tail_spec(),
    {
        self.base_id + self.msgs.len() as u64
    }

    /// The smallest retained id.
    pub fn first_id(&self) -> (r: u64)
        requires
            self.wf(),
        ensures
            r == self.first_spec(),
    {
        self.seg_starts[0]
    }

    /// Number of live segments.
    pub fn files_count(&self) -> (r: usize)
        requires
            self.wf(),
        ensures
            r == self.files_spec(),
    {
        self.seg_starts.len()
    }

    /// Append a message stamped with `clock`; the new id is returned.
    /// The in-memory log never refuses an append, so the result is
    /// always the old tail.
    pub fn push(&mut self, clock: u32, payload: &[u8]) -> (r: Option<u64>)
        requires
            old(self).wf(),
            old(self).tail_spec() < u64::MAX,
        ensures
            final(self).wf(),
            push_post(*old(self), *final(self), clock, payload@, r),
    {
        let id: u64 = self.tail();
        let last_start: u64 = self.seg_starts[self.seg_starts.len() - 1];
        if self.open_bytes >= self.segment_size && last_start < id {
            self.seg_starts.push(id);
            self.open_bytes = 0;
        }
        let len64: u64 = payload.len() as u64;
        self.open_bytes = self.open_bytes.saturating_add(len64);
        let msg = Message { id, timestamp: clock, body: slice_to_vec(payload) };
        self.msgs.push(msg);
        Some(id)
    }

    /// Random read by id.
    pub fn get(&self, id: u64) -> (r: Option<Message>)
        requires
            self.wf(),
        ensures
            r is Some <==> self.serves(id),
            (r matches Some(m) ==> m.id == id && m.timestamp == self.msg_at(id).timestamp
                && m.body@ == self.msg_at(id).body@),
    {
        if id >= self.seg_starts[0] && id < self.tail() {
            let n: usize = self.msgs.len();
            let off: u64 = id - self.base_id;
            proof {
                assert(off < n);
            }
            let idx: usize = off as usize;
            let m = &self.msgs[idx];
            Some(Message { id: m.id, timestamp: m.timestamp, body: slice_to_vec(m.body.as_slice()) })
        } else {
            None
        }
    }

    /// Retire every leading segment whose entire id range is below
    /// `smallest`; the open segment always stays. The last clause is the
    /// progress half: no fully-retired leading segment survives, since
    /// every remaining segment but the first starts above `smallest`.
    pub fn gc(&mut self, smallest: u64)
        requires
            old(self).wf(),
        ensures
            final(self).wf(),
            final(self).base() == old(self).base(),
            final(self).log() == old(self).log(),
            final(self).tail_spec() == old(self).tail_spec(),
            final(self).files_spec() <= old(self).files_spec(),
            old(self).first_spec() <= final(self).first_spec(),
            forall|x: u64|
                old(self).serves(x) && smallest <= x ==> final(self).serves(x)
                    && final(self).msg_at(x) == old(self).msg_at(x),
            final(self).starts().len() >= 2 ==> smallest < final(self).starts()[1],
    {
        while self.seg_starts.len() >= 2 && self.seg_starts[1] <= smallest
            invariant
                self.segment_size == old(self).segment_size,
                self.base_id == old(self).base_id,
                self.msgs@ == old(self).msgs@,
                self.open_bytes == old(self).open_bytes,
                self.wf(),
                self.seg_starts@.len() <= old(self).seg_starts@.len(),
                old(self).first_spec() <= self.first_spec(),
                self.first_spec() == old(self).first_spec() || self.first_spec() <= smallest,
            decreases self.seg_starts@.len(),
        {
            self.seg_starts.remove(0);
        }
    }

    /// Drop all segments and restart ids from 1.
    pub fn purge(&mut self)
        ensures
            final(self).wf(),
            final(self).base() == 1,
            final(self).log().len() == 0,
            final(self).tail_spec() == 1,
            final(self).first_spec() == 1,
            final(self).files_spec() == 1,
    {
        self.base_id = 1;
        self.msgs.clear();
        self.seg_starts.clear();
        self.seg_starts.push(1);
        self.open_bytes = 0;
    }

    /// Drop all segments; the log holds nothing afterwards.
    pub fn delete(&mut self)
        ensures
            final(self).wf(),
            final(self).base() == 1,
            final(self).log().len() == 0,
            final(self).tail_spec() == 1,
            final(self).first_spec() == 1,
            final(self).files_spec() == 1,
    {
        self.purge()
    }
}

/// Everything a successful push guarantees, shared by the push contract
/// and the law below.
pub open spec fn push_post(
    pre: Backend,
    post: Backend,
    clock: u32,
    payload: Seq<u8>,
    r: Option<u64>,
) -> bool {
    let id = pre.tail_spec() as u64;
    &&& r == Some(id)
    &&& post.base() == pre.base()
    &&& post.tail_spec() == pre.tail_spec() + 1
    &&& post.first_spec() == pre.first_spec()
    &&& post.msg_at(id).id == id
    &&& post.msg_at(id).timestamp == clock
    &&& post.msg_at(id).body@ == payload
    &&& forall|x: u64|
        pre.serves(x) ==> #[trigger] post.serves(x) && post.msg_at(x) == pre.msg_at(x)
    &&& pre.files_spec() <= post.files_spec() <= pre.files_spec() + 1
}

/// Monotone ids: in any run of successful pushes the returned ids are
/// strictly increasing, because each push returns the current tail and
/// advances it by one.
pub proof fn lemma_push_ids_monotone(
    b0: Backend,
    b1: Backend,
    b2: Backend,
    c1: u32,
    c2: u32,
    p1: Seq<u8>,
    p2: Seq<u8>,
    id1: u64,
    id2: u64,
)
    requires
        b0.wf(),
        b1.wf(),
        push_post(b0, b1, c1, p1, Some(id1)),
        push_post(b1, b2, c2, p2, Some(id2)),
    ensures
        id1 < id2,
{
}

} // verus!
