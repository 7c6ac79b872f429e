//! Per-channel state: the cursor into the shared log plus the lease table.
//!
//! The lease table `in_flight` is insertion-ordered: the first entry is the
//! earliest-leased and therefore the next to expire. `in_flight_heap` holds
//! the ids currently or formerly in flight in ascending order; stale ids are
//! popped lazily on ack, so its first element, which acknowledgement keeps
//! live, is the smallest unacknowledged leased id.

use vstd::prelude::*;

verus! {

/// Lease state for one in-flight message.
#[derive(Debug, Clone, Copy, PartialEq, Eq, Structural)]
pub struct InFlightState {
    /// Clock value at which the lease expires and the message becomes
    /// eligible for redelivery.
    pub expiration: u32,
    /// How many times the message was redelivered.
    pub retry: u32,
}

/// One entry of the lease table.
#[derive(Debug, Clone, Copy, PartialEq, Eq, Structural)]
pub struct InFlightEntry {
    pub id: u64,
    pub state: InFlightState,
}

/// Whether some entry of `s` carries the id `x`.
pub open spec fn contains_id(s: Seq<InFlightEntry>, x: u64) -> bool {
    exists|i: int| 0 <= i < s.len() && (#[trigger] s[i]).id == x
}

/// Whether the entries of `s` carry pairwise distinct ids.
pub open spec fn distinct_ids(s: Seq<InFlightEntry>) -> bool {
    forall|i: int, j: int| 0 <= i < j < s.len() ==> s[i].id != s[j].id
}

/// The heap with its leading ids that are no longer in flight popped off.
pub open spec fn compact_heap(heap: Seq<u64>, flights: Seq<InFlightEntry>) -> Seq<u64>
    decreases heap.len(),
{
    if heap.len() > 0 && !contains_id(flights, heap[0]) {
        compact_heap(heap.skip(1), flights)
    } else {
        heap
    }
}

/// A named cursor over the queue's log providing at-least-once delivery.
#[derive(Debug)]
pub struct Channel {
    /// Clock value at the last `get`/`ack`.
    pub last_touched: u32,
    /// The next id this channel would lease on a fresh `get`.
    pub tail: u64,
    /// Insertion-ordered lease table; the first entry is the earliest-leased.
    pub in_flight: Vec<InFlightEntry>,
    /// Ascending ids, a superset of the in-flight ids; compacted on ack.
    pub in_flight_heap: Vec<u64>,
}

impl Channel {
    pub open spec fn flights(&self) -> Seq<InFlightEntry> {
        self.in_flight@
    }

    pub open spec fn heap(&self) -> Seq<u64> {
        self.in_flight_heap@
    }

    pub open spec fn has_id(&self, x: u64) -> bool {
        contains_id(self.flights(), x)
    }

    /// The earliest id this channel still needs the log to retain: the
    /// smallest live or lazily-retired leased id, or the cursor itself.
    pub open spec fn real_tail_spec(&self) -> u64 {
        if self.heap().len() > 0 {
            self.heap()[0]
        } else {
            self.tail
        }
    }

    /// The oldest lease has expired at `clock`.
    pub open spec fn front_expired(&self, clock: u32) -> bool {
        self.flights().len() > 0 && self.flights()[0].state.expiration <= clock
    }

    pub open spec fn wf(&self) -> bool {
        &&& 1 <= self.tail
        &&& distinct_ids(self.flights())
        &&& forall|i: int, j: int|
            0 <= i < j < self.heap().len() ==> self.heap()[i] < self.heap()[j]
        &&& forall|i: int|
            0 <= i < self.flights().len() ==> contains_seq(
                self.heap(),
                (#[trigger] self.flights()[i]).id,
            )
        &&& (self.heap().len() > 0 ==> self.has_id(self.heap()[0]))
        &&& forall|i: int| 0 <= i < self.heap().len() ==> #[trigger] self.heap()[i] < self.tail
    }

    /// A fresh channel: cursor at `tail`, nothing in flight.
    pub fn new(last_touched: u32, tail: u64) -> (r: Channel)
        requires
            1 <= tail,
        ensures
            r.wf(),
            r.last_touched == last_touched,
            r.tail == tail,
            r.flights().len() == 0,
            r.heap().len() == 0,
    {
        Channel { last_touched, tail, in_flight: Vec::new(), in_flight_heap: Vec::new() }
    }

    /// The earliest id this channel still needs the log to retain.
    pub fn real_tail(&self) -> (r: u64)
        ensures
            r == self.real_tail_spec(),
    {
        if self.in_flight_heap.len() > 0 {
            self.in_flight_heap[0]
        } else {
            self.tail
        }
    }

    /// Refresh the clock of the last touch, nothing else.
    pub fn touch(&mut self, clock: u32)
        ensures
            touched(*old(self), *final(self), clock),
            old(self).wf() ==> final(self).wf(),
    {
        self.last_touched = clock;
    }

    /// Re-lease the expired oldest entry: its expiration is reset, its retry
    /// count is bumped, and it moves to the newest position so redelivery
    /// comes after subsequent first deliveries.
    pub fn redeliver_front(&mut self, clock: u32, ttl: u32) -> (id: u64)
        requires
            old(self).wf(),
            old(self).front_expired(clock),
        ensures
            final(self).wf(),
            redelivered(*old(self), *final(self), clock, ttl),
            id == old(self).flights()[0].id,
            final(self).real_tail_spec() == old(self).real_tail_spec(),
            forall|x: u64| final(self).has_id(x) == old(self).has_id(x),
    {
        let e = self.in_flight.remove(0);
        let ne = InFlightEntry {
            id: e.id,
            state: InFlightState {
                expiration: clock.saturating_add(ttl),
                retry: e.state.retry.saturating_add(1),
            },
        };
        self.in_flight.push(ne);
        self.last_touched = clock;
        proof {
            let f0 = old(self).flights();
            let f1 = self.flights();
            assert(f1 =~= f0.skip(1).push(ne));
            assert forall|x: u64| contains_id(f1, x) == contains_id(f0, x) by {
                if contains_id(f0, x) {
                    let i = choose|i: int| 0 <= i < f0.len() && (#[trigger] f0[i]).id == x;
                    if i == 0 {
                        assert(f1[f1.len() - 1].id == x);
                    } else {
                        assert(f1[i - 1].id == x);
                    }
                }
                if contains_id(f1, x) {
                    let j = choose|j: int| 0 <= j < f1.len() && (#[trigger] f1[j]).id == x;
                    if j == f1.len() - 1 {
                        assert(f0[0].id == x);
                    } else {
                        assert(f0[j + 1].id == x);
                    }
                }
            }
            assert forall|i: int, j: int| 0 <= i < j < f1.len() implies f1[i].id != f1[j].id by {
                if j == f1.len() - 1 {
                    assert(f1[j].id == f0[0].id);
                    assert(f1[i].id == f0[i + 1].id);
                } else {
                    assert(f1[i].id == f0[i + 1].id);
                    assert(f1[j].id == f0[j + 1].id);
                }
            }
        }
        e.id
    }

    /// Lease the message at the cursor: record it in flight with a fresh
    /// expiration, remember its id in the heap, advance the cursor.
    pub fn lease_fresh(&mut self, clock: u32, ttl: u32)
        requires
            old(self).wf(),
            old(self).tail < u64::MAX,
        ensures
            final(self).wf(),
            leased_fresh(*old(self), *final(self), clock, ttl),
            final(self).real_tail_spec() == old(self).real_tail_spec(),
    {
        let id = self.tail;
        self.in_flight.push(
            InFlightEntry {
                id,
                state: InFlightState { expiration: clock.saturating_add(ttl), retry: 0 },
            },
        );
        self.in_flight_heap.push(id);
        self.tail = id + 1;
        self.last_touched = clock;
        proof {
            let f0 = old(self).flights();
            let f1 = self.flights();
            let h0 = old(self).heap();
            let h1 = self.heap();
            assert forall|i: int|
                0 <= i < f1.len() implies contains_seq(h1, (#[trigger] f1[i]).id) by {
                if i < f0.len() {
                    let p = choose|p: int| 0 <= p < h0.len() && h0[p] == f0[i].id;
                    assert(h1[p] == f0[i].id);
                } else {
                    assert(h1[h1.len() - 1] == id);
                }
            }
            assert forall|i: int, j: int| 0 <= i < j < f1.len() implies f1[i].id != f1[j].id by {
                if j == f1.len() - 1 {
                    assert(contains_seq(h0, f0[i].id));
                }
            }
            if h0.len() > 0 {
                assert(h1[0] == h0[0]);
                assert(contains_id(f0, h0[0]));
                let q = choose|q: int| 0 <= q < f0.len() && (#[trigger] f0[q]).id == h0[0];
                assert(f1[q].id == h0[0]);
            } else {
                assert(h1[0] == id && f1[f1.len() - 1].id == id);
            }
        }
    }

    /// Remove `id` from the lease table if present, then pop retired ids
    /// off the front of the heap so its head is live again.
    pub fn ack_remove(&mut self, id: u64, clock: u32) -> (found: bool)
        requires
            old(self).wf(),
        ensures
            final(self).wf(),
            ack_post(*old(self), *final(self), id, clock, found),
            old(self).real_tail_spec() <= final(self).real_tail_spec(),
    {
        self.last_touched = clock;
        let found: bool;
        match find_entry(&self.in_flight, id) {
            Some(i) => {
                self.in_flight.remove(i);
                found = true;
                proof {
                    let f0 = old(self).flights();
                    let f1 = self.flights();
                    assert(contains_id(f0, id));
                    assert forall|j: int, k: int|
                        0 <= j < k < f1.len() implies f1[j].id != f1[k].id by {
                        lemma_remove_index(f0, i as int);
                    }
                    assert forall|x: u64|
                        contains_id(f1, x) implies contains_id(f0, x) by {
                        lemma_remove_index(f0, i as int);
                        let j = choose|j: int| 0 <= j < f1.len() && (#[trigger] f1[j]).id == x;
                        if j < i {
                            assert(f0[j].id == x);
                        } else {
                            assert(f0[j + 1].id == x);
                        }
                    }
                    assert(!contains_id(f1, id)) by {
                        lemma_remove_index(f0, i as int);
                        if contains_id(f1, id) {
                            let j = choose|j: int|
                                0 <= j < f1.len() && (#[trigger] f1[j]).id == id;
                            if j < i {
                                assert(f0[j].id == id);
                            } else {
                                assert(f0[j + 1].id == id);
                            }
                        }
                    }
                }
            },
            None => {
                found = false;
            },
        }
        self.compact();
        found
    }

    /// Pop retired ids off the front of the heap.
    fn compact(&mut self)
        requires
            distinct_ids(old(self).flights()),
            forall|i: int, j: int|
                0 <= i < j < old(self).heap().len() ==> old(self).heap()[i] < old(
                    self,
                ).heap()[j],
            forall|i: int|
                0 <= i < old(self).flights().len() ==> contains_seq(
                    old(self).heap(),
                    (#[trigger] old(self).flights()[i]).id,
                ),
            forall|i: int| 0 <= i < old(self).heap().len() ==> #[trigger] old(self).heap()[i]
                < old(self).tail,
            1 <= old(self).tail,
        ensures
            final(self).wf(),
            final(self).last_touched == old(self).last_touched,
            final(self).tail == old(self).tail,
            final(self).flights() == old(self).flights(),
            final(self).heap() == compact_heap(old(self).heap(), old(self).flights()),
            old(self).heap().len() > 0 && contains_id(old(self).flights(), old(self).heap()[0])
                ==> final(self).heap() == old(self).heap(),
            ({
                let r0 = if old(self).heap().len() > 0 {
                    old(self).heap()[0]
                } else {
                    old(self).tail
                };
                r0 <= final(self).real_tail_spec()
            }),
    {
        proof {
            assert(self.heap() =~= old(self).heap().skip(0));
        }
        while self.in_flight_heap.len() > 0 && !contains_entry(
            &self.in_flight,
            self.in_flight_heap[0],
        )
            invariant
                self.last_touched == old(self).last_touched,
                self.tail == old(self).tail,
                self.in_flight@ == old(self).flights(),
                forall|i: int, j: int|
                    0 <= i < j < self.heap().len() ==> self.heap()[i] < self.heap()[j],
                forall|i: int| 0 <= i < self.heap().len() ==> #[trigger] self.heap()[i]
                    < self.tail,
                compact_heap(self.heap(), self.flights()) == compact_heap(
                    old(self).heap(),
                    old(self).flights(),
                ),
                exists|k: int|
                    0 <= k <= old(self).heap().len() && self.heap() =~= old(self).heap().skip(k),
            decreases self.in_flight_heap@.len(),
        {
            proof {
                let k = choose|k: int|
                    0 <= k <= old(self).heap().len() && self.heap() =~= old(self).heap().skip(k);
                assert(self.heap().skip(1) =~= old(self).heap().skip(k + 1));
            }
            self.in_flight_heap.remove(0);
        }
        proof {
            let h1 = self.heap();
            let f = self.flights();
            if h1.len() > 0 {
                assert(contains_id(f, h1[0]));
            }
            assert(compact_heap(h1, f) == h1);
            let k = choose|k: int|
                0 <= k <= old(self).heap().len() && h1 =~= old(self).heap().skip(k);
            assert forall|i: int|
                0 <= i < f.len() implies contains_seq(h1, (#[trigger] f[i]).id) by {
                let p = choose|p: int|
                    0 <= p < old(self).heap().len() && old(self).heap()[p] == f[i].id;
                if p < k {
                    lemma_compact_skips_retired(old(self).heap(), f, k);
                    assert(!contains_id(f, old(self).heap()[p]));
                } else {
                    assert(h1[p - k] == f[i].id);
                }
            }
            if h1.len() > 0 {
                assert(h1[0] == old(self).heap()[k]);
                if k > 0 {
                    assert(old(self).heap()[0] < old(self).heap()[k]);
                }
            }
        }
    }
}

/// The leading `k` ids dropped by compaction were all retired: no entry of
/// `flights` carries them.
proof fn lemma_compact_skips_retired(heap: Seq<u64>, flights: Seq<InFlightEntry>, k: int)
    requires
        0 <= k <= heap.len(),
        compact_heap(heap, flights) =~= heap.skip(k),
        forall|i: int, j: int| 0 <= i < j < heap.len() ==> heap[i] < heap[j],
    ensures
        forall|j: int| 0 <= j < k ==> !contains_id(flights, heap[j]),
    decreases heap.len(),
{
    if heap.len() > 0 && !contains_id(flights, heap[0]) {
        if k > 0 {
            assert(compact_heap(heap, flights) == compact_heap(heap.skip(1), flights));
            assert(compact_heap(heap.skip(1), flights) =~= heap.skip(1).skip(k - 1));
            lemma_compact_skips_retired(heap.skip(1), flights, k - 1);
            assert forall|j: int| 0 <= j < k implies !contains_id(flights, heap[j]) by {
                if j > 0 {
                    assert(!contains_id(flights, heap.skip(1)[j - 1]));
                }
            }
        }
    } else {
        if k > 0 {
            // compaction stopped at the front, so the result has the same
            // length as heap, yet skip(k) is shorter: impossible.
            assert(compact_heap(heap, flights) == heap);
            assert(heap.len() == heap.skip(k).len());
        }
    }
}

/// Whether the sequence holds the value.
pub open spec fn contains_seq(s: Seq<u64>, x: u64) -> bool {
    exists|i: int| 0 <= i < s.len() && s[i] == x
}

/// How `Seq::remove` rearranges indices.
proof fn lemma_remove_index(s: Seq<InFlightEntry>, i: int)
    requires
        0 <= i < s.len(),
    ensures
        s.remove(i).len() == s.len() - 1,
        forall|j: int| 0 <= j < i ==> s.remove(i)[j] == s[j],
        forall|j: int| i <= j < s.len() - 1 ==> s.remove(i)[j] == s[j + 1],
{
}

/// Linear scan of the lease table for an id.
fn find_entry(v: &Vec<InFlightEntry>, id: u64) -> (r: Option<usize>)
    ensures
        match r {
            Some(i) => i < v@.len() && v@[i as int].id == id,
            None => !contains_id(v@, id),
        },
{
    let mut i: usize = 0;
    while i < v.len()
        invariant
            i <= v@.len(),
            forall|j: int| 0 <= j < i ==> v@[j].id != id,
        decreases v@.len() - i,
    {
        if v[i].id == id {
            return Some(i);
        }
        i += 1;
    }
    None
}

/// Whether the lease table holds an entry with this id.
fn contains_entry(v: &Vec<InFlightEntry>, id: u64) -> (r: bool)
    ensures
        r == contains_id(v@, id),
{
    match find_entry(v, id) {
        Some(_) => true,
        None => false,
    }
}

/// Only the clock of the last touch changed.
pub open spec fn touched(c0: Channel, c1: Channel, clock: u32) -> bool {
    &&& c1.tail == c0.tail
    &&& c1.last_touched == clock
    &&& c1.flights() == c0.flights()
    &&& c1.heap() == c0.heap()
}

/// The expired oldest lease was refreshed and moved to the newest position.
pub open spec fn redelivered(c0: Channel, c1: Channel, clock: u32, ttl: u32) -> bool {
    &&& c0.flights().len() > 0
    &&& c1.tail == c0.tail
    &&& c1.last_touched == clock
    &&& c1.heap() == c0.heap()
    &&& c1.flights() == c0.flights().skip(1).push(
        InFlightEntry {
            id: c0.flights()[0].id,
            state: InFlightState {
                expiration: clock.saturating_add(ttl),
                retry: c0.flights()[0].state.retry.saturating_add(1),
            },
        },
    )
}

/// The message at the cursor was leased and the cursor advanced.
pub open spec fn leased_fresh(c0: Channel, c1: Channel, clock: u32, ttl: u32) -> bool {
    &&& c1.tail == c0.tail + 1
    &&& c1.last_touched == clock
    &&& c1.flights() == c0.flights().push(
        InFlightEntry {
            id: c0.tail,
            state: InFlightState { expiration: clock.saturating_add(ttl), retry: 0 },
        },
    )
    &&& c1.heap() == c0.heap().push(c0.tail)
}

/// The real tail never overtakes the cursor: every heap id lies below it,
/// and with nothing on the heap the two coincide.
pub proof fn lemma_real_tail_le_tail(c: Channel)
    requires
        c.wf(),
    ensures
        c.real_tail_spec() <= c.tail,
{
}

/// Channel tail monotone: between creation and the next purge, no get, ack
/// or touch ever decreases the cursor.
pub proof fn lemma_channel_tail_monotone(
    c0: Channel,
    c1: Channel,
    clock: u32,
    ttl: u32,
    acked: u64,
    found: bool,
)
    requires
        touched(c0, c1, clock) || redelivered(c0, c1, clock, ttl) || leased_fresh(
            c0,
            c1,
            clock,
            ttl,
        ) || ack_post(c0, c1, acked, clock, found),
    ensures
        c0.tail <= c1.tail,
{
}

/// The cases of a `get` that return a message: either the expired oldest
/// lease is redelivered, or the message at the cursor is leased fresh.
pub open spec fn get_returned(c0: Channel, c1: Channel, clock: u32, ttl: u32, id: u64) -> bool {
    if c0.front_expired(clock) {
        redelivered(c0, c1, clock, ttl) && id == c0.flights()[0].id
    } else {
        leased_fresh(c0, c1, clock, ttl) && id == c0.tail
    }
}

/// Lease exclusivity within the time to live: if a `get` returned id `i` at
/// clock `t`, a `get` on the same channel at a clock `t2` before the lease
/// expires never returns `i` again. At `t + ttl` and later the lease has
/// expired and `i` may be redelivered. The premise `t + ttl <= u32::MAX`
/// excludes the saturated expiration, on which the lease never expires and
/// the exclusion holds trivially longer.
pub proof fn lemma_lease_exclusive(
    c0: Channel,
    c1: Channel,
    c2: Channel,
    t: u32,
    t2: u32,
    ttl: u32,
    i: u64,
    r2: u64,
)
    requires
        c0.wf(),
        c1.wf(),
        get_returned(c0, c1, t, ttl, i),
        get_returned(c1, c2, t2, ttl, r2),
        t as int + ttl as int <= u32::MAX,
        (t2 as int) < t as int + ttl as int,
    ensures
        r2 != i,
{
    let f0 = c0.flights();
    let f1 = c1.flights();
    // the entry for i sits at the newest position of c1 with expiration t + ttl
    assert(f1.len() > 0);
    assert(f1[f1.len() - 1].id == i);
    assert(f1[f1.len() - 1].state.expiration == t + ttl);
    if c1.front_expired(t2) {
        assert(r2 == f1[0].id);
        if r2 == i {
            if f1.len() > 1 {
                assert(f1[0].id != f1[f1.len() - 1].id);
            }
            assert(f1[0].state.expiration == t + ttl);
            assert(false);
        }
    } else {
        assert(r2 == c1.tail);
        if c0.front_expired(t) {
            // i was already in flight in c0, hence on its heap, hence below
            // the cursor, which redelivery does not move
            assert(contains_id(f0, i));
            let q = choose|q: int| 0 <= q < f0.len() && (#[trigger] f0[q]).id == i;
            assert(contains_seq(c0.heap(), f0[q].id));
            let p = choose|p: int| 0 <= p < c0.heap().len() && c0.heap()[p] == i;
            assert(c0.heap()[p] < c0.tail);
        } else {
            assert(i == c0.tail);
            assert(c1.tail == c0.tail + 1);
        }
    }
}

/// Ack idempotence: once an id is acknowledged, acknowledging it again
/// reports that nothing was removed and leaves the channel unchanged apart
/// from the clock of the last touch.
pub proof fn lemma_ack_idempotent(
    c0: Channel,
    c1: Channel,
    c2: Channel,
    id: u64,
    t1: u32,
    t2: u32,
    r1: bool,
    r2: bool,
)
    requires
        c0.wf(),
        c1.wf(),
        ack_post(c0, c1, id, t1, r1),
        ack_post(c1, c2, id, t2, r2),
    ensures
        r2 == false,
        c2.flights() == c1.flights(),
        c2.heap() == c1.heap(),
        c2.tail == c1.tail,
        c2.last_touched == t2,
{
    if r1 {
        let i = choose|i: int|
            0 <= i < c0.flights().len() && (#[trigger] c0.flights()[i]).id == id && c1.flights()
                == c0.flights().remove(i);
        lemma_remove_index(c0.flights(), i);
        if contains_id(c1.flights(), id) {
            let j = choose|j: int| 0 <= j < c1.flights().len() && (#[trigger] c1.flights()[j]).id == id;
            if j < i {
                assert(c0.flights()[j].id == id);
            } else {
                assert(c0.flights()[j + 1].id == id);
            }
        }
    }
    assert(!contains_id(c1.flights(), id));
    // the front of a compacted heap is live, so a second compaction pops nothing
    if c1.heap().len() > 0 {
        assert(contains_id(c1.flights(), c1.heap()[0]));
    }
    assert(compact_heap(c1.heap(), c2.flights()) == c1.heap());
}

/// Everything an acknowledgement guarantees: the id is removed if present,
/// and the heap is compacted against the new lease table.
pub open spec fn ack_post(c0: Channel, c1: Channel, id: u64, clock: u32, found: bool) -> bool {
    &&& found == contains_id(c0.flights(), id)
    &&& c1.tail == c0.tail
    &&& c1.last_touched == clock
    &&& (if found {
        exists|i: int|
            0 <= i < c0.flights().len() && (#[trigger] c0.flights()[i]).id == id && c1.flights()
                == c0.flights().remove(i)
    } else {
        c1.flights() == c0.flights()
    })
    &&& c1.heap() == compact_heap(c0.heap(), c1.flights())
}

} // verus!
