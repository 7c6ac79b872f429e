//! The queue coordination layer: channel table, push/get/ack protocol,
//! lifecycle state machine, checkpointing and maintenance.

use vstd::prelude::*;
use crate::backend::{Backend, Message, push_post};
use crate::channel::{
    ack_post, contains_id, contains_seq, leased_fresh, redelivered, touched, Channel,
};

verus! {

/// Lifecycle state of a queue. `Deleting` is terminal; `Purging` may only
/// return to `Ready`; `Ready` may move to either.
#[derive(Debug, Clone, Copy, PartialEq, Eq, Structural)]
pub enum QueueState {
    Ready,
    Purging,
    Deleting,
}

impl Default for QueueState {
    /// A queue starts out `Ready`.
    fn default() -> (r: QueueState)
        ensures
            r == QueueState::Ready,
    {
        QueueState::Ready
    }
}

/// Parameters a queue is created with.
#[derive(Debug)]
pub struct QueueConfig {
    /// Identifies the queue.
    pub name: String,
    /// Where the owner keeps the queue's files; the coordination layer
    /// itself never touches the file system.
    pub data_directory: String,
    /// Seconds a lease lasts before the message may be redelivered.
    pub time_to_live: u32,
    /// Advisory byte size of one log segment.
    pub segment_size: u64,
}

/// Per-channel part of a checkpoint. The persisted `tail` is the channel's
/// real tail, so every leased-but-unacked message is redelivered after
/// recovery.
#[derive(Debug, Clone, Copy, PartialEq, Eq, Structural)]
pub struct ChannelCheckpoint {
    pub last_touched: u32,
    pub tail: u64,
}

/// The record a checkpoint persists: queue state and one entry per channel.
#[derive(Debug)]
pub struct QueueCheckpoint {
    pub state: QueueState,
    pub channels: Vec<(String, ChannelCheckpoint)>,
}

/// A queue: the shared log, the channel table, the latched clock and the
/// lifecycle state.
#[derive(Debug)]
pub struct Queue {
    pub config: QueueConfig,
    pub backend: Backend,
    pub channels: Vec<(String, Channel)>,
    /// Local copy of the clock, refreshed by `tick`.
    pub clock: u32,
    pub state: QueueState,
}

/// Index of the channel with this name, or -1 if there is none.
pub open spec fn chan_index(s: Seq<(String, Channel)>, name: Seq<char>) -> int
    decreases s.len(),
{
    if s.len() == 0 {
        -1
    } else if s[0].0@ == name {
        0
    } else {
        let r = chan_index(s.skip(1), name);
        if r < 0 {
            -1
        } else {
            r + 1
        }
    }
}

pub proof fn lemma_chan_index(s: Seq<(String, Channel)>, name: Seq<char>)
    ensures
        chan_index(s, name) >= 0 ==> chan_index(s, name) < s.len() && s[chan_index(s, name)].0@
            == name,
        chan_index(s, name) < 0 ==> forall|j: int| 0 <= j < s.len() ==> (#[trigger] s[j]).0@ != name,
    decreases s.len(),
{
    if s.len() == 0 {
    } else if s[0].0@ == name {
    } else {
        lemma_chan_index(s.skip(1), name);
        if chan_index(s, name) < 0 {
            assert forall|j: int| 0 <= j < s.len() implies (#[trigger] s[j]).0@ != name by {
                if j >= 1 {
                    assert(s.skip(1)[j - 1].0@ != name);
                }
            }
        }
    }
}

pub proof fn lemma_chan_index_first(s: Seq<(String, Channel)>, name: Seq<char>, i: int)
    requires
        0 <= i < s.len(),
        s[i].0@ == name,
        forall|j: int| 0 <= j < i ==> (#[trigger] s[j]).0@ != name,
    ensures
        chan_index(s, name) == i,
    decreases s.len(),
{
    if i == 0 {
    } else {
        assert(s[0].0@ != name);
        assert forall|j: int| 0 <= j < i - 1 implies (#[trigger] s.skip(1)[j]).0@ != name by {
            assert(s[j + 1].0@ != name);
        }
        assert(s.skip(1)[i - 1].0@ == name);
        lemma_chan_index_first(s.skip(1), name, i - 1);
    }
}

/// Linear scan of the channel table for a name.
fn find_channel(v: &Vec<(String, Channel)>, name: &str) -> (r: Option<usize>)
    ensures
        match r {
            Some(i) => 0 <= i < v@.len() && i as int == chan_index(v@, name@),
            None => chan_index(v@, name@) < 0,
        },
{
    let owned: String = name.to_owned();
    let n = v.len();
    let mut i: usize = 0;
    while i < n
        invariant
            n == v@.len(),
            i <= n,
            owned@ == name@,
            forall|j: int| 0 <= j < i ==> (#[trigger] v@[j]).0@ != name@,
        decreases n - i,
    {
        if v[i].0 == owned {
            proof {
                lemma_chan_index_first(v@, name@, i as int);
            }
            return Some(i);
        }
        i += 1;
    }
    proof {
        lemma_chan_index(v@, name@);
        if chan_index(v@, name@) >= 0 {
            assert(v@[chan_index(v@, name@)].0@ == name@);
        }
    }
    None
}

impl Queue {
    pub open spec fn chans(&self) -> Seq<(String, Channel)> {
        self.channels@
    }

    /// Well-formedness: channel names are distinct, each channel is
    /// well-formed, no channel's cursor outruns the log, and the log still
    /// retains everything down to each channel's real tail.
    pub open spec fn wf(&self) -> bool {
        &&& self.backend.wf()
        &&& forall|i: int, j: int|
            0 <= i < j < self.chans().len() ==> self.chans()[i].0@ != self.chans()[j].0@
        &&& forall|i: int|
            0 <= i < self.chans().len() ==> {
                let c = (#[trigger] self.chans()[i]).1;
                &&& c.wf()
                &&& c.tail <= self.backend.tail_spec()
                &&& self.backend.first_spec() <= c.real_tail_spec()
            }
    }
}

/// Nothing but the channel table changed.
pub open spec fn same_frame(q0: Queue, q1: Queue) -> bool {
    &&& q1.config == q0.config
    &&& q1.clock == q0.clock
    &&& q1.state == q0.state
    &&& q1.backend == q0.backend
}

/// Only the channel at index `i` changed, and it kept its name.
pub open spec fn channels_replaced_at(q0: Queue, q1: Queue, i: int) -> bool {
    &&& q1.chans().len() == q0.chans().len()
    &&& forall|j: int|
        0 <= j < q0.chans().len() && j != i ==> q1.chans()[j] == q0.chans()[j]
    &&& q1.chans()[i].0 == q0.chans()[i].0
}

/// Everything a `get` guarantees, per case: no such channel, redelivery of
/// the expired oldest lease, a fresh lease at the cursor, or nothing
/// available and the cursor returned as a hint.
pub open spec fn get_post(
    q0: Queue,
    q1: Queue,
    name: Seq<char>,
    r: Option<Result<Message, u64>>,
) -> bool {
    let i = chan_index(q0.chans(), name);
    if i < 0 {
        &&& r is None
        &&& q1.chans() == q0.chans()
    } else {
        let c0 = q0.chans()[i].1;
        let c1 = q1.chans()[i].1;
        &&& channels_replaced_at(q0, q1, i)
        &&& if c0.front_expired(q0.clock) {
            let id = c0.flights()[0].id;
            &&& redelivered(c0, c1, q0.clock, q0.config.time_to_live)
            &&& (r matches Some(Ok(m)) && m.id == id && m.timestamp == q0.backend.msg_at(
                id,
            ).timestamp && m.body@ == q0.backend.msg_at(id).body@)
        } else if c0.tail < q0.backend.tail_spec() {
            &&& leased_fresh(c0, c1, q0.clock, q0.config.time_to_live)
            &&& (r matches Some(Ok(m)) && m.id == c0.tail && m.timestamp == q0.backend.msg_at(
                c0.tail,
            ).timestamp && m.body@ == q0.backend.msg_at(c0.tail).body@)
        } else {
            &&& touched(c0, c1, q0.clock)
            &&& r == Some(Err::<Message, u64>(c0.tail))
        }
    }
}

/// Everything an `ack` guarantees: no such channel, or the lease removed
/// if present and the heap compacted.
pub open spec fn queue_ack_post(
    q0: Queue,
    q1: Queue,
    name: Seq<char>,
    id: u64,
    r: Option<bool>,
) -> bool {
    let i = chan_index(q0.chans(), name);
    if i < 0 {
        &&& r is None
        &&& q1.chans() == q0.chans()
    } else {
        &&& channels_replaced_at(q0, q1, i)
        &&& (r matches Some(found) && ack_post(q0.chans()[i].1, q1.chans()[i].1, id, q0.clock, found))
    }
}

/// Replacing one channel by a well-formed one that respects the log keeps
/// the queue well-formed.
proof fn lemma_replace_channel_wf(q0: Queue, q1: Queue, i: int)
    requires
        q0.wf(),
        0 <= i < q0.chans().len(),
        channels_replaced_at(q0, q1, i),
        q1.backend == q0.backend,
        q1.chans()[i].1.wf(),
        q1.chans()[i].1.tail <= q0.backend.tail_spec(),
        q0.backend.first_spec() <= q1.chans()[i].1.real_tail_spec(),
    ensures
        q1.wf(),
{
    assert forall|a: int, b: int|
        0 <= a < b < q1.chans().len() implies q1.chans()[a].0@ != q1.chans()[b].0@ by {
        assert(q1.chans()[a].0 == q0.chans()[a].0);
        assert(q1.chans()[b].0 == q0.chans()[b].0);
    }
    assert forall|j: int|
        0 <= j < q1.chans().len() implies {
            let c = (#[trigger] q1.chans()[j]).1;
            &&& c.wf()
            &&& c.tail <= q1.backend.tail_spec()
            &&& q1.backend.first_spec() <= c.real_tail_spec()
        } by {
        if j != i {
            assert(q1.chans()[j] == q0.chans()[j]);
        }
    }
}

impl Queue {
    /// A fresh queue: empty log, no channels, `Ready`, clock latched once.
    pub fn new(config: QueueConfig) -> (q: Queue)
        ensures
            q.wf(),
            q.state == QueueState::Ready,
            q.chans().len() == 0,
            q.backend.tail_spec() == 1,
            q.backend.first_spec() == 1,
            q.backend.files_spec() == 1,
            q.config == config,
    {
        let segment_size = config.segment_size;
        let mut q = Queue {
            config,
            backend: Backend::new(segment_size),
            channels: Vec::new(),
            clock: 0,
            state: QueueState::Ready,
        };
        q.tick();
        q
    }

    /// The queue's name.
    pub fn name(&self) -> (r: &str)
        ensures
            r@ == self.config.name@,
    {
        self.config.name.as_str()
    }

    /// Latch the wall clock. All expiration comparisons use the latched
    /// value; `get` and `ack` never read the wall clock themselves.
    pub fn tick(&mut self)
        ensures
            final(self).config == old(self).config,
            final(self).backend == old(self).backend,
            final(self).channels@ == old(self).channels@,
            final(self).state == old(self).state,
            old(self).wf() ==> final(self).wf(),
    {
        self.clock = crate::clock::now_seconds();
        proof {
            if old(self).wf() {
                assert(self.backend == old(self).backend);
                assert(self.chans() == old(self).chans());
                assert(self.wf());
            }
        }
    }

    /// Insert a new channel whose cursor starts at the log's tail, so
    /// messages pushed before creation are not delivered to it. Reports
    /// false, changing nothing, if the name is already present.
    pub fn create_channel(&mut self, channel_name: &str) -> (r: bool)
        requires
            old(self).wf(),
        ensures
            final(self).wf(),
            same_frame(*old(self), *final(self)),
            r == (chan_index(old(self).chans(), channel_name@) < 0),
            r ==> final(self).chans().len() == old(self).chans().len() + 1 && final(self).chans().subrange(0, old(self).chans().len() as int) == old(self).chans() && final(self).chans().last().0@ == channel_name@ && ({
                let c = final(self).chans().last().1;
                &&& c.wf()
                &&& c.tail == old(self).backend.tail_spec()
                &&& c.last_touched == old(self).clock
                &&& c.flights().len() == 0
                &&& c.heap().len() == 0
            }),
            !r ==> final(self).chans() == old(self).chans(),
    {
        match find_channel(&self.channels, channel_name) {
            Some(_) => false,
            None => {
                proof {
                    lemma_chan_index(self.channels@, channel_name@);
                    assert(self.backend.first_spec() >= 1);
                }
                let t = self.backend.tail();
                let c = Channel::new(self.clock, t);
                self.channels.push((channel_name.to_owned(), c));
                proof {
                    assert(final(self).chans().subrange(0, old(self).chans().len() as int) =~= old(self).chans());
                    assert forall|a: int, b: int|
                        0 <= a < b < self.chans().len() implies self.chans()[a].0@ != self.chans()[b].0@ by {
                        if b < old(self).chans().len() {
                            assert(self.chans()[a] == old(self).chans()[a]);
                            assert(self.chans()[b] == old(self).chans()[b]);
                        } else {
                            assert(self.chans()[a] == old(self).chans()[a]);
                        }
                    }
                    assert forall|j: int|
                        0 <= j < self.chans().len() implies {
                            let c = (#[trigger] self.chans()[j]).1;
                            &&& c.wf()
                            &&& c.tail <= self.backend.tail_spec()
                            &&& self.backend.first_spec() <= c.real_tail_spec()
                        } by {
                        if j < old(self).chans().len() {
                            assert(self.chans()[j] == old(self).chans()[j]);
                        }
                    }
                }
                true
            },
        }
    }

    /// Remove the channel; in-flight leases are discarded. Reports whether
    /// the name was present.
    pub fn delete_channel(&mut self, channel_name: &str) -> (r: bool)
        requires
            old(self).wf(),
        ensures
            final(self).wf(),
            same_frame(*old(self), *final(self)),
            r == (chan_index(old(self).chans(), channel_name@) >= 0),
            r ==> final(self).chans() == old(self).chans().remove(
                chan_index(old(self).chans(), channel_name@),
            ),
            !r ==> final(self).chans() == old(self).chans(),
    {
        match find_channel(&self.channels, channel_name) {
            Some(i) => {
                self.channels.remove(i);
                proof {
                    let s0 = old(self).chans();
                    let s1 = self.chans();
                    assert forall|a: int, b: int|
                        0 <= a < b < s1.len() implies s1[a].0@ != s1[b].0@ by {
                        assert(s1[a] == (if a < i { s0[a] } else { s0[a + 1] }));
                        assert(s1[b] == (if b < i { s0[b] } else { s0[b + 1] }));
                    }
                    assert forall|j: int|
                        0 <= j < s1.len() implies {
                            let c = (#[trigger] s1[j]).1;
                            &&& c.wf()
                            &&& c.tail <= self.backend.tail_spec()
                            &&& self.backend.first_spec() <= c.real_tail_spec()
                        } by {
                        assert(s1[j] == (if j < i { s0[j] } else { s0[j + 1] }));
                    }
                }
                true
            },
            None => false,
        }
    }

    /// Append a payload to the log, stamped with the latched clock. The
    /// in-memory log never refuses, so the new id is always returned.
    /// Push never touches channel state.
    pub fn push(&mut self, message: &[u8]) -> (r: Option<u64>)
        requires
            old(self).wf(),
            old(self).backend.tail_spec() < u64::MAX,
        ensures
            final(self).wf(),
            final(self).config == old(self).config,
            final(self).clock == old(self).clock,
            final(self).state == old(self).state,
            final(self).channels@ == old(self).channels@,
            push_post(old(self).backend, final(self).backend, old(self).clock, message@, r),
            r == Some((old(self).backend.tail_spec()) as u64),
    {
        let r = self.backend.push(self.clock, message);
        proof {
            assert forall|j: int|
                0 <= j < self.chans().len() implies {
                    let c = (#[trigger] self.chans()[j]).1;
                    &&& c.wf()
                    &&& c.tail <= self.backend.tail_spec()
                    &&& self.backend.first_spec() <= c.real_tail_spec()
                } by {
                assert(old(self).chans()[j].1.tail <= old(self).backend.tail_spec());
            }
        }
        r
    }

    /// Lease a message to the caller: `None` if the channel does not
    /// exist; the expired oldest lease, refreshed, if there is one; else
    /// the message at the cursor; else the cursor as an `Err` hint.
    pub fn get(&mut self, channel_name: &str) -> (r: Option<Result<Message, u64>>)
        requires
            old(self).wf(),
        ensures
            final(self).wf(),
            same_frame(*old(self), *final(self)),
            get_post(*old(self), *final(self), channel_name@, r),
    {
        let idx = match find_channel(&self.channels, channel_name) {
            Some(i) => i,
            None => {
                return None;
            },
        };
        let clock = self.clock;
        let ttl = self.config.time_to_live;
        let ghost s0 = self.chans();
        let mut entry = self.channels.remove(idx);
        let ghost c0 = entry.1;
        let mut expired = false;
        if entry.1.in_flight.len() > 0 {
            let front = entry.1.in_flight[0];
            if front.state.expiration <= clock {
                expired = true;
            }
        }
        if expired {
            let id = entry.1.redeliver_front(clock, ttl);
            proof {
                // the redelivered id is in flight, hence on the heap, hence
                // at or above the channel's real tail, which the log retains
                assert(contains_id(c0.flights(), id));
                let q = choose|q: int|
                    0 <= q < c0.flights().len() && (#[trigger] c0.flights()[q]).id == id;
                assert(contains_seq(c0.heap(), c0.flights()[q].id));
                let p = choose|p: int| 0 <= p < c0.heap().len() && c0.heap()[p] == id;
                if p > 0 {
                    assert(c0.heap()[0] < c0.heap()[p]);
                }
                assert(old(self).backend.first_spec() <= id);
                assert(c0.heap()[p] < c0.tail);
                assert(old(self).backend.serves(id));
            }
            let m = self.backend.get(id).unwrap();
            self.channels.insert(idx, entry);
            proof {
                assert forall|j: int|
                    0 <= j < s0.len() && j != idx implies self.chans()[j] == s0[j] by {}
                lemma_replace_channel_wf(*old(self), *self, idx as int);
            }
            return Some(Ok(m));
        }
        let cur = entry.1.tail;
        proof {
            assert(old(self).backend.first_spec() <= c0.real_tail_spec());
            if c0.heap().len() > 0 {
                assert(c0.heap()[0] < c0.tail);
            }
            assert(old(self).backend.first_spec() <= cur);
        }
        match self.backend.get(cur) {
            Some(m) => {
                proof {
                    assert(cur < old(self).backend.tail_spec());
                    assert(old(self).backend.tail_spec() <= u64::MAX);
                }
                entry.1.lease_fresh(clock, ttl);
                self.channels.insert(idx, entry);
                proof {
                    assert forall|j: int|
                        0 <= j < s0.len() && j != idx implies self.chans()[j] == s0[j] by {}
                    lemma_replace_channel_wf(*old(self), *self, idx as int);
                }
                Some(Ok(m))
            },
            None => {
                entry.1.touch(clock);
                self.channels.insert(idx, entry);
                proof {
                    assert forall|j: int|
                        0 <= j < s0.len() && j != idx implies self.chans()[j] == s0[j] by {}
                    lemma_replace_channel_wf(*old(self), *self, idx as int);
                }
                Some(Err(cur))
            },
        }
    }

    /// Remove a lease: `None` if the channel does not exist, else whether
    /// the id was in flight. The heap is compacted so the channel's real
    /// tail is up to date afterwards.
    pub fn ack(&mut self, channel_name: &str, id: u64) -> (r: Option<bool>)
        requires
            old(self).wf(),
        ensures
            final(self).wf(),
            same_frame(*old(self), *final(self)),
            queue_ack_post(*old(self), *final(self), channel_name@, id, r),
    {
        let idx = match find_channel(&self.channels, channel_name) {
            Some(i) => i,
            None => {
                return None;
            },
        };
        let clock = self.clock;
        let ghost s0 = self.chans();
        let mut entry = self.channels.remove(idx);
        let ghost c0 = entry.1;
        let found = entry.1.ack_remove(id, clock);
        self.channels.insert(idx, entry);
        proof {
            assert forall|j: int|
                0 <= j < s0.len() && j != idx implies self.chans()[j] == s0[j] by {}
            assert(old(self).backend.first_spec() <= c0.real_tail_spec());
            lemma_replace_channel_wf(*old(self), *self, idx as int);
        }
        Some(found)
    }

    /// Guard of the lifecycle state machine: `Deleting` cannot be left,
    /// `Purging` may only return to `Ready`.
    fn set_state(&mut self, new_state: QueueState)
        requires
            old(self).state == new_state || old(self).state == QueueState::Ready || (old(self).state == QueueState::Purging && new_state == QueueState::Ready),
        ensures
            final(self).state == new_state,
            final(self).config == old(self).config,
            final(self).backend == old(self).backend,
            final(self).channels@ == old(self).channels@,
            final(self).clock == old(self).clock,
    {
        self.state = new_state;
    }

    /// Purge resets: drop every message, restart ids at 1, reset every
    /// channel's cursor to 1 and clear its in-flight structures, and
    /// return to `Ready`.
    pub fn purge(&mut self)
        requires
            old(self).wf(),
            old(self).state == QueueState::Ready,
        ensures
            final(self).wf(),
            final(self).state == QueueState::Ready,
            final(self).config == old(self).config,
            final(self).clock == old(self).clock,
            final(self).backend.tail_spec() == 1,
            final(self).backend.first_spec() == 1,
            final(self).backend.files_spec() == 1,
            final(self).chans().len() == old(self).chans().len(),
            forall|i: int|
                0 <= i < old(self).chans().len() ==> {
                    let c1 = (#[trigger] final(self).chans()[i]);
                    &&& c1.0 == old(self).chans()[i].0
                    &&& c1.1.tail == 1
                    &&& c1.1.flights().len() == 0
                    &&& c1.1.heap().len() == 0
                    &&& c1.1.last_touched == old(self).chans()[i].1.last_touched
                },
    {
        self.set_state(QueueState::Purging);
        self.backend.purge();
        let n = self.channels.len();
        let mut i: usize = 0;
        while i < n
            invariant
                n == self.channels@.len(),
                n == old(self).channels@.len(),
                i <= n,
                self.config == old(self).config,
                self.clock == old(self).clock,
                self.state == QueueState::Purging,
                self.backend.wf(),
                self.backend.tail_spec() == 1,
                self.backend.first_spec() == 1,
                self.backend.files_spec() == 1,
                self.backend.log().len() == 0,
                forall|j: int|
                    i <= j < n ==> #[trigger] self.channels@[j] == old(self).channels@[j],
                forall|j: int|
                    0 <= j < i ==> {
                        let c1 = (#[trigger] self.channels@[j]);
                        &&& c1.0 == old(self).channels@[j].0
                        &&& c1.1.tail == 1
                        &&& c1.1.flights().len() == 0
                        &&& c1.1.heap().len() == 0
                        &&& c1.1.last_touched == old(self).channels@[j].1.last_touched
                    },
            decreases n - i,
        {
            let mut entry = self.channels.remove(i);
            entry.1.tail = 1;
            entry.1.in_flight.clear();
            entry.1.in_flight_heap.clear();
            self.channels.insert(i, entry);
            i += 1;
        }
        self.set_state(QueueState::Ready);
        proof {
            assert forall|a: int, b: int|
                0 <= a < b < self.chans().len() implies self.chans()[a].0@ != self.chans()[b].0@ by {
                assert(self.chans()[a].0 == old(self).chans()[a].0);
                assert(self.chans()[b].0 == old(self).chans()[b].0);
            }
            assert forall|j: int|
                0 <= j < self.chans().len() implies {
                    let c = (#[trigger] self.chans()[j]).1;
                    &&& c.wf()
                    &&& c.tail <= self.backend.tail_spec()
                    &&& self.backend.first_spec() <= c.real_tail_spec()
                } by {}
        }
    }

    /// Transition to `Deleting` and drop the log. No operation other than
    /// dropping the queue is valid afterwards: the well-formedness that
    /// every other operation requires ties the channels to the log and is
    /// deliberately not re-established.
    pub fn delete(&mut self)
        requires
            old(self).wf(),
            old(self).state == QueueState::Ready,
        ensures
            final(self).state == QueueState::Deleting,
            final(self).config == old(self).config,
            final(self).clock == old(self).clock,
            final(self).channels@ == old(self).channels@,
            final(self).backend.tail_spec() == 1,
            final(self).backend.log().len() == 0,
            final(self).backend.files_spec() == 1,
    {
        self.set_state(QueueState::Deleting);
        self.backend.delete();
    }

    /// Compute the record a checkpoint persists: the queue state and, when
    /// `Ready`, one entry per channel carrying its real tail, so recovery
    /// redelivers everything leased but unacknowledged. The caller owns
    /// durability (write to a temporary file, fsync, rename).
    pub fn checkpoint(&self, _full: bool) -> (r: QueueCheckpoint)
        requires
            self.wf(),
        ensures
            checkpoint_rel(*self, r),
    {
        let mut channels: Vec<(String, ChannelCheckpoint)> = Vec::new();
        match self.state {
            QueueState::Ready => {
                let n = self.channels.len();
                let mut i: usize = 0;
                while i < n
                    invariant
                        n == self.channels@.len(),
                        i <= n,
                        channels@.len() == i,
                        forall|j: int|
                            0 <= j < i ==> {
                                let e = (#[trigger] channels@[j]);
                                &&& e.0@ == self.channels@[j].0@
                                &&& e.1.last_touched == self.channels@[j].1.last_touched
                                &&& e.1.tail == self.channels@[j].1.real_tail_spec()
                            },
                    decreases n - i,
                {
                    let name = self.channels[i].0.clone();
                    let lt = self.channels[i].1.last_touched;
                    let rt = self.channels[i].1.real_tail();
                    channels.push((name, ChannelCheckpoint { last_touched: lt, tail: rt }));
                    i += 1;
                }
            },
            _ => {},
        }
        QueueCheckpoint { state: self.state, channels }
    }

    /// Rebuild a queue from a recovered log and the last persisted record.
    /// An absent record starts fresh. A `Ready` record reinstates each
    /// channel at its persisted tail with empty in-flight structures; any
    /// other state reinstates no channels (a `Deleting` queue should not
    /// be served at all).
    pub fn recover(
        config: QueueConfig,
        checkpoint: Option<QueueCheckpoint>,
        backend: Backend,
    ) -> (q: Queue)
        requires
            backend.wf(),
            checkpoint matches Some(cp) ==> checkpoint_compatible(cp, backend),
        ensures
            q.wf(),
            q.config == config,
            recover_rel(checkpoint, backend, q),
    {
        let mut q = Queue {
            config,
            backend,
            channels: Vec::new(),
            clock: 0,
            state: QueueState::Ready,
        };
        match checkpoint {
            None => {},
            Some(cp) => {
                q.state = cp.state;
                match cp.state {
                    QueueState::Ready => {
                        let ghost st = cp.state;
                        let src = cp.channels;
                        let n = src.len();
                        let mut i: usize = 0;
                        while i < n
                            invariant
                                n == src@.len(),
                                i <= n,
                                q.channels@.len() == i,
                                q.backend.wf(),
                                q.backend == backend,
                                q.config == config,
                                q.state == st,
                                st == QueueState::Ready,
                                checkpoint_compatible_channels(src@, backend),
                                forall|j: int|
                                    0 <= j < i ==> {
                                        let e = (#[trigger] q.channels@[j]);
                                        &&& e.0@ == src@[j].0@
                                        &&& e.1.last_touched == src@[j].1.last_touched
                                        &&& e.1.tail == src@[j].1.tail
                                        &&& e.1.flights().len() == 0
                                        &&& e.1.heap().len() == 0
                                    },
                            decreases n - i,
                        {
                            let name = src[i].0.clone();
                            let cc = src[i].1;
                            proof {
                                assert(backend.first_spec() <= src@[i as int].1.tail);
                                assert(backend.first_spec() >= 1);
                            }
                            q.channels.push((name, Channel::new(cc.last_touched, cc.tail)));
                            i += 1;
                        }
                        proof {
                            assert forall|a: int, b: int|
                                0 <= a < b < q.chans().len() implies q.chans()[a].0@ != q.chans()[b].0@ by {
                                assert(src@[a].0@ != src@[b].0@);
                            }
                        }
                    },
                    _ => {},
                }
            },
        }
        q.tick();
        q
    }

    /// Take the log out of a queue, consuming it; the owner hands it to
    /// `recover` when reopening.
    pub fn into_backend(self) -> (r: Backend)
        ensures
            r == self.backend,
    {
        let Queue { backend, .. } = self;
        backend
    }

    /// Retire log segments behind the slowest channel: compute the minimum
    /// real tail across channels (0, meaning no collection, if there are
    /// none) and let the log drop every segment entirely below it.
    ///
    /// GC safety: afterwards the log still serves every id in
    /// `[real_tail, tail)` for every channel. Progress: no fully-retired
    /// leading segment survives — every remaining segment but the first
    /// starts above the minimum real tail.
    pub fn maintenance(&mut self)
        requires
            old(self).wf(),
        ensures
            final(self).wf(),
            final(self).config == old(self).config,
            final(self).clock == old(self).clock,
            final(self).state == old(self).state,
            final(self).channels@ == old(self).channels@,
            final(self).backend.tail_spec() == old(self).backend.tail_spec(),
            final(self).backend.files_spec() <= old(self).backend.files_spec(),
            forall|x: u64|
                old(self).backend.serves(x) && smallest_tail_spec(old(self).chans()) <= x
                    ==> final(self).backend.serves(x) && final(self).backend.msg_at(x) == old(self).backend.msg_at(x),
            forall|i: int, x: u64|
                0 <= i < final(self).chans().len() && final(self).chans()[i].1.real_tail_spec()
                    <= x && x < final(self).backend.tail_spec() ==> final(self).backend.serves(x),
            final(self).backend.starts().len() >= 2 ==> smallest_tail_spec(old(self).chans())
                < final(self).backend.starts()[1],
    {
        let n = self.channels.len();
        let mut smallest: u64 = 0;
        if n > 0 {
            smallest = self.channels[0].1.real_tail();
            let mut i: usize = 1;
            while i < n
                invariant
                    n == self.channels@.len(),
                    1 <= i <= n,
                    forall|j: int|
                        0 <= j < i ==> smallest <= #[trigger] self.channels@[j].1.real_tail_spec(),
                    exists|j: int|
                        0 <= j < i && smallest == #[trigger] self.channels@[j].1.real_tail_spec(),
                decreases n - i,
            {
                let rt = self.channels[i].1.real_tail();
                if rt < smallest {
                    smallest = rt;
                }
                i += 1;
            }
        }
        let ghost small = smallest;
        proof {
            lemma_smallest_tail_le(self.chans());
            if self.chans().len() > 0 {
                lemma_smallest_tail_in(self.chans());
                let j = choose|j: int|
                    0 <= j < self.chans().len() && small == #[trigger] self.chans()[j].1.real_tail_spec();
                let k = choose|k: int|
                    0 <= k < self.chans().len() && smallest_tail_spec(self.chans())
                        == #[trigger] self.chans()[k].1.real_tail_spec();
                assert(small == smallest_tail_spec(self.chans()));
            }
        }
        self.backend.gc(smallest);
        proof {
            assert forall|j: int|
                0 <= j < self.chans().len() implies {
                    let c = (#[trigger] self.chans()[j]).1;
                    &&& c.wf()
                    &&& c.tail <= self.backend.tail_spec()
                    &&& self.backend.first_spec() <= c.real_tail_spec()
                } by {
                let c = old(self).chans()[j].1;
                if c.real_tail_spec() < old(self).backend.tail_spec() {
                    assert(old(self).backend.serves(c.real_tail_spec()));
                    assert(small <= c.real_tail_spec());
                    assert(self.backend.serves(c.real_tail_spec()));
                } else {
                    if c.heap().len() > 0 {
                        assert(c.heap()[0] < c.tail);
                    }
                    assert(c.real_tail_spec() == old(self).backend.tail_spec());
                }
            }
            assert forall|i: int, x: u64|
                0 <= i < self.chans().len() && self.chans()[i].1.real_tail_spec() <= x && x
                    < self.backend.tail_spec() implies self.backend.serves(x) by {
                assert(self.backend.first_spec() <= self.chans()[i].1.real_tail_spec());
            }
        }
    }
}

/// The record matches the queue: same state, and when `Ready` one entry
/// per channel, in table order, carrying its name, last touch and real
/// tail.
pub open spec fn checkpoint_rel(q: Queue, cp: QueueCheckpoint) -> bool {
    &&& cp.state == q.state
    &&& if q.state == QueueState::Ready {
        &&& cp.channels@.len() == q.chans().len()
        &&& forall|i: int|
            0 <= i < q.chans().len() ==> {
                let e = (#[trigger] cp.channels@[i]);
                &&& e.0@ == q.chans()[i].0@
                &&& e.1.last_touched == q.chans()[i].1.last_touched
                &&& e.1.tail == q.chans()[i].1.real_tail_spec()
            }
    } else {
        cp.channels@.len() == 0
    }
}

pub open spec fn checkpoint_compatible_channels(
    chs: Seq<(String, ChannelCheckpoint)>,
    backend: Backend,
) -> bool {
    &&& forall|i: int, j: int|
        0 <= i < j < chs.len() ==> (#[trigger] chs[i]).0@ != (#[trigger] chs[j]).0@
    &&& forall|i: int|
        0 <= i < chs.len() ==> backend.first_spec() <= (#[trigger] chs[i]).1.tail
            <= backend.tail_spec()
}

/// The record can be replayed against this log: names are distinct and
/// every persisted tail lies within what the log retains.
pub open spec fn checkpoint_compatible(cp: QueueCheckpoint, backend: Backend) -> bool {
    checkpoint_compatible_channels(cp.channels@, backend)
}

/// Decide whether a parsed record can be replayed against this log, as
/// `recover` requires. A record that fails here — hand-edited, stale, or
/// from another queue — is treated like a corrupt one: the owner starts
/// recovery fresh instead.
pub fn checkpoint_is_compatible(cp: &QueueCheckpoint, backend: &Backend) -> (r: bool)
    requires
        backend.wf(),
    ensures
        r == checkpoint_compatible(*cp, *backend),
{
    let first = backend.first_id();
    let btail = backend.tail();
    let n = cp.channels.len();
    let mut i: usize = 0;
    while i < n
        invariant
            n == cp.channels@.len(),
            i <= n,
            first == backend.first_spec(),
            btail == backend.tail_spec(),
            forall|a: int|
                0 <= a < i ==> first <= (#[trigger] cp.channels@[a]).1.tail <= btail,
            forall|a: int, b: int|
                0 <= a < i && a < b < n ==> (#[trigger] cp.channels@[a]).0@
                    != (#[trigger] cp.channels@[b]).0@,
        decreases n - i,
    {
        let t = cp.channels[i].1.tail;
        if t < first || t > btail {
            return false;
        }
        let mut j: usize = i + 1;
        while j < n
            invariant
                n == cp.channels@.len(),
                i < j <= n,
                forall|b: int|
                    i < b < j ==> (#[trigger] cp.channels@[b]).0@ != cp.channels@[i as int].0@,
            decreases n - j,
        {
            if cp.channels[i].0 == cp.channels[j].0 {
                return false;
            }
            j += 1;
        }
        i += 1;
    }
    true
}

/// Everything recovery guarantees, per state of the record.
pub open spec fn recover_rel(
    cp_opt: Option<QueueCheckpoint>,
    backend: Backend,
    q: Queue,
) -> bool {
    &&& q.backend == backend
    &&& match cp_opt {
        None => q.state == QueueState::Ready && q.chans().len() == 0,
        Some(cp) => {
            &&& q.state == cp.state
            &&& if cp.state == QueueState::Ready {
                &&& q.chans().len() == cp.channels@.len()
                &&& forall|i: int|
                    0 <= i < q.chans().len() ==> {
                        let e = (#[trigger] q.chans()[i]);
                        &&& e.0@ == cp.channels@[i].0@
                        &&& e.1.last_touched == cp.channels@[i].1.last_touched
                        &&& e.1.tail == cp.channels@[i].1.tail
                        &&& e.1.flights().len() == 0
                        &&& e.1.heap().len() == 0
                    }
            } else {
                q.chans().len() == 0
            }
        },
    }
}

/// A checkpoint taken from a well-formed `Ready` queue can always be
/// replayed against that queue's own log.
pub proof fn lemma_checkpoint_compatible(q: Queue, cp: QueueCheckpoint)
    requires
        q.wf(),
        q.state == QueueState::Ready,
        checkpoint_rel(q, cp),
    ensures
        checkpoint_compatible(cp, q.backend),
{
    assert forall|i: int|
        0 <= i < cp.channels@.len() implies q.backend.first_spec() <= (#[trigger] cp.channels@[i]).1.tail <= q.backend.tail_spec() by {
        let c = q.chans()[i].1;
        if c.heap().len() > 0 {
            assert(c.heap()[0] < c.tail);
        }
    }
    assert forall|i: int, j: int|
        0 <= i < j < cp.channels@.len() implies (#[trigger] cp.channels@[i]).0@
            != (#[trigger] cp.channels@[j]).0@ by {
        assert(q.chans()[i].0@ != q.chans()[j].0@);
    }
}

/// Checkpoint round-trip: recovering from the record of a `Ready` queue
/// yields channels with the same names, the same last touch and the same
/// real tail, all with empty in-flight structures.
pub proof fn lemma_checkpoint_roundtrip(q: Queue, cp: QueueCheckpoint, q2: Queue)
    requires
        q.wf(),
        q.state == QueueState::Ready,
        checkpoint_rel(q, cp),
        recover_rel(Some(cp), q.backend, q2),
    ensures
        q2.state == QueueState::Ready,
        q2.chans().len() == q.chans().len(),
        forall|i: int|
            0 <= i < q.chans().len() ==> {
                let e = (#[trigger] q2.chans()[i]);
                &&& e.0@ == q.chans()[i].0@
                &&& e.1.last_touched == q.chans()[i].1.last_touched
                &&& e.1.real_tail_spec() == q.chans()[i].1.real_tail_spec()
                &&& e.1.flights().len() == 0
            },
{
}

/// Minimum real tail across the channel table; 0 (collect nothing) if the
/// table is empty.
pub open spec fn smallest_tail_spec(chs: Seq<(String, Channel)>) -> u64
    decreases chs.len(),
{
    if chs.len() == 0 {
        0
    } else {
        let c = chs[0].1.real_tail_spec();
        if chs.len() == 1 {
            c
        } else {
            let rest = smallest_tail_spec(chs.skip(1));
            if c < rest {
                c
            } else {
                rest
            }
        }
    }
}

proof fn lemma_smallest_tail_le(chs: Seq<(String, Channel)>)
    ensures
        forall|i: int|
            0 <= i < chs.len() ==> smallest_tail_spec(chs) <= #[trigger] chs[i].1.real_tail_spec(),
    decreases chs.len(),
{
    if chs.len() > 1 {
        lemma_smallest_tail_le(chs.skip(1));
        assert forall|i: int|
            0 <= i < chs.len() implies smallest_tail_spec(chs)
                <= #[trigger] chs[i].1.real_tail_spec() by {
            if i > 0 {
                assert(smallest_tail_spec(chs.skip(1)) <= chs.skip(1)[i - 1].1.real_tail_spec());
            }
        }
    }
}

proof fn lemma_smallest_tail_in(chs: Seq<(String, Channel)>)
    requires
        chs.len() > 0,
    ensures
        exists|i: int|
            0 <= i < chs.len() && smallest_tail_spec(chs) == #[trigger] chs[i].1.real_tail_spec(),
    decreases chs.len(),
{
    if chs.len() == 1 {
        assert(smallest_tail_spec(chs) == chs[0].1.real_tail_spec());
    } else {
        lemma_smallest_tail_in(chs.skip(1));
        let j = choose|j: int|
            0 <= j < chs.skip(1).len() && smallest_tail_spec(chs.skip(1)) == #[trigger] chs.skip(
                1,
            )[j].1.real_tail_spec();
        if chs[0].1.real_tail_spec() < smallest_tail_spec(chs.skip(1)) {
            assert(smallest_tail_spec(chs) == chs[0].1.real_tail_spec());
        } else {
            assert(smallest_tail_spec(chs) == chs.skip(1)[j].1.real_tail_spec());
            assert(smallest_tail_spec(chs) == chs[j + 1].1.real_tail_spec());
        }
    }
}

} // verus!

