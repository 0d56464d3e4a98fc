//! The multiplexer's bookkeeping: which streams are open, which ids this
//! side hands out, and which streams are still taking a frame in. Its owner
//! moves the frames and asks it what to do with each.
use vstd::prelude::*;
use std::collections::HashSet;
use crate::message::Flag;

verus! {

/// The multiplexer's state as plain values.
#[verifier::ext_equal]
pub struct MultiplexerView {
    /// Whether this side opened the connection.
    pub initiator: bool,
    /// The counter from which the next local stream id comes.
    pub next_id: u64,
    /// The ids of the open streams.
    pub streams: Set<u64>,
    /// Streams that took a frame and may still be busy with it, in the order
    /// the frames went to them.
    pub busy: Seq<u64>,
}

/// The id that a side hands out for counter value `next_id`: even ids for
/// the side that opened the connection, odd ids for the other.
pub open spec fn local_id(initiator: bool, next_id: u64) -> int {
    if initiator {
        next_id as int
    } else {
        next_id + 1
    }
}

/// Of the first `n` busy streams, those that are open and still pending.
pub open spec fn retained_upto(busy: Seq<u64>, pending: Seq<bool>, streams: Set<u64>, n: nat) -> Seq<u64>
    decreases n,
{
    if n == 0 {
        Seq::<u64>::empty()
    } else {
        let before = retained_upto(busy, pending, streams, (n - 1) as nat);
        if streams.contains(busy[n - 1]) && pending[n - 1] {
            before.push(busy[n - 1])
        } else {
            before
        }
    }
}

/// Each busy stream paired with whether its delivery is still pending.
pub open spec fn busy_pairs(busy: Seq<u64>, pending: Seq<bool>) -> Seq<(u64, bool)> {
    Seq::new(busy.len(), |i: int| (busy[i], pending[i]))
}

/// Whether a busy entry stays busy: its stream is open and its delivery pending.
pub open spec fn stays_busy(streams: Set<u64>) -> spec_fn((u64, bool)) -> bool {
    |p: (u64, bool)| streams.contains(p.0) && p.1
}

/// Settling keeps exactly the busy entries, in order, whose stream is open
/// and whose delivery is pending: the busy list filtered by that condition.
/// When every entry stays, the list is unchanged; when none does, it is empty.
pub proof fn lemma_retained_is_filter(busy: Seq<u64>, pending: Seq<bool>, streams: Set<u64>)
    requires
        pending.len() == busy.len(),
    ensures
        retained_upto(busy, pending, streams, busy.len()) == busy_pairs(busy, pending).filter(
            stays_busy(streams),
        ).map_values(|p: (u64, bool)| p.0),
        (forall|i: int| 0 <= i < busy.len() ==> streams.contains(#[trigger] busy[i]) && pending[i])
            ==> retained_upto(busy, pending, streams, busy.len()) == busy,
        (forall|i: int| 0 <= i < busy.len() ==> !(streams.contains(#[trigger] busy[i]) && pending[i]))
            ==> retained_upto(busy, pending, streams, busy.len()) == Seq::<u64>::empty(),
{
    lemma_retained_prefix(busy, pending, streams, busy.len());
    let pairs = busy_pairs(busy, pending);
    assert(pairs.take(busy.len() as int) =~= pairs);
}

proof fn lemma_retained_prefix(busy: Seq<u64>, pending: Seq<bool>, streams: Set<u64>, n: nat)
    requires
        pending.len() == busy.len(),
        n <= busy.len(),
    ensures
        retained_upto(busy, pending, streams, n) == busy_pairs(busy, pending).take(n as int).filter(
            stays_busy(streams),
        ).map_values(|p: (u64, bool)| p.0),
        (forall|i: int| 0 <= i < n ==> streams.contains(#[trigger] busy[i]) && pending[i])
            ==> retained_upto(busy, pending, streams, n) == busy.take(n as int),
        (forall|i: int| 0 <= i < n ==> !(streams.contains(#[trigger] busy[i]) && pending[i]))
            ==> retained_upto(busy, pending, streams, n) == Seq::<u64>::empty(),
    decreases n,
{
    let pairs = busy_pairs(busy, pending);
    let f = stays_busy(streams);
    if n == 0 {
        assert(pairs.take(0) =~= Seq::<(u64, bool)>::empty());
        assert(busy.take(0) =~= Seq::<u64>::empty());
    } else {
        lemma_retained_prefix(busy, pending, streams, (n - 1) as nat);
        let t = pairs.take(n as int);
        assert(t.drop_last() =~= pairs.take(n - 1));
        assert(t.last() == (busy[n - 1], pending[n - 1]));
        let prev = pairs.take(n - 1).filter(f);
        reveal_with_fuel(Seq::filter, 1);
        assert(t.filter(f) == (if f(t.last()) {
            prev.push(t.last())
        } else {
            prev
        }));
        if f(t.last()) {
            assert(prev.push(t.last()).map_values(|p: (u64, bool)| p.0) =~= prev.map_values(
                |p: (u64, bool)| p.0,
            ).push(busy[n - 1]));
        }
        assert(busy.take(n as int) =~= busy.take(n - 1).push(busy[n - 1]));
    }
}

/// What to do with a frame from the peer.
#[derive(Eq, PartialEq, Structural, Debug, Clone, Copy)]
pub enum Routing {
    /// Hand it to its open stream.
    Deliver,
    /// It opens a new stream, now registered: hand that stream to the user.
    Open,
    /// Drop it: its stream is not open and it opens none.
    Drop,
}

/// How handing a frame to its stream went.
#[derive(Eq, PartialEq, Structural, Debug, Clone, Copy)]
pub enum Delivery {
    /// The stream took it.
    Accepted,
    /// The stream is full; the frame is dropped.
    Full,
    /// The stream is gone.
    Closed,
}

/// The multiplexer's bookkeeping.
pub struct Multiplexer {
    initiator: bool,
    next_id: u64,
    stream_ids: HashSet<u64>,
    busy_streams: Vec<u64>,
}

impl View for Multiplexer {
    type V = MultiplexerView;

    closed spec fn view(&self) -> MultiplexerView {
        MultiplexerView {
            initiator: self.initiator,
            next_id: self.next_id,
            streams: self.stream_ids@,
            busy: self.busy_streams@,
        }
    }
}

impl Multiplexer {
    #[verifier::type_invariant]
    closed spec fn wf(self) -> bool {
        self.next_id % 2 == 0
    }

    /// A multiplexer with no streams; `initiator` says whether this side
    /// opened the connection.
    pub fn new(initiator: bool) -> (m: Multiplexer)
        ensures
            m@ == (MultiplexerView {
                initiator,
                next_id: 0,
                streams: Set::<u64>::empty(),
                busy: Seq::<u64>::empty(),
            }),
    {
        let m = Multiplexer {
            initiator,
            next_id: 0,
            stream_ids: HashSet::new(),
            busy_streams: Vec::new(),
        };
        assert(m@ =~= MultiplexerView {
            initiator,
            next_id: 0,
            streams: Set::<u64>::empty(),
            busy: Seq::<u64>::empty(),
        });
        m
    }

    /// Hands out the next local stream id and moves the counter on by two.
    pub fn next_id(&mut self) -> (id: u64)
        requires
            old(self)@.next_id <= u64::MAX - 2,
        ensures
            id == local_id(old(self)@.initiator, old(self)@.next_id),
            id % 2 == (if old(self)@.initiator {
                0int
            } else {
                1int
            }),
            final(self)@ == (MultiplexerView { next_id: (old(self)@.next_id + 2) as u64, ..old(self)@ }),
    {
        proof {
            use_type_invariant(&*self);
        }
        let id = self.next_id;
        self.next_id = self.next_id + 2;
        assert(final(self)@ =~= MultiplexerView { next_id: (old(self)@.next_id + 2) as u64, ..old(self)@ });
        if self.initiator {
            id
        } else {
            id + 1
        }
    }

    fn register(&mut self, id: u64)
        ensures
            final(self)@ == (MultiplexerView { streams: old(self)@.streams.insert(id), ..old(self)@ }),
    {
        broadcast use vstd::std_specs::hash::group_hash_axioms;

        proof {
            use_type_invariant(&*self);
        }
        let mut ids: HashSet<u64> = HashSet::new();
        std::mem::swap(&mut ids, &mut self.stream_ids);
        ids.insert(id);
        self.stream_ids = ids;
        assert(self@ =~= MultiplexerView { streams: old(self)@.streams.insert(id), ..old(self)@ });
    }

    fn unregister(&mut self, id: u64)
        ensures
            final(self)@ == (MultiplexerView { streams: old(self)@.streams.remove(id), ..old(self)@ }),
    {
        broadcast use vstd::std_specs::hash::group_hash_axioms;

        proof {
            use_type_invariant(&*self);
        }
        let mut ids: HashSet<u64> = HashSet::new();
        std::mem::swap(&mut ids, &mut self.stream_ids);
        ids.remove(&id);
        self.stream_ids = ids;
        assert(self@ =~= MultiplexerView { streams: old(self)@.streams.remove(id), ..old(self)@ });
    }

    /// Opens a stream from this side: hands out its id and registers it.
    pub fn new_stream(&mut self) -> (id: u64)
        requires
            old(self)@.next_id <= u64::MAX - 2,
        ensures
            id == local_id(old(self)@.initiator, old(self)@.next_id),
            id % 2 == (if old(self)@.initiator {
                0int
            } else {
                1int
            }),
            final(self)@ == (MultiplexerView {
                next_id: (old(self)@.next_id + 2) as u64,
                streams: old(self)@.streams.insert(id),
                ..old(self)@
            }),
    {
        proof {
            use_type_invariant(&*self);
        }
        let id = self.next_id();
        self.register(id);
        assert(self@ =~= MultiplexerView {
            next_id: (old(self)@.next_id + 2) as u64,
            streams: old(self)@.streams.insert(id),
            ..old(self)@
        });
        id
    }

    /// Decides what becomes of a frame from the peer for stream `stream_id`:
    /// an open stream gets it; a frame that opens a stream registers that
    /// stream; anything else is dropped.
    pub fn route(&mut self, stream_id: u64, flag: Flag) -> (r: Routing)
        ensures
            old(self)@.streams.contains(stream_id) ==> r == Routing::Deliver && final(self)@ == old(self)@,
            !old(self)@.streams.contains(stream_id) && flag == Flag::NewStream ==> r == Routing::Open
                && final(self)@ == (MultiplexerView {
                streams: old(self)@.streams.insert(stream_id),
                ..old(self)@
            }),
            !old(self)@.streams.contains(stream_id) && flag != Flag::NewStream ==> r == Routing::Drop
                && final(self)@ == old(self)@,
    {
        broadcast use vstd::std_specs::hash::group_hash_axioms;

        if self.stream_ids.contains(&stream_id) {
            Routing::Deliver
        } else if flag == Flag::NewStream {
            self.register(stream_id);
            Routing::Open
        } else {
            Routing::Drop
        }
    }

    /// Records how handing a frame to stream `stream_id` went: a stream that
    /// took it counts as busy, a stream that is gone is unregistered.
    pub fn delivered(&mut self, stream_id: u64, outcome: Delivery)
        ensures
            outcome == Delivery::Accepted ==> final(self)@ == (MultiplexerView {
                busy: old(self)@.busy.push(stream_id),
                ..old(self)@
            }),
            outcome == Delivery::Full ==> final(self)@ == old(self)@,
            outcome == Delivery::Closed ==> final(self)@ == (MultiplexerView {
                streams: old(self)@.streams.remove(stream_id),
                ..old(self)@
            }),
    {
        proof {
            use_type_invariant(&*self);
        }
        match outcome {
            Delivery::Accepted => {
                let mut busy: Vec<u64> = Vec::new();
                std::mem::swap(&mut busy, &mut self.busy_streams);
                busy.push(stream_id);
                self.busy_streams = busy;
                assert(self@ =~= MultiplexerView { busy: old(self)@.busy.push(stream_id), ..old(self)@ });
            },
            Delivery::Full => {},
            Delivery::Closed => {
                self.unregister(stream_id);
            },
        }
    }

    /// The transport is gone: every stream is closed.
    pub fn transport_closed(&mut self)
        ensures
            final(self)@ == (MultiplexerView { streams: Set::<u64>::empty(), ..old(self)@ }),
    {
        proof {
            use_type_invariant(&*self);
        }
        self.stream_ids = HashSet::new();
        assert(self@ =~= MultiplexerView { streams: Set::<u64>::empty(), ..old(self)@ });
    }

    /// The counter from which the next local stream id comes.
    pub fn counter(&self) -> (n: u64)
        ensures
            n == self@.next_id,
            n % 2 == 0,
    {
        proof {
            use_type_invariant(self);
        }
        self.next_id
    }

    /// Whether this side opened the connection.
    pub fn initiator(&self) -> (b: bool)
        ensures
            b == self@.initiator,
    {
        self.initiator
    }

    /// The streams that took a frame and may still be busy with it.
    pub fn busy_streams(&self) -> (r: &[u64])
        ensures
            r@ == self@.busy,
    {
        self.busy_streams.as_slice()
    }

    /// Keeps, in order, the busy streams that are still open and whose
    /// delivery is still pending; `pending[i]` says so of the `i`-th.
    pub fn settle_busy(&mut self, pending: &[bool])
        requires
            pending@.len() == old(self)@.busy.len(),
        ensures
            final(self)@ == (MultiplexerView {
                busy: retained_upto(old(self)@.busy, pending@, old(self)@.streams, old(self)@.busy.len()),
                ..old(self)@
            }),
            final(self)@.busy == busy_pairs(old(self)@.busy, pending@).filter(
                stays_busy(old(self)@.streams),
            ).map_values(|p: (u64, bool)| p.0),
    {
        broadcast use vstd::std_specs::hash::group_hash_axioms;

        proof {
            lemma_retained_is_filter(old(self)@.busy, pending@, old(self)@.streams);
        }

        proof {
            use_type_invariant(&*self);
        }
        let mut kept: Vec<u64> = Vec::new();
        let mut i: usize = 0;
        let n = self.busy_streams.len();
        while i < n
            invariant
                n == self.busy_streams@.len(),
                n == pending@.len(),
                i <= n,
                self@ == old(self)@,
                kept@ == retained_upto(self@.busy, pending@, self@.streams, i as nat),
            decreases n - i,
        {
            let id = self.busy_streams[i];
            if self.stream_ids.contains(&id) && pending[i] {
                kept.push(id);
            }
            i = i + 1;
        }
        self.busy_streams = kept;
        assert(self@ =~= MultiplexerView {
            busy: retained_upto(old(self)@.busy, pending@, old(self)@.streams, old(self)@.busy.len()),
            ..old(self)@
        });
    }
}

/// The ids one side hands out never repeat: a later counter value gives a
/// larger id, and every id has the parity of the side's role.
pub proof fn lemma_local_ids_distinct(initiator: bool, first: u64, later: u64)
    requires
        first % 2 == 0,
        later % 2 == 0,
        first < later,
    ensures
        local_id(initiator, first) < local_id(initiator, later),
        local_id(initiator, first) % 2 == (if initiator {
            0int
        } else {
            1int
        }),
{
}

} // verus!
