//! The poller's decisions for one admitted connection: what the outcome of a
//! read on it means for the chat.
use vstd::prelude::*;

use crate::dispatch::{events, Action, Event};
use crate::framing::{messages_of, read_messages, split_lines, texts, LineBuffer};

verus! {

/// The outcome of one attempt to read from a connection.
pub enum ReadOutcome {
    /// Nothing to read yet: a time-out, would-block or an interrupted call.
    Idle,
    /// A zero-byte read: the peer closed the connection.
    Closed,
    /// The connection is broken (a broken-pipe class error).
    BrokenPipe,
    /// Some other error, which is logged and otherwise ignored.
    Failed,
    /// The bytes that were read.
    Data(Vec<u8>),
}

/// A read outcome as plain values.
pub enum Outcome {
    Idle,
    Closed,
    BrokenPipe,
    Failed,
    Data(Seq<u8>),
}

impl View for ReadOutcome {
    type V = Outcome;

    open spec fn view(&self) -> Outcome {
        match self {
            ReadOutcome::Idle => Outcome::Idle,
            ReadOutcome::Closed => Outcome::Closed,
            ReadOutcome::BrokenPipe => Outcome::BrokenPipe,
            ReadOutcome::Failed => Outcome::Failed,
            ReadOutcome::Data(d) => Outcome::Data(d@),
        }
    }
}

/// The broadcasts of `name` for each of `msgs`, in order.
pub open spec fn broadcasts(name: Seq<char>, msgs: Seq<Seq<char>>) -> Seq<Event> {
    msgs.map_values(|m: Seq<char>| Event::Broadcast(name, m))
}

/// The read side of a connection: the bytes held over and whether it is
/// still read. What one outcome does to it, and the events it gives.
pub open spec fn poll_step(name: Seq<char>, st: (Seq<u8>, bool), o: Outcome) -> (
    (Seq<u8>, bool),
    Seq<Event>,
) {
    if !st.1 {
        (st, seq![])
    } else {
        match o {
            Outcome::Idle => (st, seq![]),
            Outcome::Failed => (st, seq![]),
            Outcome::Closed => ((st.0, false), seq![Event::Depart(name)]),
            Outcome::BrokenPipe => ((st.0, false), seq![Event::Depart(name)]),
            Outcome::Data(d) => {
                let (lines, rest) = split_lines(st.0 + d);
                ((rest, true), broadcasts(name, messages_of(lines)))
            },
        }
    }
}

/// The state and events after the read outcomes `os`, taken in order.
pub open spec fn poll_run(name: Seq<char>, st: (Seq<u8>, bool), os: Seq<Outcome>) -> (
    (Seq<u8>, bool),
    Seq<Event>,
)
    decreases os.len(),
{
    if os.len() == 0 {
        (st, seq![])
    } else {
        let (mid, first) = poll_run(name, st, os.drop_last());
        let (fin, last) = poll_step(name, mid, os.last());
        (fin, first + last)
    }
}

/// A zero-byte read reports the departure of the connection's user exactly
/// once: that read gives one departure event for the name, the connection
/// is then read no more, and whatever outcomes follow give no event.
pub proof fn lemma_closed_departs_once(
    name: Seq<char>,
    st: (Seq<u8>, bool),
    later: Seq<Outcome>,
)
    requires
        st.1,
    ensures
        poll_step(name, st, Outcome::Closed).1 == seq![Event::Depart(name)],
        !poll_step(name, st, Outcome::Closed).0.1,
        poll_run(name, poll_step(name, st, Outcome::Closed).0, later).1 == Seq::<Event>::empty(),
{
    let closed = poll_step(name, st, Outcome::Closed).0;
    lemma_shut_stays_silent(name, closed, later);
}

/// A connection that is read no more gives no event and stays so.
proof fn lemma_shut_stays_silent(name: Seq<char>, st: (Seq<u8>, bool), os: Seq<Outcome>)
    requires
        !st.1,
    ensures
        poll_run(name, st, os) == (st, Seq::<Event>::empty()),
    decreases os.len(),
{
    if os.len() > 0 {
        lemma_shut_stays_silent(name, st, os.drop_last());
        assert(Seq::<Event>::empty() + Seq::<Event>::empty() =~= Seq::<Event>::empty());
    }
}

/// The read side of one admitted connection. Once the peer is gone it is
/// read no more, so its departure is reported once.
pub struct Inbox {
    buffer: LineBuffer,
    open: bool,
}

impl View for Inbox {
    type V = (Seq<u8>, bool);

    closed spec fn view(&self) -> (Seq<u8>, bool) {
        (self.buffer@, self.open)
    }
}

impl Inbox {
    pub fn new() -> (r: Inbox)
        ensures
            r@ == (Seq::<u8>::empty(), true),
    {
        Inbox { buffer: LineBuffer::new(), open: true }
    }

    /// Whether the connection is still to be read.
    pub fn is_open(&self) -> (r: bool)
        ensures
            r == self@.1,
    {
        self.open
    }

    /// Takes the outcome of a read on the connection of the user `name` and
    /// returns the events it gives, in stream order.
    pub fn on_read(&mut self, name: &String, outcome: ReadOutcome) -> (r: Vec<Action>)
        ensures
            (final(self)@, events(r@)) == poll_step(name@, old(self)@, outcome@),
    {
        let mut out: Vec<Action> = Vec::new();
        if !self.open {
            assert(events(out@) =~= Seq::<Event>::empty());
            return out;
        }
        match outcome {
            ReadOutcome::Idle => {},
            ReadOutcome::Failed => {},
            ReadOutcome::Closed => {
                self.open = false;
                out.push(Action::Goodbye(name.clone()));
            },
            ReadOutcome::BrokenPipe => {
                self.open = false;
                out.push(Action::Goodbye(name.clone()));
            },
            ReadOutcome::Data(data) => {
                let msgs = read_messages(&mut self.buffer, data.as_slice());
                let ghost want = broadcasts(name@, texts(msgs@));
                let mut i: usize = 0;
                while i < msgs.len()
                    invariant
                        0 <= i <= msgs@.len(),
                        want == broadcasts(name@, texts(msgs@)),
                        events(out@) == want.take(i as int),
                    decreases msgs@.len() - i,
                {
                    let ghost before = out@;
                    out.push(Action::Broadcast { username: name.clone(), message: msgs[i].clone() });
                    assert(events(out@) =~= want.take(i + 1)) by {
                        assert(events(out@) =~= events(before).push(want[i as int]));
                    };
                    i = i + 1;
                }
                assert(want.take(msgs@.len() as int) =~= want);
            },
        }
        assert(events(out@) =~= poll_step(name@, old(self)@, outcome@).1);
        out
    }
}

} // verus!
