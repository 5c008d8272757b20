//! The acceptor's decisions for one new connection: the greeting, then the
//! name line, then admission. A connection whose greeting is wrong is rejected
//! before any name is read, and is never admitted.
use vstd::prelude::*;
use vstd::utf8::{decode_utf8, valid_utf8};

use crate::dispatch::{Action, Event};
use crate::error::{Error, ServerError};
use crate::protocol::{decode_text, handshake_client, hello_bytes, welcome, welcome_bytes, NEWLINE};

verus! {

/// The bytes of `p` before its first newline (all of `p` where it has none).
pub open spec fn first_line(p: Seq<u8>) -> Seq<u8>
    decreases p.len(),
{
    if p.len() == 0 || p[0] == NEWLINE {
        seq![]
    } else {
        seq![p[0]] + first_line(p.drop_first())
    }
}

/// Reads a display name from the payload that follows the greeting: the text
/// of its first line, taken as it is.
pub fn get_user(payload: &[u8]) -> (r: Result<String, ServerError>)
    ensures
        payload@.len() == 0 ==> r matches Err(ServerError::UserShutdown),
        payload@.len() != 0 && !valid_utf8(first_line(payload@)) ==> r matches Err(
            ServerError::Other(_),
        ),
        r is Ok <==> payload@.len() != 0 && valid_utf8(first_line(payload@)),
        r is Ok ==> r->Ok_0@ == decode_utf8(first_line(payload@)),
{
    if payload.len() == 0 {
        return Err(ServerError::UserShutdown);
    }
    let mut line: Vec<u8> = Vec::new();
    let mut k: usize = 0;
    assert(payload@.skip(0) =~= payload@);
    while k < payload.len() && payload[k] != NEWLINE
        invariant
            0 <= k <= payload@.len(),
            line@ == payload@.take(k as int),
            first_line(payload@) == line@ + first_line(payload@.skip(k as int)),
        decreases payload@.len() - k,
    {
        let ghost rest = payload@.skip(k as int);
        assert(rest.drop_first() =~= payload@.skip(k + 1));
        line.push(payload[k]);
        k = k + 1;
        assert(line@ =~= payload@.take(k as int));
        assert(first_line(payload@) =~= line@ + first_line(payload@.skip(k as int)));
    }
    assert(first_line(payload@.skip(k as int)) =~= Seq::<u8>::empty());
    assert(line@ =~= first_line(payload@));
    match decode_text(line.as_slice()) {
        Some(name) => Ok(name),
        None => Err(ServerError::Other(Error::new(String::from_str("name is not valid UTF-8")))),
    }
}

/// How far a new connection has come.
#[derive(PartialEq, Eq, Structural, Clone, Copy)]
pub enum Stage {
    /// Waiting for the greeting.
    AwaitHello,
    /// Greeted; waiting for the name line.
    AwaitName,
    /// Admission was published.
    Admitted,
    /// Rejected; the connection is to be closed.
    Rejected,
}

/// What the acceptor does after a payload.
pub enum Step {
    /// Send these bytes back.
    Reply(Vec<u8>),
    /// Publish this admission event.
    Admit(Action),
    /// Close the connection; nothing is published.
    Reject,
    /// The connection is past its intake; nothing to do.
    Ignore,
}

/// A step as plain values.
pub enum StepView {
    Reply(Seq<u8>),
    Admit(Event),
    Reject,
    Ignore,
}

impl View for Step {
    type V = StepView;

    open spec fn view(&self) -> StepView {
        match self {
            Step::Reply(b) => StepView::Reply(b@),
            Step::Admit(a) => StepView::Admit(a@),
            Step::Reject => StepView::Reject,
            Step::Ignore => StepView::Ignore,
        }
    }
}

/// What one payload does to a connection at `stage`, and the step it gives.
pub open spec fn intake_step(stage: Stage, stream: u64, payload: Seq<u8>) -> (Stage, StepView) {
    match stage {
        Stage::AwaitHello => {
            if payload == hello_bytes() {
                (Stage::AwaitName, StepView::Reply(welcome_bytes()))
            } else {
                (Stage::Rejected, StepView::Reject)
            }
        },
        Stage::AwaitName => {
            if payload.len() != 0 && valid_utf8(first_line(payload)) {
                (
                    Stage::Admitted,
                    StepView::Admit(Event::Admit(decode_utf8(first_line(payload)), stream)),
                )
            } else {
                (Stage::Rejected, StepView::Reject)
            }
        },
        _ => (stage, StepView::Ignore),
    }
}

/// The steps that the payloads `ps`, taken in order, give from `stage`, and
/// the stage they end in.
pub open spec fn intake_run(stage: Stage, stream: u64, ps: Seq<Seq<u8>>) -> (Stage, Seq<StepView>)
    decreases ps.len(),
{
    if ps.len() == 0 {
        (stage, seq![])
    } else {
        let (mid, first) = intake_run(stage, stream, ps.drop_last());
        let (fin, last) = intake_step(mid, stream, ps.last());
        (fin, first.push(last))
    }
}

/// A connection whose first payload is not exactly the greeting is rejected
/// on that payload, before any name is read, and none of the payloads that
/// follow admits it.
pub proof fn lemma_bad_greeting_never_admitted(stream: u64, ps: Seq<Seq<u8>>)
    requires
        ps.len() > 0,
        ps[0] != hello_bytes(),
    ensures
        intake_run(Stage::AwaitHello, stream, ps).1[0] == StepView::Reject,
        intake_run(Stage::AwaitHello, stream, ps).0 == Stage::Rejected,
        intake_run(Stage::AwaitHello, stream, ps).1.len() == ps.len(),
        forall|i: int|
            0 <= i < ps.len() ==> !(#[trigger] intake_run(Stage::AwaitHello, stream, ps).1[i] is Admit),
    decreases ps.len(),
{
    let front = ps.drop_last();
    if ps.len() == 1 {
        assert(intake_run(Stage::AwaitHello, stream, front) == (Stage::AwaitHello, Seq::<StepView>::empty()));
        assert(ps.last() == ps[0]);
    } else {
        assert(front[0] == ps[0]);
        lemma_bad_greeting_never_admitted(stream, front);
        let steps = intake_run(Stage::AwaitHello, stream, ps).1;
        let before = intake_run(Stage::AwaitHello, stream, front).1;
        assert(steps == before.push(StepView::Ignore));
        assert forall|i: int| 0 <= i < ps.len() implies !(#[trigger] steps[i] is Admit) by {
            if i < front.len() {
                assert(steps[i] == before[i]);
            }
        }
    }
}

/// A new connection on its way to admission.
pub struct Intake {
    stage: Stage,
    stream: u64,
}

impl View for Intake {
    type V = (Stage, u64);

    closed spec fn view(&self) -> (Stage, u64) {
        (self.stage, self.stream)
    }
}

impl Intake {
    /// A connection, known by `stream`, that has sent nothing yet.
    pub fn new(stream: u64) -> (r: Intake)
        ensures
            r@ == (Stage::AwaitHello, stream),
    {
        Intake { stage: Stage::AwaitHello, stream }
    }

    pub fn stage(&self) -> (r: Stage)
        ensures
            r == self@.0,
    {
        self.stage
    }

    /// Takes the next payload read from the connection.
    pub fn receive(&mut self, payload: &[u8]) -> (r: Step)
        ensures
            final(self)@.1 == old(self)@.1,
            (final(self)@.0, r@) == intake_step(old(self)@.0, old(self)@.1, payload@),
    {
        match self.stage {
            Stage::AwaitHello => match handshake_client(payload) {
                Ok(()) => {
                    self.stage = Stage::AwaitName;
                    Step::Reply(welcome())
                },
                Err(_) => {
                    self.stage = Stage::Rejected;
                    Step::Reject
                },
            },
            Stage::AwaitName => match get_user(payload) {
                Ok(name) => {
                    self.stage = Stage::Admitted;
                    Step::Admit(Action::NewUser { username: name, stream: self.stream })
                },
                Err(_) => {
                    self.stage = Stage::Rejected;
                    Step::Reject
                },
            },
            _ => Step::Ignore,
        }
    }
}

} // verus!
