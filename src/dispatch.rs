//! The dispatcher: the one consumer of chat events. It applies them to the
//! registry strictly in arrival order and says which writes and closes the
//! caller must perform on the connections.
use vstd::prelude::*;

use crate::registry::{
    has_name, index_of, lemma_index_of_found, names_unique, remove_first, Registry, User,
};

verus! {

/// An event for the dispatcher.
pub enum Action {
    /// The user left: its peer closed the connection.
    Goodbye(String),
    /// A write to the user failed; it is taken out and written to no more.
    Dropped(String),
    /// A line of chat text from `username`.
    Broadcast { username: String, message: String },
    /// Stop: close every connection and take no further events.
    Shutdown,
    /// A connection completed the greeting and asked for a name. A name
    /// already in use is refused, and that connection is closed.
    NewUser { username: String, stream: u64 },
}

/// What an event carries, as plain values.
pub enum Event {
    Depart(Seq<char>),
    Dropped(Seq<char>),
    Broadcast(Seq<char>, Seq<char>),
    Shutdown,
    Admit(Seq<char>, u64),
}

impl View for Action {
    type V = Event;

    open spec fn view(&self) -> Event {
        match self {
            Action::Goodbye(n) => Event::Depart(n@),
            Action::Dropped(n) => Event::Dropped(n@),
            Action::Broadcast { username, message } => Event::Broadcast(username@, message@),
            Action::Shutdown => Event::Shutdown,
            Action::NewUser { username, stream } => Event::Admit(username@, *stream),
        }
    }
}

/// Work on a connection that the dispatcher hands to its caller.
pub enum Command {
    /// Write `text` to the connection of the user `to`. If the write fails,
    /// the caller reports `Action::Dropped(to)`.
    Write { to: String, stream: u64, text: String },
    /// Close the connection.
    Close { stream: u64 },
    /// The dispatcher has stopped.
    Stop,
}

/// What a command asks for, as plain values.
pub enum Effect {
    Write(Seq<char>, u64, Seq<char>),
    Close(u64),
    Stop,
}

impl View for Command {
    type V = Effect;

    open spec fn view(&self) -> Effect {
        match self {
            Command::Write { to, stream, text } => Effect::Write(to@, *stream, text@),
            Command::Close { stream } => Effect::Close(*stream),
            Command::Stop => Effect::Stop,
        }
    }
}

/// The views of a list of commands.
pub open spec fn effects(v: Seq<Command>) -> Seq<Effect> {
    v.map_values(|c: Command| c@)
}

/// The views of a list of events.
pub open spec fn events(v: Seq<Action>) -> Seq<Event> {
    v.map_values(|a: Action| a@)
}

/// The line a recipient gets for `text` sent by `from`: `from: text` and a newline.
pub open spec fn chat_line(from: Seq<char>, text: Seq<char>) -> Seq<char> {
    from + seq![':', ' '] + text + seq!['\n']
}

/// The notice the users get when `name` joins.
pub open spec fn join_notice(name: Seq<char>) -> Seq<char> {
    name + " joined the chat\n"@
}

/// One write of `text` to each user not named `skip`, in registry order.
pub open spec fn deliveries(users: Seq<(Seq<char>, u64)>, skip: Seq<char>, text: Seq<char>) -> Seq<
    Effect,
>
    decreases users.len(),
{
    if users.len() == 0 {
        seq![]
    } else {
        let earlier = deliveries(users.drop_last(), skip, text);
        let u = users.last();
        if u.0 == skip {
            earlier
        } else {
            earlier.push(Effect::Write(u.0, u.1, text))
        }
    }
}

/// A close of each user's connection, in registry order.
pub open spec fn closes(users: Seq<(Seq<char>, u64)>) -> Seq<Effect>
    decreases users.len(),
{
    if users.len() == 0 {
        seq![]
    } else {
        closes(users.drop_last()).push(Effect::Close(users.last().1))
    }
}

/// The state of the dispatcher: the registry, whether it still takes events,
/// and the names it has passed to the registry's remove, in order.
pub struct DispatchState {
    pub users: Seq<(Seq<char>, u64)>,
    pub running: bool,
    pub removed: Seq<Seq<char>>,
}

/// The state after `e` and the commands it gives.
pub open spec fn next(s: DispatchState, e: Event) -> (DispatchState, Seq<Effect>) {
    if !s.running {
        (s, seq![])
    } else {
        match e {
            Event::Admit(name, stream) => {
                if has_name(s.users, name) {
                    (s, seq![Effect::Close(stream)])
                } else {
                    (
                        DispatchState { users: s.users.push((name, stream)), ..s },
                        deliveries(s.users, name, join_notice(name)),
                    )
                }
            },
            Event::Depart(name) => depart(s, name),
            Event::Dropped(name) => depart(s, name),
            Event::Broadcast(from, text) => (s, deliveries(s.users, from, chat_line(from, text))),
            Event::Shutdown => (
                DispatchState { users: seq![], running: false, removed: s.removed },
                closes(s.users).push(Effect::Stop),
            ),
        }
    }
}

/// Removes the user named `name`, closing its connection.
pub open spec fn depart(s: DispatchState, name: Seq<char>) -> (DispatchState, Seq<Effect>) {
    let i = index_of(s.users, name);
    (
        DispatchState {
            users: remove_first(s.users, name),
            running: true,
            removed: s.removed.push(name),
        },
        if i >= 0 {
            seq![Effect::Close(s.users[i].1)]
        } else {
            seq![]
        },
    )
}

/// The state after the events `es`, taken in order, and all their commands.
pub open spec fn run(s: DispatchState, es: Seq<Event>) -> (DispatchState, Seq<Effect>)
    decreases es.len(),
{
    if es.len() == 0 {
        (s, seq![])
    } else {
        let (mid, first) = run(s, es.drop_last());
        let (fin, last) = next(mid, es.last());
        (fin, first + last)
    }
}

/// Whether a shutdown is among the events `es`.
pub open spec fn has_shutdown(es: Seq<Event>) -> bool {
    exists|k: int| 0 <= k < es.len() && es[k] is Shutdown
}

/// The names of the departure events of `es` (left or dropped), in arrival
/// order, up to the first shutdown.
pub open spec fn departures(es: Seq<Event>) -> Seq<Seq<char>>
    decreases es.len(),
{
    if es.len() == 0 {
        seq![]
    } else {
        let earlier = departures(es.drop_last());
        if has_shutdown(es.drop_last()) {
            earlier
        } else {
            match es.last() {
                Event::Depart(n) => earlier.push(n),
                Event::Dropped(n) => earlier.push(n),
                _ => earlier,
            }
        }
    }
}

/// Removals follow arrival: over any queue of events, the registry is asked
/// to remove exactly the names of the departure events, in the order in
/// which they arrived; after a shutdown nothing more is taken.
pub proof fn lemma_removals_in_arrival_order(s: DispatchState, es: Seq<Event>)
    requires
        s.running,
    ensures
        run(s, es).0.removed == s.removed + departures(es),
        run(s, es).0.running == !has_shutdown(es),
    decreases es.len(),
{
    if es.len() == 0 {
        assert(s.removed + departures(es) =~= s.removed);
    } else {
        let front = es.drop_last();
        lemma_removals_in_arrival_order(s, front);
        let mid = run(s, front).0;
        if has_shutdown(front) {
            let k = choose|k: int| 0 <= k < front.len() && front[k] is Shutdown;
            assert(es[k] is Shutdown);
        } else {
            assert(s.removed + departures(es) =~= s.removed + departures(front) + (match es.last() {
                Event::Depart(n) => seq![n],
                Event::Dropped(n) => seq![n],
                _ => seq![],
            }));
            if es.last() is Shutdown {
                assert(es[es.len() - 1] is Shutdown);
            } else {
                assert forall|k: int| 0 <= k < es.len() implies !(es[k] is Shutdown) by {
                    if k < front.len() {
                        assert(es[k] == front[k]);
                    }
                }
            }
        }
    }
}

/// Every write of `deliveries` goes to an entry of `users` not named `skip`,
/// and every entry not named `skip` gets one.
pub proof fn lemma_deliveries(users: Seq<(Seq<char>, u64)>, skip: Seq<char>, text: Seq<char>)
    ensures
        forall|k: int|
            0 <= k < deliveries(users, skip, text).len() ==> {
                let e = #[trigger] deliveries(users, skip, text)[k];
                exists|i: int|
                    0 <= i < users.len() && users[i].0 != skip && e == Effect::Write(
                        users[i].0,
                        users[i].1,
                        text,
                    )
            },
        forall|i: int|
            0 <= i < users.len() && users[i].0 != skip ==> deliveries(
                users,
                skip,
                text,
            ).contains(Effect::Write(#[trigger] users[i].0, users[i].1, text)),
    decreases users.len(),
{
    if users.len() > 0 {
        let front = users.drop_last();
        lemma_deliveries(front, skip, text);
        let d = deliveries(users, skip, text);
        let df = deliveries(front, skip, text);
        assert forall|k: int| 0 <= k < d.len() implies {
            let e = #[trigger] d[k];
            exists|i: int|
                0 <= i < users.len() && users[i].0 != skip && e == Effect::Write(
                    users[i].0,
                    users[i].1,
                    text,
                )
        } by {
            if k < df.len() {
                let e = df[k];
                let i = choose|i: int|
                    0 <= i < front.len() && front[i].0 != skip && e == Effect::Write(
                        front[i].0,
                        front[i].1,
                        text,
                    );
                assert(users[i] == front[i]);
            } else {
                assert(users[users.len() - 1] == users.last());
            }
        }
        assert forall|i: int| 0 <= i < users.len() && users[i].0 != skip implies d.contains(
            Effect::Write(#[trigger] users[i].0, users[i].1, text),
        ) by {
            let w = Effect::Write(users[i].0, users[i].1, text);
            if i < front.len() {
                assert(front[i] == users[i]);
                assert(df.contains(w));
                let k = choose|k: int| 0 <= k < df.len() && df[k] == w;
                assert(d[k] == w);
            } else {
                assert(d[d.len() - 1] == w);
            }
        }
    }
}

/// A broadcast reaches every user registered when it is taken, once it is
/// their name that differs from the sender's, and is never written back to
/// the sender.
pub proof fn lemma_broadcast_reaches_all_but_sender(
    s: DispatchState,
    from: Seq<char>,
    text: Seq<char>,
)
    requires
        s.running,
    ensures
        forall|i: int|
            0 <= i < s.users.len() && s.users[i].0 != from ==> next(
                s,
                Event::Broadcast(from, text),
            ).1.contains(Effect::Write(#[trigger] s.users[i].0, s.users[i].1, chat_line(from, text))),
        forall|k: int|
            0 <= k < next(s, Event::Broadcast(from, text)).1.len() ==> match #[trigger] next(
                s,
                Event::Broadcast(from, text),
            ).1[k] {
                Effect::Write(to, _, _) => to != from,
                _ => false,
            },
        next(s, Event::Broadcast(from, text)).0 == s,
{
    lemma_deliveries(s.users, from, chat_line(from, text));
    let d = deliveries(s.users, from, chat_line(from, text));
    assert forall|k: int| 0 <= k < d.len() implies match #[trigger] d[k] {
        Effect::Write(to, _, _) => to != from,
        _ => false,
    } by {
        let e = d[k];
        let i = choose|i: int|
            0 <= i < s.users.len() && s.users[i].0 != from && e == Effect::Write(
                s.users[i].0,
                s.users[i].1,
                chat_line(from, text),
            );
    }
}

/// Whether some event of `es` admits a user named `name`.
pub open spec fn admits(es: Seq<Event>, name: Seq<char>) -> bool {
    exists|k: int| 0 <= k < es.len() && (#[trigger] es[k] matches Event::Admit(n, _) && n == name)
}

/// Whether some command of `cs` writes to the user named `name`.
pub open spec fn writes_to(cs: Seq<Effect>, name: Seq<char>) -> bool {
    exists|k: int| 0 <= k < cs.len() && (#[trigger] cs[k] matches Effect::Write(to, _, _) && to == name)
}

/// From a state without `name`, events that do not let `name` in again write
/// nothing to it and leave it out of the registry.
proof fn lemma_absent_stays_unwritten(s: DispatchState, es: Seq<Event>, name: Seq<char>)
    requires
        !has_name(s.users, name),
        !admits(es, name),
    ensures
        !has_name(run(s, es).0.users, name),
        !writes_to(run(s, es).1, name),
    decreases es.len(),
{
    if es.len() > 0 {
        let front = es.drop_last();
        assert(!admits(front, name)) by {
            if admits(front, name) {
                let k = choose|k: int|
                    0 <= k < front.len() && (#[trigger] front[k] matches Event::Admit(n, _) && n == name);
                assert(es[k] == front[k]);
            }
        }
        lemma_absent_stays_unwritten(s, front, name);
        let (mid, first) = run(s, front);
        let (fin, last) = next(mid, es.last());
        let e = es.last();
        assert(!(e matches Event::Admit(n, _) && n == name)) by {
            assert(es[es.len() - 1] == e);
        }
        // The registry after the last event still lacks `name`.
        if mid.running {
            match e {
                Event::Admit(n, c) => {
                    if !has_name(mid.users, n) {
                        let u2 = mid.users.push((n, c));
                        if has_name(u2, name) {
                            let i = choose|i: int| 0 <= i < u2.len() && u2[i].0 == name;
                            if i < mid.users.len() {
                                assert(mid.users[i] == u2[i]);
                            }
                        }
                    }
                    lemma_deliveries(mid.users, n, join_notice(n));
                },
                Event::Depart(n) => {
                    lemma_index_of_found(mid.users, n);
                    lemma_remove_keeps_absent(mid.users, n, name);
                },
                Event::Dropped(n) => {
                    lemma_index_of_found(mid.users, n);
                    lemma_remove_keeps_absent(mid.users, n, name);
                },
                Event::Broadcast(f, t) => {
                    lemma_deliveries(mid.users, f, chat_line(f, t));
                },
                Event::Shutdown => {
                    lemma_closes(mid.users);
                },
            }
        }
        // No command of the last event writes to `name`.
        assert(!writes_to(last, name)) by {
            if writes_to(last, name) {
                let k = choose|k: int|
                    0 <= k < last.len() && (#[trigger] last[k] matches Effect::Write(to, _, _) && to == name);
                match e {
                    Event::Admit(n, c) => {
                        let i = choose|i: int|
                            0 <= i < mid.users.len() && mid.users[i].0 != n && last[k]
                                == Effect::Write(mid.users[i].0, mid.users[i].1, join_notice(n));
                    },
                    Event::Broadcast(f, t) => {
                        let i = choose|i: int|
                            0 <= i < mid.users.len() && mid.users[i].0 != f && last[k]
                                == Effect::Write(mid.users[i].0, mid.users[i].1, chat_line(f, t));
                    },
                    _ => {},
                }
            }
        }
        let all = first + last;
        assert(!writes_to(all, name)) by {
            if writes_to(all, name) {
                let k = choose|k: int|
                    0 <= k < all.len() && (#[trigger] all[k] matches Effect::Write(to, _, _) && to == name);
                if k < first.len() {
                    assert(all[k] == first[k]);
                } else {
                    assert(all[k] == last[k - first.len()]);
                }
            }
        }
    }
}

/// Closing every connection writes nothing.
proof fn lemma_closes(users: Seq<(Seq<char>, u64)>)
    ensures
        forall|k: int| 0 <= k < closes(users).len() ==> #[trigger] closes(users)[k] is Close,
    decreases users.len(),
{
    if users.len() > 0 {
        lemma_closes(users.drop_last());
    }
}

/// Taking out an entry leaves a name that was absent still absent.
proof fn lemma_remove_keeps_absent(
    users: Seq<(Seq<char>, u64)>,
    gone: Seq<char>,
    name: Seq<char>,
)
    requires
        !has_name(users, name),
    ensures
        !has_name(remove_first(users, gone), name),
{
    lemma_index_of_found(users, gone);
    let i = index_of(users, gone);
    if i >= 0 {
        let r = users.remove(i);
        if has_name(r, name) {
            let j = choose|j: int| 0 <= j < r.len() && r[j].0 == name;
            if j < i {
                assert(r[j] == users[j]);
            } else {
                assert(r[j] == users[j + 1]);
            }
        }
    }
}

/// A departed user is written to no more: once its departure is applied,
/// the events that follow write nothing to it, until a user of that name is
/// admitted again.
pub proof fn lemma_departed_gets_no_writes(s: DispatchState, name: Seq<char>, later: Seq<Event>)
    requires
        s.running,
        names_unique(s.users),
        !admits(later, name),
    ensures
        !writes_to(run(next(s, Event::Depart(name)).0, later).1, name),
{
    lemma_index_of_found(s.users, name);
    let s2 = next(s, Event::Depart(name)).0;
    let i = index_of(s.users, name);
    assert(!has_name(s2.users, name)) by {
        if i >= 0 {
            let r = s.users.remove(i);
            if has_name(r, name) {
                let j = choose|j: int| 0 <= j < r.len() && r[j].0 == name;
                if j < i {
                    assert(r[j] == s.users[j]);
                } else {
                    assert(r[j] == s.users[j + 1]);
                }
            }
        }
    }
    lemma_absent_stays_unwritten(s2, later, name);
}

/// Builds `from: text` and a newline.
pub fn format_line(from: &String, text: &String) -> (r: String)
    ensures
        r@ == chat_line(from@, text@),
{
    let mut r = from.clone();
    r.append(": ");
    r.append(text.as_str());
    r.append("\n");
    proof {
        reveal_strlit(": ");
        reveal_strlit("\n");
    }
    assert(r@ =~= chat_line(from@, text@));
    r
}

/// Builds the notice that `name` joined.
fn format_join(name: &String) -> (r: String)
    ensures
        r@ == join_notice(name@),
{
    let mut r = name.clone();
    r.append(" joined the chat\n");
    r
}

/// Taking an entry out keeps the names unique.
proof fn lemma_remove_keeps_unique(users: Seq<(Seq<char>, u64)>, i: int)
    requires
        names_unique(users),
        0 <= i < users.len(),
    ensures
        names_unique(users.remove(i)),
{
    let r = users.remove(i);
    assert forall|a: int, b: int| 0 <= a < r.len() && 0 <= b < r.len() && a != b implies r[a].0
        != r[b].0 by {
        let a2 = if a < i { a } else { a + 1 };
        let b2 = if b < i { b } else { b + 1 };
        assert(r[a] == users[a2]);
        assert(r[b] == users[b2]);
    }
}

/// The single consumer of events, the only one that changes the registry.
pub struct Dispatcher {
    users: Registry,
    running: bool,
    removed: Ghost<Seq<Seq<char>>>,
}

impl View for Dispatcher {
    type V = DispatchState;

    closed spec fn view(&self) -> DispatchState {
        DispatchState { users: self.users@, running: self.running, removed: self.removed@ }
    }
}

impl Dispatcher {
    /// The dispatcher's invariant: no two users share a name.
    pub open spec fn wf(&self) -> bool {
        names_unique(self@.users)
    }

    pub fn new() -> (r: Dispatcher)
        ensures
            r.wf(),
            r@ == (DispatchState { users: seq![], running: true, removed: seq![] }),
    {
        Dispatcher { users: Registry::new(), running: true, removed: Ghost(Seq::empty()) }
    }

    /// The registry, to be read.
    pub fn users(&self) -> (r: &Registry)
        ensures
            r@ == self@.users,
    {
        &self.users
    }

    /// Whether the dispatcher still takes events.
    pub fn is_running(&self) -> (r: bool)
        ensures
            r == self@.running,
    {
        self.running
    }

    /// One write of `text` to every user not named `skip`.
    fn deliver(&self, skip: &String, text: &String) -> (r: Vec<Command>)
        ensures
            effects(r@) == deliveries(self@.users, skip@, text@),
    {
        let mut out: Vec<Command> = Vec::new();
        let n = self.users.len();
        let mut i: usize = 0;
        assert(self@.users.take(0) =~= Seq::<(Seq<char>, u64)>::empty());
        while i < n
            invariant
                n == self@.users.len(),
                0 <= i <= n,
                effects(out@) == deliveries(self@.users.take(i as int), skip@, text@),
            decreases n - i,
        {
            let u = self.users.get(i);
            assert(self@.users.take(i + 1).drop_last() =~= self@.users.take(i as int));
            let same: bool = *u.name() == *skip;
            if !same {
                let ghost before = out@;
                out.push(Command::Write { to: u.name().clone(), stream: u.stream(), text: text.clone() });
                assert(effects(out@) =~= effects(before).push(Effect::Write(u@.0, u@.1, text@)));
            }
            i = i + 1;
        }
        assert(self@.users.take(n as int) =~= self@.users);
        out
    }

    /// A close of every user's connection.
    fn close_all(&self) -> (r: Vec<Command>)
        ensures
            effects(r@) == closes(self@.users),
    {
        let mut out: Vec<Command> = Vec::new();
        let n = self.users.len();
        let mut i: usize = 0;
        assert(self@.users.take(0) =~= Seq::<(Seq<char>, u64)>::empty());
        while i < n
            invariant
                n == self@.users.len(),
                0 <= i <= n,
                effects(out@) == closes(self@.users.take(i as int)),
            decreases n - i,
        {
            let u = self.users.get(i);
            assert(self@.users.take(i + 1).drop_last() =~= self@.users.take(i as int));
            let ghost before = out@;
            out.push(Command::Close { stream: u.stream() });
            assert(effects(out@) =~= effects(before).push(Effect::Close(u@.1)));
            i = i + 1;
        }
        assert(self@.users.take(n as int) =~= self@.users);
        out
    }

    /// Removes the user named `name` and closes its connection.
    fn delete_user(&mut self, name: String) -> (r: Vec<Command>)
        requires
            old(self).wf(),
            old(self)@.running,
        ensures
            final(self).wf(),
            (final(self)@, effects(r@)) == depart(old(self)@, name@),
    {
        proof {
            lemma_index_of_found(self@.users, name@);
        }
        let mut out: Vec<Command> = Vec::new();
        match self.users.delete_user(&name) {
            Some(user) => {
                proof {
                    lemma_remove_keeps_unique(old(self)@.users, index_of(old(self)@.users, name@));
                }
                out.push(Command::Close { stream: user.stream() });
            },
            None => {},
        }
        self.removed = Ghost(self.removed@.push(name@));
        assert(effects(out@) =~= depart(old(self)@, name@).1);
        out
    }

    /// Applies one event and returns the work it gives on the connections.
    pub fn dispatch(&mut self, action: Action) -> (r: Vec<Command>)
        requires
            old(self).wf(),
        ensures
            final(self).wf(),
            (final(self)@, effects(r@)) == next(old(self)@, action@),
    {
        if !self.running {
            let r: Vec<Command> = Vec::new();
            assert(effects(r@) =~= Seq::<Effect>::empty());
            return r;
        }
        match action {
            Action::NewUser { username, stream } => {
                if self.users.contains(&username) {
                    let r: Vec<Command> = vec![Command::Close { stream }];
                    assert(effects(r@) =~= seq![Effect::Close(stream)]);
                    r
                } else {
                    let notice = format_join(&username);
                    let r = self.deliver(&username, &notice);
                    let ghost u = username@;
                    self.users.add_user(User::new(username, stream));
                    assert(names_unique(self@.users)) by {
                        assert(!has_name(old(self)@.users, u));
                        assert(self@.users == old(self)@.users.push((u, stream)));
                        assert forall|i: int| 0 <= i < old(self)@.users.len() implies #[trigger] old(
                            self,
                        )@.users[i].0 != u by {};
                    }
                    assert(self@ == next(old(self)@, action@).0);
                    r
                }
            },
            Action::Goodbye(name) => self.delete_user(name),
            Action::Dropped(name) => self.delete_user(name),
            Action::Broadcast { username, message } => {
                let line = format_line(&username, &message);
                self.deliver(&username, &line)
            },
            Action::Shutdown => {
                let mut r = self.close_all();
                let ghost before = r@;
                r.push(Command::Stop);
                assert(effects(r@) =~= effects(before).push(Effect::Stop));
                self.users = Registry::new();
                self.running = false;
                assert(self@.users =~= seq![]);
                r
            },
        }
    }

    /// Applies the events of a queue in order and returns all their work.
    pub fn dispatch_all(&mut self, actions: Vec<Action>) -> (r: Vec<Command>)
        requires
            old(self).wf(),
        ensures
            final(self).wf(),
            (final(self)@, effects(r@)) == run(old(self)@, events(actions@)),
    {
        let mut out: Vec<Command> = Vec::new();
        let mut queue = actions;
        let ghost all = events(queue@);
        let ghost mut done: Seq<Event> = seq![];
        while queue.len() > 0
            invariant
                self.wf(),
                all == done + events(queue@),
                (self@, effects(out@)) == run(old(self)@, done),
            decreases queue@.len(),
        {
            let action = queue.remove(0);
            let ghost e = action@;
            let mut more = self.dispatch(action);
            let ghost before = out@;
            out.append(&mut more);
            proof {
                let d2 = done.push(e);
                assert(d2.drop_last() =~= done);
                assert(effects(out@) =~= effects(before) + run(old(self)@, d2).1.subrange(
                    effects(before).len() as int,
                    run(old(self)@, d2).1.len() as int,
                ));
                done = d2;
                assert(all =~= done + events(queue@));
            }
        }
        assert(done =~= all);
        out
    }
}

} // verus!
