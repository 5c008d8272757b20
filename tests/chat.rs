use chat_rs::client::{chat_input, username_ok, Input};
use chat_rs::dispatch::{format_line, Action, Command, Dispatcher};
use chat_rs::error::{Error, ServerError};
use chat_rs::framing::{read_messages, LineBuffer};
use chat_rs::intake::{get_user, Intake, Stage, Step};
use chat_rs::poller::{Inbox, ReadOutcome};
use chat_rs::protocol::{handshake_client, hello, read_to_string, welcome, welcomed};
use chat_rs::registry::{Registry, User};

fn s(x: &str) -> String {
    x.to_string()
}

fn join_as(d: &mut Dispatcher, name: &str, stream: u64) -> Vec<Command> {
    d.dispatch(Action::NewUser { username: s(name), stream })
}

fn writes(cmds: &[Command]) -> Vec<(String, u64, String)> {
    cmds.iter()
        .filter_map(|c| match c {
            Command::Write { to, stream, text } => Some((to.clone(), *stream, text.clone())),
            _ => None,
        })
        .collect()
}

fn closes(cmds: &[Command]) -> Vec<u64> {
    cmds.iter()
        .filter_map(|c| match c {
            Command::Close { stream } => Some(*stream),
            _ => None,
        })
        .collect()
}

#[test]
fn greeting_bytes_are_fixed() {
    assert_eq!(hello(), b"Hello!".to_vec());
    assert_eq!(welcome(), b"Welcome!".to_vec());
}

#[test]
fn handshake_accepts_only_the_greeting() {
    assert!(handshake_client(b"Hello!").is_ok());
    assert!(matches!(handshake_client(b"Hello"), Err(ServerError::FailedHandshake)));
    assert!(matches!(handshake_client(b"Hello!\n"), Err(ServerError::FailedHandshake)));
    assert!(matches!(handshake_client(b"hello!"), Err(ServerError::FailedHandshake)));
    assert!(matches!(handshake_client(b""), Err(ServerError::UserShutdown)));
}

#[test]
fn client_checks_the_welcome() {
    assert!(welcomed(b"Welcome!"));
    assert!(!welcomed(b"Welcome"));
    assert!(!welcomed(b""));
}

#[test]
fn payload_decoding() {
    assert!(matches!(read_to_string(b""), Err(ServerError::UserShutdown)));
    assert!(matches!(read_to_string(&[0xff, 0xfe]), Err(ServerError::Other(_))));
    match read_to_string("héllo".as_bytes()) {
        Ok(t) => assert_eq!(t, "héllo"),
        Err(_) => panic!("valid text refused"),
    }
}

#[test]
fn error_keeps_its_message() {
    let e = Error::new(s("broken"));
    assert_eq!(e.message(), "broken");
}

#[test]
fn lines_split_on_newline() {
    let mut b = LineBuffer::new();
    assert_eq!(read_messages(&mut b, b"a\nbc\n"), vec![s("a"), s("bc")]);
    assert!(b.pending().is_empty());
}

#[test]
fn partial_line_is_held_across_reads() {
    let mut b = LineBuffer::new();
    assert!(read_messages(&mut b, b"hel").is_empty());
    assert_eq!(b.pending(), b"hel");
    assert_eq!(read_messages(&mut b, b"lo\nwor"), vec![s("hello")]);
    assert_eq!(b.pending(), b"wor");
    assert_eq!(read_messages(&mut b, b"ld\n"), vec![s("world")]);
    assert!(b.pending().is_empty());
}

#[test]
fn split_reads_match_one_read() {
    let mut two = LineBuffer::new();
    let mut got = read_messages(&mut two, b"ab\nc");
    got.extend(read_messages(&mut two, b"d\ne"));
    let mut one = LineBuffer::new();
    assert_eq!(got, read_messages(&mut one, b"ab\ncd\ne"));
    assert_eq!(got, vec![s("ab"), s("cd")]);
    assert_eq!(two.pending(), one.pending());
    assert_eq!(two.pending(), b"e");
}

#[test]
fn empty_and_invalid_lines_are_skipped() {
    let mut b = LineBuffer::new();
    let data = [b'\n', b'\n', 0xff, b'\n', b'o', b'k', b'\n'];
    assert_eq!(read_messages(&mut b, &data), vec![s("ok")]);
}

#[test]
fn name_is_the_first_line() {
    match get_user(b"alice\n") {
        Ok(n) => assert_eq!(n, "alice"),
        Err(_) => panic!("name refused"),
    }
    match get_user(b"bob") {
        Ok(n) => assert_eq!(n, "bob"),
        Err(_) => panic!("name refused"),
    }
    assert!(matches!(get_user(b""), Err(ServerError::UserShutdown)));
    assert!(matches!(get_user(&[0xff, b'\n']), Err(ServerError::Other(_))));
}

#[test]
fn registry_keeps_admission_order() {
    let mut r = Registry::new();
    r.add_user(User::new(s("a"), 1));
    r.add_user(User::new(s("b"), 2));
    r.add_user(User::new(s("c"), 3));
    assert!(r.contains(&s("b")));
    let gone = r.delete_user(&s("b")).expect("b is registered");
    assert_eq!(gone.name(), "b");
    assert_eq!(gone.stream(), 2);
    assert_eq!(r.len(), 2);
    assert_eq!(r.get(0).name(), "a");
    assert_eq!(r.get(1).name(), "c");
    assert!(r.delete_user(&s("zed")).is_none());
    assert!(!r.contains(&s("b")));
}

#[test]
fn admission_notifies_the_others() {
    let mut d = Dispatcher::new();
    assert!(join_as(&mut d, "alice", 1).is_empty());
    let cmds = join_as(&mut d, "bob", 2);
    assert_eq!(writes(&cmds), vec![(s("alice"), 1, s("bob joined the chat\n"))]);
    assert_eq!(d.users().len(), 2);
}

#[test]
fn duplicate_name_is_closed() {
    let mut d = Dispatcher::new();
    join_as(&mut d, "alice", 1);
    let cmds = join_as(&mut d, "alice", 9);
    assert_eq!(closes(&cmds), vec![9]);
    assert!(writes(&cmds).is_empty());
    assert_eq!(d.users().len(), 1);
    assert_eq!(d.users().get(0).stream(), 1);
}

#[test]
fn broadcast_skips_the_sender() {
    let mut d = Dispatcher::new();
    join_as(&mut d, "alice", 1);
    join_as(&mut d, "bob", 2);
    join_as(&mut d, "carol", 3);
    let cmds = d.dispatch(Action::Broadcast { username: s("bob"), message: s("yo") });
    assert_eq!(
        writes(&cmds),
        vec![(s("alice"), 1, s("bob: yo\n")), (s("carol"), 3, s("bob: yo\n"))]
    );
}

#[test]
fn chat_line_format() {
    assert_eq!(format_line(&s("alice"), &s("hi")), "alice: hi\n");
    assert_eq!(format_line(&s(""), &s("")), ": \n");
}

#[test]
fn departure_closes_and_stops_writes() {
    let mut d = Dispatcher::new();
    join_as(&mut d, "alice", 1);
    join_as(&mut d, "bob", 2);
    let cmds = d.dispatch(Action::Goodbye(s("bob")));
    assert_eq!(closes(&cmds), vec![2]);
    let cmds = d.dispatch(Action::Broadcast { username: s("alice"), message: s("x") });
    assert!(writes(&cmds).is_empty());
    assert!(d.dispatch(Action::Goodbye(s("bob"))).is_empty());
}

#[test]
fn dropped_user_is_removed() {
    let mut d = Dispatcher::new();
    join_as(&mut d, "alice", 1);
    join_as(&mut d, "bob", 2);
    let cmds = d.dispatch(Action::Dropped(s("alice")));
    assert_eq!(closes(&cmds), vec![1]);
    assert_eq!(d.users().len(), 1);
    assert_eq!(d.users().get(0).name(), "bob");
}

#[test]
fn departures_apply_in_arrival_order() {
    let mut d = Dispatcher::new();
    for (n, c) in [("a", 1), ("b", 2), ("c", 3), ("e", 4)] {
        join_as(&mut d, n, c);
    }
    let cmds = d.dispatch_all(vec![
        Action::Dropped(s("c")),
        Action::Goodbye(s("a")),
        Action::Broadcast { username: s("e"), message: s("m") },
        Action::Goodbye(s("e")),
    ]);
    assert_eq!(closes(&cmds), vec![3, 1, 4]);
    assert_eq!(writes(&cmds), vec![(s("b"), 2, s("e: m\n"))]);
    assert_eq!(d.users().len(), 1);
}

#[test]
fn shutdown_closes_every_connection() {
    let mut d = Dispatcher::new();
    join_as(&mut d, "alice", 1);
    join_as(&mut d, "bob", 2);
    let cmds = d.dispatch(Action::Shutdown);
    assert_eq!(closes(&cmds), vec![1, 2]);
    assert!(matches!(cmds.last(), Some(Command::Stop)));
    assert!(!d.is_running());
    assert_eq!(d.users().len(), 0);
    assert!(join_as(&mut d, "carol", 3).is_empty());
    assert!(d.dispatch(Action::Broadcast { username: s("x"), message: s("y") }).is_empty());
}

#[test]
fn bad_greeting_is_rejected_before_the_name() {
    let mut i = Intake::new(7);
    assert!(matches!(i.receive(b"Hi!"), Step::Reject));
    assert!(i.stage() == Stage::Rejected);
    assert!(matches!(i.receive(b"alice\n"), Step::Ignore));
    assert!(i.stage() == Stage::Rejected);
}

#[test]
fn good_greeting_then_name_admits() {
    let mut i = Intake::new(7);
    match i.receive(b"Hello!") {
        Step::Reply(b) => assert_eq!(b, b"Welcome!".to_vec()),
        _ => panic!("greeting not answered"),
    }
    assert!(i.stage() == Stage::AwaitName);
    match i.receive(b"alice\n") {
        Step::Admit(Action::NewUser { username, stream }) => {
            assert_eq!(username, "alice");
            assert_eq!(stream, 7);
        }
        _ => panic!("not admitted"),
    }
    assert!(i.stage() == Stage::Admitted);
    assert!(matches!(i.receive(b"more"), Step::Ignore));
}

#[test]
fn zero_byte_read_departs_once() {
    let mut inbox = Inbox::new();
    let name = s("alice");
    let a = inbox.on_read(&name, ReadOutcome::Closed);
    assert_eq!(a.len(), 1);
    assert!(matches!(&a[0], Action::Goodbye(n) if n == "alice"));
    assert!(!inbox.is_open());
    assert!(inbox.on_read(&name, ReadOutcome::Closed).is_empty());
    assert!(inbox.on_read(&name, ReadOutcome::Data(b"hi\n".to_vec())).is_empty());
}

#[test]
fn broken_pipe_departs_and_idle_is_quiet() {
    let mut inbox = Inbox::new();
    let name = s("bob");
    assert!(inbox.on_read(&name, ReadOutcome::Idle).is_empty());
    assert!(inbox.on_read(&name, ReadOutcome::Failed).is_empty());
    assert!(inbox.is_open());
    let a = inbox.on_read(&name, ReadOutcome::BrokenPipe);
    assert!(matches!(&a[..], [Action::Goodbye(n)] if n == "bob"));
}

#[test]
fn data_becomes_broadcasts_in_order() {
    let mut inbox = Inbox::new();
    let name = s("alice");
    let a = inbox.on_read(&name, ReadOutcome::Data(b"one\ntwo\nthr".to_vec()));
    let texts: Vec<(String, String)> = a
        .iter()
        .map(|x| match x {
            Action::Broadcast { username, message } => (username.clone(), message.clone()),
            _ => panic!("not a broadcast"),
        })
        .collect();
    assert_eq!(texts, vec![(s("alice"), s("one")), (s("alice"), s("two"))]);
    let b = inbox.on_read(&name, ReadOutcome::Data(b"ee\n".to_vec()));
    assert!(matches!(&b[..], [Action::Broadcast { message, .. }] if message == "three"));
}

#[test]
fn alice_hi_reaches_bob_once() {
    let mut d = Dispatcher::new();
    join_as(&mut d, "alice", 1);
    join_as(&mut d, "bob", 2);
    let mut inbox = Inbox::new();
    let mut cmds = Vec::new();
    for a in inbox.on_read(&s("alice"), ReadOutcome::Data(b"hi\n".to_vec())) {
        cmds.extend(d.dispatch(a));
    }
    assert_eq!(writes(&cmds), vec![(s("bob"), 2, s("alice: hi\n"))]);
}

#[test]
fn end_to_end_alice_and_bob() {
    let mut d = Dispatcher::new();
    let mut inbound: Vec<(u64, Vec<u8>)> = Vec::new();
    for (stream, name) in [(1u64, "alice"), (2u64, "bob")] {
        let mut i = Intake::new(stream);
        match i.receive(b"Hello!") {
            Step::Reply(b) => inbound.push((stream, b)),
            _ => panic!("greeting refused"),
        }
        let line = format!("{}\n", name);
        match i.receive(line.as_bytes()) {
            Step::Admit(a) => {
                for c in d.dispatch(a) {
                    if let Command::Write { stream, text, .. } = c {
                        inbound.push((stream, text.into_bytes()));
                    }
                }
            }
            _ => panic!("not admitted"),
        }
    }
    let mut inbox = Inbox::new();
    for a in inbox.on_read(&s("alice"), ReadOutcome::Data(b"hi\n".to_vec())) {
        for c in d.dispatch(a) {
            if let Command::Write { stream, text, .. } = c {
                inbound.push((stream, text.into_bytes()));
            }
        }
    }
    let to_alice: Vec<u8> = inbound.iter().filter(|x| x.0 == 1).flat_map(|x| x.1.clone()).collect();
    let to_bob: Vec<u8> = inbound.iter().filter(|x| x.0 == 2).flat_map(|x| x.1.clone()).collect();
    assert_eq!(to_bob, b"Welcome!alice: hi\n".to_vec());
    assert_eq!(to_alice, b"Welcome!bob joined the chat\n".to_vec());
    assert!(!String::from_utf8(to_alice).unwrap().contains("alice: hi"));
}

#[test]
fn client_name_length_rule() {
    assert!(username_ok("alice"));
    assert!(username_ok("fifteen_chars__"));
    assert!(!username_ok("abcd"));
    assert!(!username_ok("sixteen_chars___"));
    assert!(!username_ok(""));
}

#[test]
fn client_input_decisions() {
    assert!(matches!(chat_input(&s("/exit")), Input::Exit));
    assert!(matches!(chat_input(&s("")), Input::Skip));
    match chat_input(&s("hi there")) {
        Input::Send(t) => assert_eq!(t, "hi there\n"),
        _ => panic!("not sent"),
    }
    assert!(matches!(chat_input(&s("/exit ")), Input::Send(_)));
}
