use protohackers::arena::Index;
use protohackers::chat::{ChatError, ChatRoom, Client, Op, State, Submission};

fn write_text(room: &mut ChatRoom, op: Index) -> String {
    match room.op_mut(op) {
        Some(Op::Write { buffer, .. }) => buffer.clone(),
        _ => panic!("not a write"),
    }
}

/// Puts `bytes` where the kernel would, and completes the read.
fn deliver(room: &mut ChatRoom, read: Index, bytes: &[u8]) -> Vec<Submission> {
    match room.op_mut(read) {
        Some(Op::Read { buffer, .. }) => buffer[..bytes.len()].copy_from_slice(bytes),
        _ => panic!("not a read"),
    }
    let user_data = read.into_user_data();
    assert!(room.completion_fits(user_data, bytes.len() as i32));
    match room.handle_completion(user_data, bytes.len() as i32) {
        Ok(submissions) => submissions,
        Err(_) => panic!("read failed"),
    }
}

/// Accepts `fd`; gives the index of its pending read.
fn connect(room: &mut ChatRoom, accept: Index, fd: i32) -> Index {
    let submissions = match room.handle_completion(accept.into_user_data(), fd) {
        Ok(s) => s,
        Err(_) => panic!("accept failed"),
    };
    assert_eq!(submissions.len(), 2);
    match (&submissions[0], &submissions[1]) {
        (Submission::Write { client_fd: w, op: wop }, Submission::Read { client_fd: r, op: rop }) => {
            assert_eq!((*w, *r), (fd, fd));
            let (wop, rop) = (*wop, *rop);
            assert_eq!(write_text(room, wop), "Welcome to chat! What shall I call you?\n");
            match room.op_mut(rop) {
                Some(Op::Read { client_fd, buffer }) => {
                    assert_eq!(*client_fd, fd);
                    assert_eq!(buffer.len(), 1024);
                }
                _ => panic!("not a read"),
            }
            rop
        }
        _ => panic!("expected a welcome and a read"),
    }
}

fn next_read(submissions: &[Submission]) -> Index {
    match submissions.last() {
        Some(Submission::Read { op, .. }) => *op,
        _ => panic!("expected a read last"),
    }
}

fn writes(room: &mut ChatRoom, submissions: &[Submission]) -> Vec<(i32, String)> {
    let mut out = Vec::new();
    for s in submissions {
        if let Submission::Write { client_fd, op } = s {
            out.push((*client_fd, write_text(room, *op)));
        }
    }
    out.sort();
    out
}

#[test]
fn client_starts_pending_and_joins() {
    let mut client = Client::new();
    assert!(matches!(client.state, State::Pending));
    assert!(client.incoming.is_empty());
    client.join("alice".to_string());
    assert!(matches!(&client.state, State::Joined { name } if name == "alice"));
}

#[test]
fn refused_accept_is_an_error() {
    let mut room = ChatRoom::new();
    let accept = room.listen();
    match room.handle_completion(accept.into_user_data(), -24) {
        Err(ChatError::Os { code }) => assert_eq!(code, 24),
        Ok(_) => panic!("expected an error"),
    }
}

#[test]
fn chat_session() {
    let mut room = ChatRoom::new();
    let accept = room.listen();
    let alice_read = connect(&mut room, accept, 5);

    // a partial line is kept, and a new read is posted
    let subs = deliver(&mut room, alice_read, b"ali");
    assert_eq!(subs.len(), 1);
    let alice_read = next_read(&subs);
    let subs = deliver(&mut room, alice_read, b"ce  \r\n");
    assert_eq!(subs.len(), 1);
    let alice_read = next_read(&subs);

    let bob_read = connect(&mut room, accept, 6);
    let subs = deliver(&mut room, bob_read, b"bob\n");
    assert_eq!(subs.len(), 2);
    let bob_read = next_read(&subs);
    assert_eq!(writes(&mut room, &subs), vec![(5, "* bob joined the room\n".to_string())]);

    let subs = deliver(&mut room, alice_read, b"hello there\t\n");
    let alice_read = next_read(&subs);
    assert_eq!(writes(&mut room, &subs), vec![(6, "[alice]: hello there\n".to_string())]);

    let carol_read = connect(&mut room, accept, 7);
    let subs = deliver(&mut room, bob_read, b"hi all\n");
    assert_eq!(writes(&mut room, &subs), vec![(5, "[bob]: hi all\n".to_string())]);

    // a blank line is dropped and no read follows it
    let subs = deliver(&mut room, alice_read, b"   \n");
    assert!(subs.is_empty());

    // invalid UTF-8 is dropped
    let subs = deliver(&mut room, carol_read, &[0xFF, b'\n']);
    assert!(subs.is_empty());
}

#[test]
fn empty_read_changes_nothing() {
    let mut room = ChatRoom::new();
    let accept = room.listen();
    let read = connect(&mut room, accept, 9);
    let subs = deliver(&mut room, read, b"");
    assert!(subs.is_empty());
    // the read was taken out of flight: its index no longer reaches it
    assert!(room.op_mut(read).is_none());
}

#[test]
fn unknown_completion_is_ignored() {
    let mut room = ChatRoom::new();
    let accept = room.listen();
    let stale = Index { idx: 40, version: 2 };
    assert!(matches!(room.handle_completion(stale.into_user_data(), 1), Ok(s) if s.is_empty()));
    assert!(matches!(room.op_mut(accept), Some(Op::Accept)));
}

#[test]
fn welcome_lists_joined_clients() {
    let mut room = ChatRoom::new();
    let accept = room.listen();
    let a = connect(&mut room, accept, 5);
    let b = connect(&mut room, accept, 6);
    let _c = connect(&mut room, accept, 7);
    deliver(&mut room, a, b"ann\n");
    deliver(&mut room, b, b"ben\n");
    let sub = room.welcome(7);
    match sub {
        Submission::Write { client_fd: 7, op } => {
            let text = write_text(&mut room, op);
            assert!(
                text == "* The room contains: ann, ben\n" || text == "* The room contains: ben, ann\n",
                "{text}"
            );
        }
        _ => panic!("expected a write"),
    }
    let sub = room.welcome(5);
    match sub {
        Submission::Write { op, .. } => {
            assert_eq!(write_text(&mut room, op), "* The room contains: ben\n");
        }
        _ => panic!("expected a write"),
    }
}

#[test]
fn broadcast_reaches_joined_others_once() {
    let mut room = ChatRoom::new();
    let accept = room.listen();
    let a = connect(&mut room, accept, 5);
    let b = connect(&mut room, accept, 6);
    let _pending = connect(&mut room, accept, 7);
    deliver(&mut room, a, b"ann\n");
    deliver(&mut room, b, b"ben\n");
    let subs = room.broadcast("news\n".to_string(), 5);
    assert_eq!(writes(&mut room, &subs), vec![(6, "news\n".to_string())]);
    let subs = room.broadcast("all\n".to_string(), 99);
    assert_eq!(
        writes(&mut room, &subs),
        vec![(5, "all\n".to_string()), (6, "all\n".to_string())]
    );
}

#[test]
fn leaving_is_announced() {
    let mut room = ChatRoom::new();
    let accept = room.listen();
    let a = connect(&mut room, accept, 5);
    let b = connect(&mut room, accept, 6);
    deliver(&mut room, a, b"ann\n");
    deliver(&mut room, b, b"ben\n");
    let subs = match room.handle_close(0, 5) {
        Ok(s) => s,
        Err(_) => panic!("close failed"),
    };
    assert_eq!(writes(&mut room, &subs), vec![(6, "* ann has left the room".to_string())]);
    // once gone, a second close changes nothing
    assert!(matches!(room.handle_close(0, 5), Ok(s) if s.is_empty()));
    assert!(matches!(room.handle_close(-1, 6), Ok(s) if s.is_empty()));
    assert!(matches!(room.handle_write(0, 6), Ok(s) if s.is_empty()));
}

#[test]
fn extreme_result_fits_a_write_but_not_an_accept() {
    let mut room = ChatRoom::new();
    let accept = room.listen();
    assert!(!room.completion_fits(accept.into_user_data(), i32::MIN));
    let read = connect(&mut room, accept, 5);
    assert!(room.completion_fits(read.into_user_data(), i32::MIN));
    assert!(matches!(room.handle_completion(read.into_user_data(), i32::MIN), Ok(s) if s.is_empty()));
    // the accept stays in flight
    assert!(matches!(room.op_mut(accept), Some(Op::Accept)));
}

#[test]
fn read_for_unknown_client_ignores_its_length() {
    let mut room = ChatRoom::new();
    let subs = match room.handle_read(50, 42, vec![0u8; 4]) {
        Ok(s) => s,
        Err(_) => panic!("read failed"),
    };
    assert!(subs.is_empty());
}
