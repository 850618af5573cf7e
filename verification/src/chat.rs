//! The decisions of a line-based chat server driven by completion events:
//! which operations are in flight (kept in an arena whose indices travel with
//! the kernel's completions), which clients are connected and named, and what
//! each completion makes the server send next.
use std::collections::HashMap;
use vstd::prelude::*;
use vstd::std_specs::iter::IteratorSpec;

use vstd::string::StringExecFns;
use vstd::slice::slice_subrange;
use vstd::slice::slice_to_vec;
use vstd::utf8::decode_utf8;
use vstd::utf8::valid_utf8;

use crate::arena::index_of;
use crate::arena::Arena;
use crate::arena::ArenaModel;
use crate::arena::Index;
use crate::text::find_byte;
use crate::text::str_from_utf8;
use crate::text::trim_end;
use crate::text::trim_end_chars;

verus! {

broadcast use vstd::std_specs::hash::group_hash_axioms;

/// An operation handed to the kernel, owning what the kernel reads or writes.
#[allow(inconsistent_fields)]
pub enum Op {
    Accept,
    Read { client_fd: i32, buffer: Vec<u8> },
    Write { client_fd: i32, buffer: String },
    Close { client_fd: i32 },
}

pub enum State {
    Pending,
    Joined { name: String },
}

pub struct Client {
    pub state: State,
    pub incoming: Vec<u8>,
}

impl Client {
    pub fn new() -> (client: Self)
        ensures
            client.state is Pending,
            client.incoming@ == Seq::<u8>::empty(),
    {
        Client { state: State::Pending, incoming: Vec::new() }
    }

    pub fn join(&mut self, name: String)
        ensures
            final(self).state == (State::Joined { name }),
            final(self).incoming@ == old(self).incoming@,
    {
        self.state = State::Joined { name }
    }
}

/// An operation to submit to the kernel: the operation's arena index, which
/// travels as the submission's user data, and the client it concerns.
pub enum Submission {
    Write { client_fd: i32, op: Index },
    Read { client_fd: i32, op: Index },
}

impl Submission {
    pub open spec fn op(self) -> Index {
        match self {
            Submission::Write { op, .. } => op,
            Submission::Read { op, .. } => op,
        }
    }

    pub open spec fn fd(self) -> i32 {
        match self {
            Submission::Write { client_fd, .. } => client_fd,
            Submission::Read { client_fd, .. } => client_fd,
        }
    }
}

/// The model of a chat room: the operations in flight and the clients by
/// file descriptor.
#[verifier::ext_equal]
pub struct ChatRoomView {
    pub ops: ArenaModel<Op>,
    pub clients: Map<i32, Client>,
}

/// What a new client is sent first.
pub const WELCOME_MESSAGE: &'static str = "Welcome to chat! What shall I call you?\n";

/// The size of the buffer each read operation fills.
pub const READ_BUFFER_SIZE: usize = 1024;

/// The byte that ends a line.
pub const NEWLINE: u8 = 10;

/// Why the server stops: the kernel refused to accept a connection.
pub enum ChatError {
    Os { code: i32 },
}

/// What a client's message turns into for the others: `[name]: message` for
/// a joined client, `* message joined the room` for a pending one.
pub open spec fn announcement(state: State, message: Seq<char>) -> Seq<char> {
    match state {
        State::Joined { name } => "["@ + name@ + "]: "@ + message + "\n"@,
        State::Pending => "* "@ + message + " joined the room\n"@,
    }
}

/// The submissions of an outcome, as a sequence.
pub open spec fn outcome_view(outcome: Result<Vec<Submission>, ChatError>) -> Result<
    Seq<Submission>,
    ChatError,
> {
    match outcome {
        Ok(submissions) => Ok(submissions@),
        Err(e) => Err(e),
    }
}

/// `text` went to the recipients of `sender`, each once, in some order: a
/// write operation each, inserted in that order.
pub open spec fn broadcast_done(
    ops: ArenaModel<Op>,
    clients: Map<i32, Client>,
    sender: i32,
    text: Seq<char>,
    post_ops: ArenaModel<Op>,
    submissions: Seq<Submission>,
) -> bool {
    let fds = fds_of(submissions);
    &&& fds.no_duplicates()
    &&& fds.to_set() == recipients(clients, sender)
    &&& exists|message: String|
        #![trigger insert_writes(ops, fds, message)]
        message@ == text && post_ops == insert_writes(ops, fds, message) && submissions
            == write_submissions(ops, fds, message)
}

/// An accepted connection `client_fd` (or the kernel's refusal, when
/// negative): the client is registered as pending, and it is sent the
/// welcome message and a read is posted for it.
pub open spec fn accept_handled(
    pre: ChatRoomView,
    client_fd: i32,
    post: ChatRoomView,
    outcome: Result<Seq<Submission>, ChatError>,
) -> bool {
    if client_fd < 0 {
        post == pre && outcome == Err::<Seq<Submission>, ChatError>(ChatError::Os { code: -client_fd as i32 })
    } else {
        let c = post.clients[client_fd];
        &&& post.clients == pre.clients.insert(client_fd, c)
        &&& c.state is Pending
        &&& c.incoming@ == Seq::<u8>::empty()
        &&& exists|welcome: String, buffer: Vec<u8>|
            #![trigger pre.ops.inserted(Op::Write { client_fd, buffer: welcome }), buffer@]
            {
                let ops1 = pre.ops.inserted(Op::Write { client_fd, buffer: welcome });
                &&& welcome@ == WELCOME_MESSAGE@
                &&& buffer@ == Seq::new(READ_BUFFER_SIZE as nat, |i: int| 0u8)
                &&& post.ops == ops1.inserted(Op::Read { client_fd, buffer })
                &&& outcome == Ok::<Seq<Submission>, ChatError>(
                    seq![
                        Submission::Write { client_fd, op: pre.ops.insert_index() },
                        Submission::Read { client_fd, op: ops1.insert_index() },
                    ],
                )
            }
    }
}

/// A completed read of `result` bytes into `buffer` for `client_fd`: the
/// bytes join what the client sent before, a new read is posted with the
/// same buffer, and the first complete line, when there is one, is taken
/// off: valid UTF-8 without trailing white space and not empty, it names a
/// pending client or is announced to the others.
pub open spec fn read_handled(
    pre: ChatRoomView,
    result: i32,
    client_fd: i32,
    buffer: Vec<u8>,
    post: ChatRoomView,
    outcome: Result<Seq<Submission>, ChatError>,
) -> bool {
    if result <= 0 || !pre.clients.contains_key(client_fd) {
        post == pre && outcome == Ok::<Seq<Submission>, ChatError>(Seq::empty())
    } else {
        let c = pre.clients[client_fd];
        let incoming = c.incoming@ + buffer@.subrange(0, result as int);
        let ops1 = pre.ops.inserted(Op::Read { client_fd, buffer });
        let read = Submission::Read { client_fd, op: pre.ops.insert_index() };
        let nc = post.clients[client_fd];
        &&& post.clients == pre.clients.insert(client_fd, nc)
        &&& outcome is Ok
        &&& match incoming.index_of_first(NEWLINE) {
            None => {
                &&& nc.incoming@ == incoming
                &&& nc.state == c.state
                &&& post.ops == ops1
                &&& outcome->Ok_0 == seq![read]
            },
            Some(i) => {
                let frame = incoming.subrange(0, i + 1);
                let message = trim_end_chars(decode_utf8(frame));
                let subs = outcome->Ok_0;
                &&& nc.incoming@ == incoming.subrange(i + 1, incoming.len() as int)
                &&& if !valid_utf8(frame) || message.len() == 0 {
                    &&& nc.state == c.state
                    &&& post.ops == ops1
                    &&& subs == Seq::<Submission>::empty()
                } else {
                    &&& match c.state {
                        State::Joined { .. } => nc.state == c.state,
                        State::Pending => nc.state matches State::Joined { name } && name@
                            == message,
                    }
                    &&& subs.len() > 0
                    &&& subs.last() == read
                    &&& broadcast_done(
                        ops1,
                        pre.clients,
                        client_fd,
                        announcement(c.state, message),
                        post.ops,
                        subs.drop_last(),
                    )
                }
            },
        }
    }
}

/// A closed connection: a joined client is dropped and its leaving is
/// announced to the others; a failed close, an unknown or a pending client
/// changes nothing.
pub open spec fn close_handled(
    pre: ChatRoomView,
    result: i32,
    client_fd: i32,
    post: ChatRoomView,
    outcome: Result<Seq<Submission>, ChatError>,
) -> bool {
    if result < 0 || !pre.clients.contains_key(client_fd)
        || pre.clients[client_fd].state is Pending {
        post == pre && outcome == Ok::<Seq<Submission>, ChatError>(Seq::empty())
    } else {
        &&& post.clients == pre.clients.remove(client_fd)
        &&& outcome is Ok
        &&& pre.clients[client_fd].state matches State::Joined { name } && broadcast_done(
            pre.ops,
            pre.clients,
            client_fd,
            "* "@ + name@ + " has left the room"@,
            post.ops,
            outcome->Ok_0,
        )
    }
}

/// A completion with `user_data` and `result`: the operation that the
/// user data names is looked up; an accept stays in flight and is handled
/// as a new connection, any other operation is removed and handled; a
/// completion that names no operation in flight changes nothing.
pub open spec fn completion_handled(
    pre: ChatRoomView,
    user_data: u64,
    result: i32,
    post: ChatRoomView,
    outcome: Result<Seq<Submission>, ChatError>,
) -> bool {
    let index = index_of(user_data);
    let rest = ChatRoomView { ops: pre.ops.removed(index), clients: pre.clients };
    match pre.ops.lookup(index) {
        None => post == pre && outcome == Ok::<Seq<Submission>, ChatError>(Seq::empty()),
        Some(Op::Accept) => accept_handled(pre, result, post, outcome),
        Some(Op::Read { client_fd, buffer }) => read_handled(rest, result, client_fd, buffer, post, outcome),
        Some(Op::Write { .. }) => post == rest && outcome == Ok::<Seq<Submission>, ChatError>(Seq::empty()),
        Some(Op::Close { client_fd }) => close_handled(rest, result, client_fd, post, outcome),
    }
}

/// A read loses no byte: what the client had buffered followed by the bytes
/// just read is exactly the line taken off (empty, or through the first
/// newline and holding no other) followed by what stays buffered.
pub proof fn lemma_read_loses_no_byte(
    pre: ChatRoomView,
    result: i32,
    client_fd: i32,
    buffer: Vec<u8>,
    post: ChatRoomView,
    outcome: Result<Seq<Submission>, ChatError>,
)
    requires
        read_handled(pre, result, client_fd, buffer, post, outcome),
        result > 0,
        result <= buffer@.len(),
        pre.clients.contains_key(client_fd),
    ensures
        ({
            let all = pre.clients[client_fd].incoming@ + buffer@.subrange(0, result as int);
            let kept = post.clients[client_fd].incoming@;
            let line = all.subrange(0, all.len() - kept.len());
            &&& post.clients.contains_key(client_fd)
            &&& kept.len() <= all.len()
            &&& all == line + kept
            &&& forall|k: int| 0 <= k < line.len() - 1 ==> line[k] != NEWLINE
            &&& line.len() > 0 ==> line[line.len() - 1] == NEWLINE
            &&& (line.len() > 0 <==> all.contains(NEWLINE))
        }),
{
    let all = pre.clients[client_fd].incoming@ + buffer@.subrange(0, result as int);
    all.index_of_first_ensures(NEWLINE);
    let kept = post.clients[client_fd].incoming@;
    let line = all.subrange(0, all.len() - kept.len());
    match all.index_of_first(NEWLINE) {
        Some(i) => {
            assert(line =~= all.subrange(0, i + 1));
            assert(all =~= line + kept);
        },
        None => {
            assert(line =~= Seq::<u8>::empty());
            assert(all =~= line + kept);
        },
    }
}

/// Closing a joined client drops that client and no other: every other
/// client keeps its place and its state.
pub proof fn lemma_close_drops_only_its_client(
    pre: ChatRoomView,
    result: i32,
    client_fd: i32,
    post: ChatRoomView,
    outcome: Result<Seq<Submission>, ChatError>,
    other: i32,
)
    requires
        close_handled(pre, result, client_fd, post, outcome),
        other != client_fd,
    ensures
        post.clients.contains_key(other) == pre.clients.contains_key(other),
        pre.clients.contains_key(other) ==> post.clients[other] == pre.clients[other],
        result >= 0 && pre.clients.contains_key(client_fd) && pre.clients[client_fd].state is Joined
            ==> !post.clients.contains_key(client_fd),
{
}

/// Whether a completion can be handled: the arena has room, a read's
/// result fits its buffer when its client is known (the kernel never reports
/// more bytes than the buffer holds), and the result of an accept or a close can be
/// negated.
pub open spec fn completion_fits(pre: ChatRoomView, user_data: u64, result: i32) -> bool {
    &&& pre.ops.slots.len() + pre.clients.dom().len() + 3 <= u32::MAX as int + 1
    &&& match pre.ops.lookup(index_of(user_data)) {
        Some(Op::Read { client_fd, buffer }) => result <= buffer@.len() || !pre.clients.contains_key(
            client_fd,
        ),
        Some(Op::Accept) => result != i32::MIN,
        Some(Op::Close { .. }) => result != i32::MIN,
        _ => true,
    }
}

/// The operations that stay in flight across a completion: all of them when
/// it is the accept's, all but the completed one otherwise.
pub open spec fn still_in_flight(pre: ArenaModel<Op>, user_data: u64) -> ArenaModel<Op> {
    if pre.lookup(index_of(user_data)) matches Some(Op::Accept) {
        pre
    } else {
        pre.removed(index_of(user_data))
    }
}

/// Names joined by `", "`, as `[String]::join` joins them.
pub open spec fn comma_join(names: Seq<Seq<char>>) -> Seq<char>
    decreases names.len(),
{
    if names.len() == 0 {
        Seq::empty()
    } else if names.len() == 1 {
        names[0]
    } else {
        comma_join(names.drop_last()) + ", "@ + names.last()
    }
}

/// The name a client joined with; empty for a pending client.
pub open spec fn name_of(client: Client) -> Seq<char> {
    match client.state {
        State::Joined { name } => name@,
        State::Pending => Seq::empty(),
    }
}

/// The names of the clients `fds`, in order.
pub open spec fn names_of(clients: Map<i32, Client>, fds: Seq<i32>) -> Seq<Seq<char>> {
    fds.map_values(|fd: i32| name_of(clients[fd]))
}

/// Each submission names an operation in flight of its kind and client, so
/// that the buffer handed to the kernel is that operation's.
pub open spec fn submissions_in_flight(ops: ArenaModel<Op>, submissions: Seq<Submission>) -> bool {
    forall|k: int|
        0 <= k < submissions.len() ==> match #[trigger] submissions[k] {
            Submission::Write { client_fd, op } => ops.lookup(op) matches Some(
                Op::Write { client_fd: fd, .. },
            ) && fd == client_fd,
            Submission::Read { client_fd, op } => ops.lookup(op) matches Some(
                Op::Read { client_fd: fd, .. },
            ) && fd == client_fd,
        }
}

/// Every operation in flight before is still in flight, unchanged.
pub open spec fn keeps_in_flight(pre: ArenaModel<Op>, post: ArenaModel<Op>) -> bool {
    forall|i: Index| #[trigger] pre.lookup(i) is Some ==> post.lookup(i) == pre.lookup(i)
}

/// The clients that a message from `sender` goes to: every joined client but
/// the sender.
pub open spec fn recipients(clients: Map<i32, Client>, sender: i32) -> Set<i32> {
    Set::new(|fd: i32| clients.contains_key(fd) && fd != sender && clients[fd].state is Joined)
}

/// The arena after one write operation of `message` is inserted for each of
/// `fds`, in order.
pub open spec fn insert_writes(ops: ArenaModel<Op>, fds: Seq<i32>, message: String) -> ArenaModel<Op>
    decreases fds.len(),
{
    if fds.len() == 0 {
        ops
    } else {
        insert_writes(ops, fds.drop_last(), message).inserted(
            Op::Write { client_fd: fds.last(), buffer: message },
        )
    }
}

/// The write submissions that inserting `message` for each of `fds` yields.
pub open spec fn write_submissions(ops: ArenaModel<Op>, fds: Seq<i32>, message: String) -> Seq<
    Submission,
>
    decreases fds.len(),
{
    if fds.len() == 0 {
        Seq::empty()
    } else {
        write_submissions(ops, fds.drop_last(), message).push(
            Submission::Write {
                client_fd: fds.last(),
                op: insert_writes(ops, fds.drop_last(), message).insert_index(),
            },
        )
    }
}

/// The client descriptors that a sequence of submissions concerns.
pub open spec fn fds_of(submissions: Seq<Submission>) -> Seq<i32> {
    submissions.map_values(|s: Submission| s.fd())
}

proof fn lemma_insert_writes_len(ops: ArenaModel<Op>, fds: Seq<i32>, message: String)
    requires
        ops.wf(),
        ops.slots.len() + fds.len() <= u32::MAX as int + 1,
    ensures
        insert_writes(ops, fds, message).wf(),
        insert_writes(ops, fds, message).slots.len() <= ops.slots.len() + fds.len(),
        write_submissions(ops, fds, message).len() == fds.len(),
    decreases fds.len(),
{
    if fds.len() > 0 {
        lemma_insert_writes_len(ops, fds.drop_last(), message);
        crate::arena::lemma_insert_then_lookup(
            insert_writes(ops, fds.drop_last(), message),
            Op::Write { client_fd: fds.last(), buffer: message },
        );
    }
}

proof fn lemma_write_submissions_fds(ops: ArenaModel<Op>, fds: Seq<i32>, message: String)
    ensures
        fds_of(write_submissions(ops, fds, message)) == fds,
    decreases fds.len(),
{
    if fds.len() > 0 {
        lemma_write_submissions_fds(ops, fds.drop_last(), message);
        let w = write_submissions(ops, fds.drop_last(), message);
        let all = write_submissions(ops, fds, message);
        assert(all.len() == w.len() + 1);
        assert forall|i: int| 0 <= i < all.len() implies fds_of(all)[i] == fds[i] by {
            if i < w.len() {
                assert(all[i] == w[i]);
                assert(fds_of(w)[i] == fds.drop_last()[i]);
            }
        }
        assert(fds_of(write_submissions(ops, fds, message)) =~= fds);
    } else {
        assert(fds_of(write_submissions(ops, fds, message)) =~= fds);
    }
}

/// The joined clients other than `sender` among walked map entries, in walk order.
spec fn joined_others<'a>(entries: Seq<(&'a i32, &'a Client)>, sender: i32) -> Seq<i32>
    decreases entries.len(),
{
    if entries.len() == 0 {
        Seq::empty()
    } else {
        let rest = joined_others(entries.drop_last(), sender);
        let fd = *entries.last().0;
        if fd != sender && entries.last().1.state is Joined {
            rest.push(fd)
        } else {
            rest
        }
    }
}

proof fn lemma_joined_others<'a>(
    entries: Seq<(&'a i32, &'a Client)>,
    clients: Map<i32, Client>,
    sender: i32,
)
    requires
        entries.no_duplicates(),
        forall|j: int|
            0 <= j < entries.len() ==> clients.contains_key(*(#[trigger] entries[j]).0)
                && clients[*entries[j].0] == *entries[j].1,
    ensures
        joined_others(entries, sender).no_duplicates(),
        forall|x: i32|
            joined_others(entries, sender).contains(x) <==> (recipients(clients, sender).contains(x)
                && exists|j: int| 0 <= j < entries.len() && *(#[trigger] entries[j]).0 == x),
    decreases entries.len(),
{
    if entries.len() > 0 {
        let init = entries.drop_last();
        assert forall|j: int| 0 <= j < init.len() implies clients.contains_key(*(#[trigger] init[j]).0)
            && clients[*init[j].0] == *init[j].1 by {
            assert(init[j] == entries[j]);
        }
        assert(init.no_duplicates()) by {
            assert forall|a: int, b: int| 0 <= a < b < init.len() implies init[a] != init[b] by {
                assert(init[a] == entries[a] && init[b] == entries[b]);
            }
        }
        lemma_joined_others(init, clients, sender);
        let fd = *entries.last().0;
        let rest = joined_others(init, sender);
        // the last key does not occur earlier: its entry would equal the last one
        assert forall|j: int| 0 <= j < init.len() implies *(#[trigger] init[j]).0 != fd by {
            if *init[j].0 == fd {
                assert(entries[j] == entries[entries.len() - 1]);
            }
        }
        assert forall|x: i32|
            joined_others(entries, sender).contains(x) <==> (recipients(clients, sender).contains(x)
                && exists|j: int| 0 <= j < entries.len() && *(#[trigger] entries[j]).0 == x) by {
            if joined_others(entries, sender).contains(x) {
                if rest.contains(x) {
                    let j = choose|j: int| 0 <= j < init.len() && *(#[trigger] init[j]).0 == x;
                    assert(*entries[j].0 == x);
                } else {
                    assert(*entries[entries.len() - 1].0 == x);
                }
            }
            if recipients(clients, sender).contains(x) && exists|j: int|
                0 <= j < entries.len() && *(#[trigger] entries[j]).0 == x {
                let j = choose|j: int| 0 <= j < entries.len() && *(#[trigger] entries[j]).0 == x;
                if j < init.len() {
                    assert(*init[j].0 == x);
                    assert(rest.contains(x));
                    if fd != sender && entries.last().1.state is Joined {
                        assert(rest.push(fd)[rest.len() as int] == fd);
                        let i = choose|i: int| 0 <= i < rest.len() && rest[i] == x;
                        assert(rest.push(fd)[i] == x);
                    }
                } else {
                    assert(j == entries.len() - 1);
                    assert(rest.push(fd)[rest.len() as int] == fd);
                }
            }
        }
        if fd != sender && entries.last().1.state is Joined {
            assert(!rest.contains(fd)) by {
                if rest.contains(fd) {
                    let j = choose|j: int| 0 <= j < init.len() && *(#[trigger] init[j]).0 == fd;
                }
            }
            assert(rest.push(fd).no_duplicates()) by {
                assert forall|a: int, b: int| 0 <= a < b < rest.push(fd).len() implies rest.push(fd)[a]
                    != rest.push(fd)[b] by {
                    if b == rest.len() {
                        assert(rest.contains(rest[a]));
                    } else {
                        assert(rest[a] != rest[b]);
                    }
                }
            }
        }
    }
}

pub struct ChatRoom {
    ops: Arena<Op>,
    clients: HashMap<i32, Client>,
}

impl View for ChatRoom {
    type V = ChatRoomView;

    closed spec fn view(&self) -> ChatRoomView {
        ChatRoomView { ops: self.ops@, clients: self.clients@ }
    }
}

impl ChatRoom {
    pub closed spec fn wf(&self) -> bool {
        self.ops.wf()
    }

    /// Room in the arena for an insert per client and three more.
    pub open spec fn has_room(&self) -> bool {
        self@.ops.slots.len() + self@.clients.dom().len() + 3 <= u32::MAX as int + 1
    }

    pub fn new() -> (room: Self)
        ensures
            room.wf(),
            room@.ops.slots == Seq::<crate::arena::Slot<Op>>::empty(),
            room@.ops.free == Seq::<u32>::empty(),
            room@.clients == Map::<i32, Client>::empty(),
    {
        ChatRoom { ops: Arena::new(), clients: HashMap::new() }
    }

    /// The joined clients other than `sender`, each once, in the order in
    /// which the client map is walked.
    fn recipients_of(&self, sender: i32) -> (fds: Vec<i32>)
        ensures
            fds@.no_duplicates(),
            fds@.to_set() == recipients(self@.clients, sender),
            fds@.len() <= self@.clients.dom().len(),
    {
        let mut recipient_fds: Vec<i32> = Vec::new();
        let ghost clients = self@.clients;
        for entry in it: self.clients.iter()
            invariant
                clients == self@.clients,
                it.seq() == vstd::std_specs::hash::spec_hash_map_iter(&self.clients).remaining(),
                recipient_fds@ == joined_others(it.seq().take(it.index()), sender),
        {
            let (fd, client) = entry;
            proof {
                assert(it.seq().take(it.index() + 1).drop_last() =~= it.seq().take(it.index()));
            }
            if *fd != sender {
                match client.state {
                    State::Joined { .. } => {
                        recipient_fds.push(*fd);
                    },
                    State::Pending => {},
                }
            }
        }
        proof {
            let entries = vstd::std_specs::hash::spec_hash_map_iter(&self.clients).remaining();
            assert(entries.take(entries.len() as int) =~= entries);
            assert(recipient_fds@ == joined_others(entries, sender));
            lemma_joined_others(entries, clients, sender);
            assert forall|x: i32| recipients(clients, sender).contains(x) implies recipient_fds@.contains(x) by {
                assert(entries.contains((&x, &clients[x])));
                let j = choose|j: int| 0 <= j < entries.len() && entries[j] == (&x, &clients[x]);
                assert(*entries[j].0 == x);
            }
        }
        proof {
            recipient_fds@.unique_seq_to_set();
            vstd::set_lib::lemma_len_subset(recipient_fds@.to_set(), clients.dom());
        }
        recipient_fds
    }

    /// Sends `message` to every joined client but `sender`: one write
    /// operation each, in the order in which the clients are walked.
    pub fn broadcast(&mut self, message: String, sender: i32) -> (submissions: Vec<Submission>)
        requires
            old(self).wf(),
            old(self)@.ops.slots.len() + old(self)@.clients.dom().len() <= u32::MAX as int + 1,
        ensures
            final(self).wf(),
            final(self)@.clients == old(self)@.clients,
            fds_of(submissions@).no_duplicates(),
            fds_of(submissions@).to_set() == recipients(old(self)@.clients, sender),
            final(self)@.ops == insert_writes(old(self)@.ops, fds_of(submissions@), message),
            submissions@ == write_submissions(old(self)@.ops, fds_of(submissions@), message),
            submissions_in_flight(final(self)@.ops, submissions@),
            keeps_in_flight(old(self)@.ops, final(self)@.ops),
    {
        let recipient_fds = self.recipients_of(sender);
        let ghost clients = self@.clients;
        proof {
            self.ops.lemma_wf_model();
        }
        let ghost ops0 = self@.ops;
        let mut submissions: Vec<Submission> = Vec::new();
        let mut k: usize = 0;
        while k < recipient_fds.len()
            invariant
                self.wf(),
                self@.clients == clients,
                k <= recipient_fds@.len(),
                ops0.wf(),
                ops0.slots.len() + recipient_fds@.len() <= u32::MAX as int + 1,
                self@.ops == insert_writes(ops0, recipient_fds@.take(k as int), message),
                submissions@ == write_submissions(ops0, recipient_fds@.take(k as int), message),
                submissions_in_flight(self@.ops, submissions@),
                keeps_in_flight(ops0, self@.ops),
            decreases recipient_fds@.len() - k,
        {
            let client_fd = recipient_fds[k];
            proof {
                lemma_insert_writes_len(ops0, recipient_fds@.take(k as int), message);
                self.ops.lemma_wf_model();
                assert(recipient_fds@.take(k + 1).drop_last() =~= recipient_fds@.take(k as int));
            }
            let ghost ops_before = self@.ops;
            let ghost subs_before = submissions@;
            let ghost value = Op::Write { client_fd, buffer: message };
            let op = self.ops.insert(Op::Write { client_fd, buffer: message.clone() });
            submissions.push(Submission::Write { client_fd, op });
            proof {
                crate::arena::lemma_insert_then_lookup(ops_before, value);
                assert forall|i: Index| #[trigger] ops_before.lookup(i) is Some implies self@.ops.lookup(i)
                    == ops_before.lookup(i) by {
                    crate::arena::lemma_insert_keeps_others(ops_before, value, i);
                }
                assert forall|j: int| 0 <= j < submissions@.len() implies match #[trigger] submissions@[j] {
                    Submission::Write { client_fd, op } => self@.ops.lookup(op) matches Some(
                        Op::Write { client_fd: fd, .. },
                    ) && fd == client_fd,
                    Submission::Read { client_fd, op } => self@.ops.lookup(op) matches Some(
                        Op::Read { client_fd: fd, .. },
                    ) && fd == client_fd,
                } by {
                    if j < subs_before.len() {
                        assert(submissions@[j] == subs_before[j]);
                        assert(ops_before.lookup(subs_before[j].op()) is Some);
                    }
                }
            }
            k = k + 1;
        }
        proof {
            assert(recipient_fds@.take(k as int) =~= recipient_fds@);
            lemma_write_submissions_fds(ops0, recipient_fds@, message);
        }
        submissions
    }
    /// Registers the multishot accept operation; its index is the user data
    /// of the accept submission.
    pub fn listen(&mut self) -> (index: Index)
        requires
            old(self).wf(),
            old(self).has_room(),
        ensures
            final(self).wf(),
            index == old(self)@.ops.insert_index(),
            final(self)@.ops == old(self)@.ops.inserted(Op::Accept),
            final(self)@.clients == old(self)@.clients,
    {
        proof {
            self.ops.lemma_wf_model();
        }
        self.ops.insert(Op::Accept)
    }

    /// The operation that an index reaches, to hand its buffer to the kernel.
    pub fn op_mut(&mut self, index: Index) -> (op: Option<&mut Op>)
        requires
            old(self).wf(),
        ensures
            final(self).wf(),
            final(self)@.clients == old(self)@.clients,
            match op {
                Some(v) => {
                    &&& old(self)@.ops.lookup(index) == Some(*v)
                    &&& final(self)@.ops == old(self)@.ops.written(index, *final(v))
                },
                None => {
                    &&& old(self)@.ops.lookup(index) is None
                    &&& final(self)@.ops == old(self)@.ops
                },
            },
    {
        self.ops.get_mut(index)
    }

    /// Whether a completion with `user_data` and `result` can be handled.
    pub fn completion_fits(&self, user_data: u64, result: i32) -> (fits: bool)
        requires
            self.wf(),
        ensures
            fits == completion_fits(self@, user_data, result),
    {
        let slots = self.ops.slot_count();
        let clients = self.clients.len();
        if slots as u128 + clients as u128 + 3 > u32::MAX as u128 + 1 {
            return false;
        }
        match self.ops.get(Index::from_user_data(user_data)) {
            Some(Op::Read { client_fd, buffer }) => result <= 0 || result as usize <= buffer.len()
                || !self.clients.contains_key(client_fd),
            Some(Op::Accept) => result != i32::MIN,
            Some(Op::Close { .. }) => result != i32::MIN,
            _ => true,
        }
    }

    /// A new connection `client_fd`, or the kernel's refusal when negative.
    pub fn handle_accept(&mut self, client_fd: i32) -> (outcome: Result<Vec<Submission>, ChatError>)
        requires
            old(self).wf(),
            old(self).has_room(),
            client_fd != i32::MIN,
        ensures
            final(self).wf(),
            accept_handled(old(self)@, client_fd, final(self)@, outcome_view(outcome)),
            outcome matches Ok(subs) ==> submissions_in_flight(final(self)@.ops, subs@),
            keeps_in_flight(old(self)@.ops, final(self)@.ops),
    {
        if client_fd < 0 {
            proof {
                assert(self@ =~= old(self)@);
            }
            return Err(ChatError::Os { code: -client_fd });
        }
        self.clients.insert(client_fd, Client::new());
        proof {
            self.ops.lemma_wf_model();
        }
        let welcome = WELCOME_MESSAGE.to_owned();
        let ghost welcome_view = welcome;
        let write_op = self.ops.insert(Op::Write { client_fd, buffer: welcome });
        let ghost ops1 = self@.ops;
        let buffer: Vec<u8> = vec![0u8; READ_BUFFER_SIZE];
        let ghost buffer_view = buffer;
        proof {
            crate::arena::lemma_insert_then_lookup(old(self)@.ops, Op::Write { client_fd, buffer: welcome_view });
            self.ops.lemma_wf_model();
            assert(buffer@ =~= Seq::new(READ_BUFFER_SIZE as nat, |i: int| 0u8));
        }
        let ghost read_value = Op::Read { client_fd, buffer };
        proof {
            crate::arena::lemma_insert_then_lookup(ops1, read_value);
            crate::arena::lemma_insert_keeps_others(ops1, read_value, write_op);
            assert forall|i: Index| #[trigger] old(self)@.ops.lookup(i) is Some implies ops1.inserted(
                read_value,
            ).lookup(i) == old(self)@.ops.lookup(i) by {
                crate::arena::lemma_insert_keeps_others(old(self)@.ops, Op::Write { client_fd, buffer: welcome_view }, i);
                crate::arena::lemma_insert_keeps_others(ops1, read_value, i);
            }
        }
        let read_op = self.ops.insert(Op::Read { client_fd, buffer });
        let mut submissions: Vec<Submission> = Vec::new();
        submissions.push(Submission::Write { client_fd, op: write_op });
        submissions.push(Submission::Read { client_fd, op: read_op });
        proof {
            assert(submissions@ =~= seq![
                Submission::Write { client_fd, op: old(self)@.ops.insert_index() },
                Submission::Read { client_fd, op: ops1.insert_index() },
            ]);
            assert(self@.clients =~= old(self)@.clients.insert(client_fd, self@.clients[client_fd]));
        }
        Ok(submissions)
    }

    /// A completed write: nothing follows.
    pub fn handle_write(&mut self, result: i32, client_fd: i32) -> (outcome: Result<
        Vec<Submission>,
        ChatError,
    >)
        requires
            old(self).wf(),
        ensures
            final(self).wf(),
            final(self)@ == old(self)@,
            outcome_view(outcome) == Ok::<Seq<Submission>, ChatError>(Seq::empty()),
    {
        Ok(Vec::new())
    }
    /// A completed read of `result` bytes into `buffer` for `client_fd`.
    pub fn handle_read(&mut self, result: i32, client_fd: i32, buffer: Vec<u8>) -> (outcome: Result<
        Vec<Submission>,
        ChatError,
    >)
        requires
            old(self).wf(),
            old(self).has_room(),
            result <= 0 || result as int <= buffer@.len() || !old(self)@.clients.contains_key(
                client_fd,
            ),
        ensures
            final(self).wf(),
            read_handled(old(self)@, result, client_fd, buffer, final(self)@, outcome_view(outcome)),
            outcome matches Ok(subs) ==> submissions_in_flight(final(self)@.ops, subs@),
            keeps_in_flight(old(self)@.ops, final(self)@.ops),
    {
        if result <= 0 {
            proof {
                assert(self@ =~= old(self)@);
            }
            return Ok(Vec::new());
        }
        let mut client = match self.clients.remove(&client_fd) {
            Some(c) => c,
            None => {
                proof {
                    assert(self@.clients =~= old(self)@.clients);
                    assert(self@ =~= old(self)@);
                }
                return Ok(Vec::new());
            },
        };
        let ghost pre = old(self)@;
        let ghost state0 = client.state;
        let bytes_read = result as usize;
        let mut fresh = slice_to_vec(slice_subrange(buffer.as_slice(), 0, bytes_read));
        client.incoming.append(&mut fresh);
        let ghost incoming = client.incoming@;
        proof {
            self.ops.lemma_wf_model();
            crate::arena::lemma_insert_then_lookup(pre.ops, Op::Read { client_fd, buffer });
            assert forall|i: Index| #[trigger] pre.ops.lookup(i) is Some implies pre.ops.inserted(
                Op::Read { client_fd, buffer },
            ).lookup(i) == pre.ops.lookup(i) by {
                crate::arena::lemma_insert_keeps_others(pre.ops, Op::Read { client_fd, buffer }, i);
            }
        }
        let op = self.ops.insert(Op::Read { client_fd, buffer });
        let read_submission = Submission::Read { client_fd, op };
        let line_break = match find_byte(client.incoming.as_slice(), NEWLINE) {
            Some(i) => i,
            None => {
                self.clients.insert(client_fd, client);
                let mut submissions: Vec<Submission> = Vec::new();
                submissions.push(read_submission);
                proof {
                    assert(self@.clients =~= pre.clients.insert(client_fd, self@.clients[client_fd]));
                    assert(submissions@ =~= seq![read_submission]);
                }
                return Ok(submissions);
            },
        };
        proof {
            incoming.index_of_first_ensures(NEWLINE);
        }
        assert(line_break < client.incoming.len());
        let frame = slice_to_vec(slice_subrange(client.incoming.as_slice(), 0, line_break + 1));
        let rest = slice_to_vec(
            slice_subrange(client.incoming.as_slice(), line_break + 1, client.incoming.len()),
        );
        client.incoming = rest;
        let text = match str_from_utf8(frame.as_slice()) {
            Some(t) => t,
            None => {
                self.clients.insert(client_fd, client);
                proof {
                    assert(self@.clients =~= pre.clients.insert(client_fd, self@.clients[client_fd]));
                }
                return Ok(Vec::new());
            },
        };
        proof {
            vstd::utf8::encode_utf8_decode_utf8(text@);
        }
        let trimmed = trim_end(text);
        if trimmed.is_empty() {
            self.clients.insert(client_fd, client);
            proof {
                assert(self@.clients =~= pre.clients.insert(client_fd, self@.clients[client_fd]));
            }
            return Ok(Vec::new());
        }
        let message = trimmed.to_owned();
        let mut pending = false;
        let mut line = String::new();
        match &client.state {
            State::Joined { name } => {
                line = String::from_str("[");
                line.append(name.as_str());
                line.append("]: ");
                line.append(message.as_str());
                line.append("\n");
            },
            State::Pending => {
                pending = true;
                line = String::from_str("* ");
                line.append(message.as_str());
                line.append(" joined the room\n");
            },
        }
        if pending {
            client.join(message);
        }
        let ghost line_value = line;
        proof {
            assert(line@ == announcement(state0, trim_end_chars(decode_utf8(frame@))));
        }
        self.clients.insert(client_fd, client);
        proof {
            assert(self@.clients.dom() =~= pre.clients.dom());
            self.ops.lemma_wf_model();
        }
        let ghost ops1 = self@.ops;
        let ghost clients1 = self@.clients;
        let mut submissions = self.broadcast(line, client_fd);
        let ghost broadcast_subs = submissions@;
        submissions.push(read_submission);
        proof {
            assert(recipients(clients1, client_fd) =~= recipients(pre.clients, client_fd));
            assert(submissions@.drop_last() =~= broadcast_subs);
            assert(self@.clients =~= pre.clients.insert(client_fd, self@.clients[client_fd]));
            assert(insert_writes(ops1, fds_of(broadcast_subs), line_value) == self@.ops);
            assert(ops1.lookup(op) is Some);
            assert forall|j: int| 0 <= j < submissions@.len() implies match #[trigger] submissions@[j] {
                Submission::Write { client_fd, op } => self@.ops.lookup(op) matches Some(
                    Op::Write { client_fd: fd, .. },
                ) && fd == client_fd,
                Submission::Read { client_fd, op } => self@.ops.lookup(op) matches Some(
                    Op::Read { client_fd: fd, .. },
                ) && fd == client_fd,
            } by {
                if j < broadcast_subs.len() {
                    assert(submissions@[j] == broadcast_subs[j]);
                }
            }
        }
        Ok(submissions)
    }
    /// A completed close of `client_fd`'s connection.
    pub fn handle_close(&mut self, result: i32, client_fd: i32) -> (outcome: Result<
        Vec<Submission>,
        ChatError,
    >)
        requires
            old(self).wf(),
            old(self).has_room(),
        ensures
            final(self).wf(),
            close_handled(old(self)@, result, client_fd, final(self)@, outcome_view(outcome)),
            outcome matches Ok(subs) ==> submissions_in_flight(final(self)@.ops, subs@),
            keeps_in_flight(old(self)@.ops, final(self)@.ops),
    {
        if result < 0 {
            proof {
                assert(self@ =~= old(self)@);
            }
            return Ok(Vec::new());
        }
        let name = match self.clients.get(&client_fd) {
            Some(client) => match &client.state {
                State::Joined { name } => name.clone(),
                State::Pending => {
                    proof {
                        assert(self@ =~= old(self)@);
                    }
                    return Ok(Vec::new());
                },
            },
            None => {
                proof {
                    assert(self@ =~= old(self)@);
                }
                return Ok(Vec::new());
            },
        };
        let mut message = String::from_str("* ");
        message.append(name.as_str());
        message.append(" has left the room");
        let ghost message_value = message;
        self.clients.remove(&client_fd);
        proof {
            self.ops.lemma_wf_model();
            vstd::set_lib::lemma_len_subset(self@.clients.dom(), old(self)@.clients.dom());
        }
        let ghost clients1 = self@.clients;
        let submissions = self.broadcast(message, client_fd);
        proof {
            assert(recipients(clients1, client_fd) =~= recipients(old(self)@.clients, client_fd));
            assert(insert_writes(old(self)@.ops, fds_of(submissions@), message_value) == self@.ops);
        }
        Ok(submissions)
    }

    /// Tells `welcome_fd` who is in the room: the names of the joined
    /// clients but itself, in the order in which the client map is walked.
    pub fn welcome(&mut self, welcome_fd: i32) -> (submission: Submission)
        requires
            old(self).wf(),
            old(self).has_room(),
        ensures
            final(self).wf(),
            final(self)@.clients == old(self)@.clients,
            submission == (Submission::Write { client_fd: welcome_fd, op: old(self)@.ops.insert_index() }),
            exists|fds: Seq<i32>, text: String|
                #![trigger old(self)@.ops.inserted(Op::Write { client_fd: welcome_fd, buffer: text }), fds.to_set()]
                {
                    &&& fds.no_duplicates()
                    &&& fds.to_set() == recipients(old(self)@.clients, welcome_fd)
                    &&& text@ == "* The room contains: "@ + comma_join(names_of(old(self)@.clients, fds))
                        + "\n"@
                    &&& final(self)@.ops == old(self)@.ops.inserted(
                        Op::Write { client_fd: welcome_fd, buffer: text },
                    )
                },
    {
        let fds = self.recipients_of(welcome_fd);
        let ghost clients = self@.clients;
        let mut names = String::new();
        let mut k: usize = 0;
        while k < fds.len()
            invariant
                clients == self@.clients,
                k <= fds@.len(),
                forall|j: int| 0 <= j < fds@.len() ==> recipients(clients, welcome_fd).contains(#[trigger] fds@[j]),
                fds@.to_set() == recipients(clients, welcome_fd),
                names@ == comma_join(names_of(clients, fds@.take(k as int))),
            decreases fds@.len() - k,
        {
            let fd = fds[k];
            proof {
                assert(fds@.to_set().contains(fd));
                assert(names_of(clients, fds@.take(k + 1)).drop_last() =~= names_of(clients, fds@.take(k as int)));
            }
            match self.clients.get(&fd) {
                Some(client) => match &client.state {
                    State::Joined { name } => {
                        if k > 0 {
                            names.append(", ");
                        }
                        names.append(name.as_str());
                    },
                    State::Pending => {},
                },
                None => {},
            }
            k = k + 1;
        }
        proof {
            assert(fds@.take(k as int) =~= fds@);
        }
        let mut message = String::from_str("* The room contains: ");
        message.append(names.as_str());
        message.append("\n");
        let ghost message_value = message;
        proof {
            self.ops.lemma_wf_model();
        }
        let op = self.ops.insert(Op::Write { client_fd: welcome_fd, buffer: message });
        proof {
            assert(fds@.to_set() == recipients(old(self)@.clients, welcome_fd));
        }
        Submission::Write { client_fd: welcome_fd, op }
    }

    /// Handles one completion: the operation that its user data names, and
    /// the kernel's result.
    pub fn handle_completion(&mut self, user_data: u64, result: i32) -> (outcome: Result<
        Vec<Submission>,
        ChatError,
    >)
        requires
            old(self).wf(),
            completion_fits(old(self)@, user_data, result),
        ensures
            final(self).wf(),
            completion_handled(old(self)@, user_data, result, final(self)@, outcome_view(outcome)),
            outcome matches Ok(subs) ==> submissions_in_flight(final(self)@.ops, subs@),
            keeps_in_flight(still_in_flight(old(self)@.ops, user_data), final(self)@.ops),
    {
        let index = Index::from_user_data(user_data);
        let is_accept = match self.ops.get(index) {
            Some(Op::Accept) => true,
            _ => false,
        };
        if is_accept {
            return self.handle_accept(result);
        }
        proof {
            self.ops.lemma_wf_model();
        }
        match self.ops.remove(index) {
            Some(Op::Read { client_fd, buffer }) => self.handle_read(result, client_fd, buffer),
            Some(Op::Write { client_fd, .. }) => {
                let outcome = self.handle_write(result, client_fd);
                proof {
                    assert(self@ =~= (ChatRoomView { ops: old(self)@.ops.removed(index), clients: old(self)@.clients }));
                }
                outcome
            },
            Some(Op::Close { client_fd }) => self.handle_close(result, client_fd),
            Some(Op::Accept) => {
                proof {
                    assert(false);
                }
                Ok(Vec::new())
            },
            None => {
                // A completion for an operation that is no longer in flight.
                proof {
                    assert(self@ =~= old(self)@);
                }
                Ok(Vec::new())
            },
        }
    }

    /// A well-formed room has a well-formed arena model.
    pub proof fn lemma_wf_model(&self)
        requires
            self.wf(),
        ensures
            self@.ops.wf(),
    {
        self.ops.lemma_wf_model();
    }
}

} // verus!
