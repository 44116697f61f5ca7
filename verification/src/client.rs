//! The session with the tracker: the tracks it asked for, and the decoder of
//! what the tracker sends.
//!
//! The session holds no transport. Whoever embeds it reads from the transport
//! as many bytes as [`Client::wanted`] says, hands what arrived to
//! [`Client::poll_events`], and writes out the requests that
//! [`Client::get_track_mut`] and [`Client::set_row`] return.

use vstd::prelude::*;
use vstd::slice::slice_subrange;
use vstd::string::StringSliceAdditionalSpecFns;
use crate::bytes::same_bytes;
use crate::protocol::{
    command_of, encode_get_track, encode_set_row, get_track_message, is_message, parse_command,
    payload_len, payload_length, set_row_message, Command,
};
use crate::track::{views, with_key, without_row, Track, TrackView};

verus! {

/// The greeting that a client sends when the connection opens.
pub fn client_greeting() -> (greeting: &'static str)
    ensures
        greeting@ == "hello, synctracker!"@,
{
    "hello, synctracker!"
}

/// The greeting with which the tracker answers.
pub fn server_greeting() -> (greeting: &'static str)
    ensures
        greeting@ == "hello, demo!"@,
{
    "hello, demo!"
}

/// What ends a session.
#[derive(Debug, Clone, Copy, PartialEq, Eq, Structural)]
pub enum Error {
    /// The tracker edited a track of an index that was never requested: the
    /// two sides no longer agree on the tracks.
    UnknownTrack(u32),
    /// Bytes that are no whole message.
    Malformed,
}

/// Where the decoder stands in a message.
#[derive(Debug, Clone, Copy, PartialEq, Eq, Structural)]
pub enum ClientState {
    /// Between messages: the next byte is an opcode.
    New,
    /// Inside a payload, of which this many bytes are still to come.
    Incomplete(usize),
    /// A whole message is buffered and waits to be carried out.
    Complete,
}

/// What the tracker wants the program to see.
#[derive(Debug, Clone, Copy, PartialEq, Eq, Structural)]
pub enum Event {
    /// The tracker changes row.
    SetRow(u32),
    /// The tracker pauses or unpauses.
    Pause(bool),
    /// The tracker asks for the tracks to be saved.
    SaveTracks,
}

/// How one step of the decoder ended.
#[derive(Debug, Clone, Copy, PartialEq, Eq, Structural)]
pub enum ReceiveResult {
    /// A message was carried out and reports this event.
    Event(Event),
    /// Bytes were needed and none were there.
    Idle,
    /// The step made headway that the program does not see: step again.
    Incomplete,
}

/// A session as a value.
pub struct ClientView {
    pub state: ClientState,
    /// The bytes of the message that is being received.
    pub cmd: Seq<u8>,
    /// The tracks in the order in which they were requested.
    pub tracks: Seq<TrackView>,
}

/// The outcome of one step of the decoder.
pub struct Step {
    /// The session after the step.
    pub client: ClientView,
    /// How many bytes the step took from the front of its input.
    pub taken: nat,
    pub result: Result<ReceiveResult, Error>,
}

/// The outcome of a poll.
pub struct Poll {
    /// The session after the poll.
    pub client: ClientView,
    /// How many bytes the poll took from the front of its input.
    pub taken: nat,
    pub result: Result<Option<Event>, Error>,
}

/// The tracks after a command: an edit changes the keys of the track that
/// its index names, and is an error where no track has that index. Other
/// commands leave the tracks alone.
pub open spec fn edited(tracks: Seq<TrackView>, command: Command) -> Result<Seq<TrackView>, Error> {
    match command {
        Command::SetKey { track, key } => if track < tracks.len() {
            Ok(
                tracks.update(
                    track as int,
                    TrackView {
                        name: tracks[track as int].name,
                        keys: with_key(tracks[track as int].keys, key),
                    },
                ),
            )
        } else {
            Err(Error::UnknownTrack(track))
        },
        Command::DeleteKey { track, row } => if track < tracks.len() {
            Ok(
                tracks.update(
                    track as int,
                    TrackView {
                        name: tracks[track as int].name,
                        keys: without_row(tracks[track as int].keys, row),
                    },
                ),
            )
        } else {
            Err(Error::UnknownTrack(track))
        },
        _ => Ok(tracks),
    }
}

/// What a command that was carried out reports.
pub open spec fn reported(command: Command) -> ReceiveResult {
    match command {
        Command::SetRow(row) => ReceiveResult::Event(Event::SetRow(row)),
        Command::Pause(flag) => ReceiveResult::Event(Event::Pause(flag)),
        Command::SaveTracks => ReceiveResult::Event(Event::SaveTracks),
        _ => ReceiveResult::Incomplete,
    }
}

/// The session between messages, with the given tracks.
pub open spec fn rested(tracks: Seq<TrackView>) -> ClientView {
    ClientView { state: ClientState::New, cmd: Seq::empty(), tracks: tracks }
}

/// Carrying out the buffered message. Whatever comes of it, the buffer is
/// emptied and the decoder stands between messages again.
pub open spec fn dispatch(client: ClientView) -> Step {
    if !is_message(client.cmd) {
        Step { client: rested(client.tracks), taken: 0, result: Err(Error::Malformed) }
    } else {
        let command = command_of(client.cmd);
        match edited(client.tracks, command) {
            Ok(tracks) => Step { client: rested(tracks), taken: 0, result: Ok(reported(command)) },
            Err(error) => Step { client: rested(client.tracks), taken: 0, result: Err(error) },
        }
    }
}

/// The state after `count` bytes of a payload arrived of which `remaining`
/// were still to come.
pub open spec fn advanced(remaining: usize, count: nat) -> ClientState {
    if count < remaining {
        ClientState::Incomplete((remaining - count) as usize)
    } else {
        ClientState::Complete
    }
}

/// The state after an opcode arrived.
pub open spec fn opened(opcode: u8) -> ClientState {
    if payload_len(opcode) > 0 {
        ClientState::Incomplete(payload_len(opcode) as usize)
    } else {
        ClientState::Complete
    }
}

/// How many bytes the decoder asks of the transport in a state.
pub open spec fn wanted_in(state: ClientState) -> nat {
    match state {
        ClientState::New => 1,
        ClientState::Incomplete(remaining) => remaining as nat,
        ClientState::Complete => 0,
    }
}

/// One step of the decoder on the bytes that the transport has at hand.
/// Between messages it takes one byte, the opcode. Inside a payload it takes
/// what is there, up to the end of the payload. With a whole message
/// buffered it takes nothing and carries the message out.
pub open spec fn step(client: ClientView, input: Seq<u8>) -> Step {
    match client.state {
        ClientState::Complete => dispatch(client),
        _ if input.len() == 0 => Step { client: client, taken: 0, result: Ok(ReceiveResult::Idle) },
        ClientState::New => {
            let cmd = client.cmd.push(input[0]);
            Step {
                client: ClientView { state: opened(cmd[0]), cmd: cmd, tracks: client.tracks },
                taken: 1,
                result: Ok(ReceiveResult::Incomplete),
            }
        },
        ClientState::Incomplete(remaining) => {
            let count = if input.len() < remaining {
                input.len()
            } else {
                remaining as nat
            };
            Step {
                client: ClientView {
                    state: advanced(remaining, count),
                    cmd: client.cmd + input.take(count as int),
                    tracks: client.tracks,
                },
                taken: count,
                result: Ok(ReceiveResult::Incomplete),
            }
        },
    }
}

/// Orders the states by how many steps they can make without taking a byte.
pub open spec fn rank(state: ClientState) -> nat {
    match state {
        ClientState::Incomplete(_) => 2,
        ClientState::Complete => 1,
        ClientState::New => 0,
    }
}

/// A poll: steps of the decoder, each on what the one before left of the
/// input, up to the first event or error, or until bytes are needed and the
/// input has run out.
pub open spec fn run(client: ClientView, input: Seq<u8>) -> Poll
    decreases input.len(), rank(client.state),
{
    let first = step(client, input);
    match first.result {
        Err(error) => Poll { client: first.client, taken: first.taken, result: Err(error) },
        Ok(ReceiveResult::Event(event)) => Poll {
            client: first.client,
            taken: first.taken,
            result: Ok(Some(event)),
        },
        Ok(ReceiveResult::Idle) => Poll {
            client: first.client,
            taken: first.taken,
            result: Ok(None),
        },
        Ok(ReceiveResult::Incomplete) => {
            let rest = run(first.client, input.skip(first.taken as int));
            Poll { client: rest.client, taken: first.taken + rest.taken, result: rest.result }
        },
    }
}

/// Whether some track goes by the name.
pub open spec fn named(tracks: Seq<TrackView>, name: Seq<char>) -> bool {
    exists|i: int| 0 <= i < tracks.len() && tracks[i].name == name
}

/// `index` is where the first track of the name stands.
pub open spec fn first_of(tracks: Seq<TrackView>, name: Seq<char>, index: int) -> bool {
    &&& 0 <= index < tracks.len()
    &&& tracks[index].name == name
    &&& forall|j: int| 0 <= j < index ==> tracks[j].name != name
}

/// The tracks after a name was requested: a name that no track has gets a
/// new track without keys, after all the others.
pub open spec fn requested(tracks: Seq<TrackView>, name: Seq<char>) -> Seq<TrackView> {
    if named(tracks, name) {
        tracks
    } else {
        tracks.push(TrackView { name: name, keys: Seq::empty() })
    }
}

/// The session with the tracker, without its transport.
#[derive(Debug)]
pub struct Client {
    state: ClientState,
    cmd: Vec<u8>,
    tracks: Vec<Track>,
}

impl View for Client {
    type V = ClientView;

    closed spec fn view(&self) -> ClientView {
        ClientView { state: self.state, cmd: self.cmd@, tracks: views(self.tracks@) }
    }
}

impl Client {
    /// A session that has requested no track and received no byte.
    pub fn new() -> (client: Client)
        ensures
            client@ == rested(Seq::empty()),
            framed(client@),
    {
        let client = Client { state: ClientState::New, cmd: Vec::new(), tracks: Vec::new() };
        assert(client@.tracks =~= Seq::empty());
        client
    }

    /// Whether the tracker's answer to the greeting is the one that is due,
    /// byte for byte.
    pub fn handshake(reply: &[u8]) -> (accepted: bool)
        ensures
            accepted == (reply@ == "hello, demo!".spec_bytes()),
    {
        same_bytes(reply, server_greeting().as_bytes())
    }

    /// How many bytes to ask of the transport for the next step: one for an
    /// opcode, the rest of the payload inside one, none where a message
    /// waits to be carried out.
    pub fn wanted(&self) -> (count: usize)
        ensures
            count == wanted_in(self@.state),
    {
        match self.state {
            ClientState::New => 1,
            ClientState::Incomplete(remaining) => remaining,
            ClientState::Complete => 0,
        }
    }

    /// The tracks in the order in which they were requested. The index of a
    /// track here is the index by which the tracker names it.
    pub fn get_tracks(&self) -> (tracks: &[Track])
        ensures
            views(tracks@) == self@.tracks,
    {
        self.tracks.as_slice()
    }

    /// One step of the decoder on the bytes that the transport has at hand.
    /// Returns how many of them it took, and how the step ended.
    pub fn poll_event(&mut self, input: &[u8]) -> (polled: (usize, Result<ReceiveResult, Error>))
        ensures
            step(old(self)@, input@) == (Step {
                client: final(self)@,
                taken: polled.0 as nat,
                result: polled.1,
            }),
            polled.0 <= input@.len(),
            framed(old(self)@) ==> framed(final(self)@) && polled.1 != Err::<ReceiveResult, Error>(
                Error::Malformed,
            ),
    {
        proof {
            lemma_step_framed(self@, input@);
        }
        match self.state {
            ClientState::New => {
                if input.len() == 0 {
                    return (0, Ok(ReceiveResult::Idle));
                }
                self.cmd.push(input[0]);
                let length = payload_length(self.cmd[0]);
                if length > 0 {
                    self.state = ClientState::Incomplete(length);
                } else {
                    self.state = ClientState::Complete;
                }
                (1, Ok(ReceiveResult::Incomplete))
            },
            ClientState::Incomplete(bytes) => {
                if input.len() == 0 {
                    return (0, Ok(ReceiveResult::Idle));
                }
                let bytes_read = if input.len() < bytes {
                    input.len()
                } else {
                    bytes
                };
                let ghost before = self.cmd@;
                self.cmd.extend_from_slice(slice_subrange(input, 0, bytes_read));
                assert(self.cmd@ =~= before + input@.take(bytes_read as int));
                if bytes - bytes_read > 0 {
                    self.state = ClientState::Incomplete(bytes - bytes_read);
                } else {
                    self.state = ClientState::Complete;
                }
                (bytes_read, Ok(ReceiveResult::Incomplete))
            },
            ClientState::Complete => {
                let parsed = parse_command(self.cmd.as_slice());
                self.cmd.clear();
                self.state = ClientState::New;
                let command = match parsed {
                    Ok(command) => command,
                    Err(error) => {
                        return (0, Err(error));
                    },
                };
                let ghost before = self.tracks@;
                match command {
                    Command::SetKey { track, key } => {
                        let index = track as usize;
                        if index >= self.tracks.len() {
                            return (0, Err(Error::UnknownTrack(track)));
                        }
                        self.tracks[index].set_key(key);
                        assert(views(self.tracks@) =~= edited(views(before), command).unwrap());
                        (0, Ok(ReceiveResult::Incomplete))
                    },
                    Command::DeleteKey { track, row } => {
                        let index = track as usize;
                        if index >= self.tracks.len() {
                            return (0, Err(Error::UnknownTrack(track)));
                        }
                        self.tracks[index].delete_key(row);
                        assert(views(self.tracks@) =~= edited(views(before), command).unwrap());
                        (0, Ok(ReceiveResult::Incomplete))
                    },
                    Command::SetRow(row) => (0, Ok(ReceiveResult::Event(Event::SetRow(row)))),
                    Command::Pause(flag) => (0, Ok(ReceiveResult::Event(Event::Pause(flag)))),
                    Command::SaveTracks => (0, Ok(ReceiveResult::Event(Event::SaveTracks))),
                    Command::Unknown(_) => (0, Ok(ReceiveResult::Incomplete)),
                }
            },
        }
    }

    /// A poll on the bytes that the transport has at hand: steps of the
    /// decoder up to the first event or error, or until bytes are needed and
    /// none are left. Returns how many bytes it took, and the event if there
    /// is one. Messages that report nothing are carried out on the way.
    #[verifier::loop_isolation(false)]
    pub fn poll_events(&mut self, input: &[u8]) -> (polled: (usize, Result<Option<Event>, Error>))
        ensures
            run(old(self)@, input@) == (Poll {
                client: final(self)@,
                taken: polled.0 as nat,
                result: polled.1,
            }),
            polled.0 <= input@.len(),
            final(self)@.state != ClientState::Complete,
            framed(old(self)@) ==> framed(final(self)@) && polled.1 != Err::<Option<Event>, Error>(
                Error::Malformed,
            ),
    {
        proof {
            lemma_run_framed(self@, input@);
        }
        let ghost start = self@;
        let mut taken: usize = 0;
        assert(input@.skip(0) =~= input@);
        loop
            invariant
                start == old(self)@,
                taken <= input@.len(),
                run(start, input@) == (Poll {
                    client: run(self@, input@.skip(taken as int)).client,
                    taken: (taken + run(self@, input@.skip(taken as int)).taken) as nat,
                    result: run(self@, input@.skip(taken as int)).result,
                }),
            decreases input@.len() - taken, rank(self@.state),
        {
            let rest = slice_subrange(input, taken, input.len());
            assert(rest@ =~= input@.skip(taken as int));
            let (used, result) = self.poll_event(rest);
            assert(rest@.skip(used as int) =~= input@.skip(taken + used));
            taken = taken + used;
            match result {
                Err(error) => {
                    return (taken, Err(error));
                },
                Ok(ReceiveResult::Event(event)) => {
                    return (taken, Ok(Some(event)));
                },
                Ok(ReceiveResult::Idle) => {
                    return (taken, Ok(None));
                },
                Ok(ReceiveResult::Incomplete) => {},
            }
        }
    }

    /// The index of the track of a name.
    pub fn find_track(&self, name: &str) -> (found: Option<usize>)
        ensures
            match found {
                Some(index) => first_of(self@.tracks, name@, index as int),
                None => !named(self@.tracks, name@),
            },
    {
        let mut i: usize = 0;
        while i < self.tracks.len()
            invariant
                i <= self.tracks@.len(),
                forall|j: int| 0 <= j < i ==> views(self.tracks@)[j].name != name@,
            decreases self.tracks@.len() - i,
        {
            if self.tracks[i].has_name(name) {
                return Some(i);
            }
            i += 1;
        }
        None
    }

    /// The track of a name. It never makes one: see `get_track_mut`.
    pub fn get_track(&self, name: &str) -> (found: Option<&Track>)
        ensures
            match found {
                Some(track) => exists|index: int|
                    first_of(self@.tracks, name@, index) && self@.tracks[index] == track@,
                None => !named(self@.tracks, name@),
            },
    {
        match self.find_track(name) {
            Some(index) => Some(&self.tracks[index]),
            None => None,
        }
    }

    /// Requests the track of a name, and returns its index. A name that is
    /// new to the session gets a track without keys, and the request to
    /// write to the tracker comes back with the index. A name that has its
    /// track keeps it, and nothing is to be written.
    pub fn get_track_mut(&mut self, name: &str) -> (got: (usize, Option<Vec<u8>>))
        ensures
            final(self)@.state == old(self)@.state,
            final(self)@.cmd == old(self)@.cmd,
            final(self)@.tracks == requested(old(self)@.tracks, name@),
            first_of(final(self)@.tracks, name@, got.0 as int),
            named(old(self)@.tracks, name@) ==> first_of(old(self)@.tracks, name@, got.0 as int)
                && got.1 is None,
            !named(old(self)@.tracks, name@) ==> got.0 == old(self)@.tracks.len() && got.1 is Some
                && got.1.unwrap()@ == get_track_message(name.spec_bytes()),
    {
        match self.find_track(name) {
            Some(index) => (index, None),
            None => {
                let message = encode_get_track(name);
                let index = self.tracks.len();
                let ghost before = self.tracks@;
                self.tracks.push(Track::new(name));
                assert(views(self.tracks@) =~= views(before).push(
                    TrackView { name: name@, keys: Seq::empty() },
                ));
                (index, Some(message))
            },
        }
    }

    /// The request to write to the tracker so that it changes to a row.
    pub fn set_row(&self, row: u32) -> (message: Vec<u8>)
        ensures
            message@ == set_row_message(row),
    {
        encode_set_row(row)
    }
}

/// The decoder's buffer fits its state: empty between messages, a started
/// message inside a payload, a whole message where one waits.
pub open spec fn framed(client: ClientView) -> bool {
    match client.state {
        ClientState::New => client.cmd.len() == 0,
        ClientState::Incomplete(remaining) => remaining > 0 && client.cmd.len() >= 1
            && client.cmd.len() + remaining == 1 + payload_len(client.cmd[0]),
        ClientState::Complete => is_message(client.cmd),
    }
}

/// A poll that began after `count` bytes of a longer input.
pub open spec fn delayed(poll: Poll, count: nat) -> Poll {
    Poll { client: poll.client, taken: count + poll.taken, result: poll.result }
}

/// A step takes bytes from its input only, and keeps the buffer framed. On
/// a framed buffer it never finds a malformed message.
pub proof fn lemma_step_framed(client: ClientView, input: Seq<u8>)
    ensures
        step(client, input).taken <= input.len(),
        framed(client) ==> framed(step(client, input).client),
        framed(client) ==> step(client, input).result != Err::<ReceiveResult, Error>(
            Error::Malformed,
        ),
{
}

/// A poll takes bytes from its input only, keeps the buffer framed, and
/// never ends with a whole message still waiting. On a framed buffer it
/// never finds a malformed message.
pub proof fn lemma_run_framed(client: ClientView, input: Seq<u8>)
    ensures
        run(client, input).taken <= input.len(),
        run(client, input).client.state != ClientState::Complete,
        framed(client) ==> framed(run(client, input).client),
        framed(client) ==> run(client, input).result != Err::<Option<Event>, Error>(
            Error::Malformed,
        ),
    decreases input.len(), rank(client.state),
{
    let first = step(client, input);
    lemma_step_framed(client, input);
    if first.result == Ok::<ReceiveResult, Error>(ReceiveResult::Incomplete) {
        lemma_run_framed(first.client, input.skip(first.taken as int));
    }
}

/// With no bytes at hand, and no whole message waiting, nothing happens:
/// a step and a poll leave the session as it is and report nothing.
pub proof fn lemma_no_bytes(client: ClientView)
    requires
        client.state != ClientState::Complete,
    ensures
        step(client, Seq::empty()) == (Step {
            client: client,
            taken: 0,
            result: Ok(ReceiveResult::Idle),
        }),
        run(client, Seq::empty()) == (Poll { client: client, taken: 0, result: Ok(None) }),
{
}

/// What it means that a poll on `a` and `b` together agrees with a poll on
/// `a` that a poll on `b` follows.
spec fn splits(client: ClientView, a: Seq<u8>, b: Seq<u8>) -> bool {
    let head = run(client, a);
    if head.result == Ok::<Option<Event>, Error>(None) {
        head.taken == a.len() && run(client, a + b) == delayed(run(head.client, b), a.len())
    } else {
        run(client, a + b) == head
    }
}

/// Where the first step is the same with and without `b`, and the rest of
/// the poll splits, the poll splits.
proof fn lemma_split_same_step(client: ClientView, a: Seq<u8>, b: Seq<u8>)
    requires
        step(client, a + b) == step(client, a),
        step(client, a).result == Ok::<ReceiveResult, Error>(ReceiveResult::Incomplete),
        step(client, a).taken <= a.len(),
        splits(step(client, a).client, a.skip(step(client, a).taken as int), b),
    ensures
        splits(client, a, b),
{
    let first = step(client, a);
    let taken = first.taken;
    assert((a + b).skip(taken as int) =~= a.skip(taken as int) + b);
    let inner = run(first.client, a.skip(taken as int));
    assert(run(client, a) == delayed(inner, taken));
    assert(run(client, a + b) == delayed(run(first.client, a.skip(taken as int) + b), taken));
}

/// Where no bytes of `a` are there to take, the poll on `a` does nothing.
proof fn lemma_split_idle(client: ClientView, a: Seq<u8>, b: Seq<u8>)
    requires
        a.len() == 0,
        client.state != ClientState::Complete,
    ensures
        splits(client, a, b),
{
    assert(a + b =~= b);
    assert(run(client, a) == (Poll { client: client, taken: 0, result: Ok(None) }));
}

/// Where `a` ends inside a payload, the poll on `b` takes up the payload
/// where the poll on `a` left it.
proof fn lemma_split_payload(client: ClientView, a: Seq<u8>, b: Seq<u8>, remaining: usize)
    requires
        client.state == ClientState::Incomplete(remaining),
        0 < a.len() < remaining,
    ensures
        splits(client, a, b),
{
    let first = step(client, a);
    let empty = Seq::<u8>::empty();
    assert(a.skip(a.len() as int) =~= empty);
    assert(a.take(a.len() as int) =~= a);
    assert(first.client.cmd == client.cmd + a);
    assert(run(first.client, empty) == (Poll { client: first.client, taken: 0, result: Ok(None) }));
    assert(run(client, a) == (Poll { client: first.client, taken: a.len(), result: Ok(None) }));
    if b.len() == 0 {
        assert(a + b =~= a);
        assert(run(first.client, b) == (Poll { client: first.client, taken: 0, result: Ok(None) }));
    } else {
        let whole = step(client, a + b);
        let second = step(first.client, b);
        assert(whole.taken == a.len() + second.taken);
        assert((a + b).take(whole.taken as int) =~= a + b.take(second.taken as int));
        assert(client.cmd + (a + b).take(whole.taken as int) =~= (client.cmd + a) + b.take(
            second.taken as int,
        ));
        assert((a + b).skip(whole.taken as int) =~= b.skip(second.taken as int));
        assert(whole.client == second.client);
        let tail = run(second.client, b.skip(second.taken as int));
        assert(run(first.client, b) == delayed(tail, second.taken));
        assert(run(client, a + b) == delayed(tail, whole.taken));
    }
}

/// A poll does not depend on how the bytes arrive. Where a poll on `a` ends
/// in an event or an error, bytes that follow `a` change nothing of it.
/// Where it ends for want of bytes, it has taken all of `a`, and a second
/// poll on `b` ends as one poll on `a` and `b` together would.
pub proof fn lemma_run_split(client: ClientView, a: Seq<u8>, b: Seq<u8>)
    ensures
        run(client, a).result != Ok::<Option<Event>, Error>(None) ==> run(client, a + b) == run(
            client,
            a,
        ),
        run(client, a).result == Ok::<Option<Event>, Error>(None) ==> run(client, a).taken
            == a.len() && run(client, a + b) == delayed(run(run(client, a).client, b), a.len()),
    decreases a.len(), rank(client.state),
{
    let first = step(client, a);
    match client.state {
        ClientState::Complete => {
            assert(step(client, a + b) == first);
            if first.result == Ok::<ReceiveResult, Error>(ReceiveResult::Incomplete) {
                assert(a.skip(0) =~= a);
                lemma_run_split(first.client, a, b);
                lemma_split_same_step(client, a, b);
            }
        },
        ClientState::New => {
            if a.len() == 0 {
                lemma_split_idle(client, a, b);
            } else {
                assert(step(client, a + b) == first);
                lemma_run_split(first.client, a.skip(1), b);
                lemma_split_same_step(client, a, b);
            }
        },
        ClientState::Incomplete(remaining) => {
            if a.len() == 0 {
                lemma_split_idle(client, a, b);
            } else if a.len() >= remaining {
                assert((a + b).take(remaining as int) =~= a.take(remaining as int));
                assert(step(client, a + b) == first);
                lemma_run_split(first.client, a.skip(remaining as int), b);
                lemma_split_same_step(client, a, b);
            } else {
                lemma_split_payload(client, a, b, remaining);
            }
        },
    }
    assert(splits(client, a, b));
}

/// A poll that is fed its input one byte at a time: each byte in a poll of
/// its own, up to the first event or error.
pub open spec fn run_bytewise(client: ClientView, input: Seq<u8>) -> Poll
    decreases input.len(),
{
    if input.len() == 0 {
        run(client, input)
    } else {
        let first = run(client, input.take(1));
        if first.result == Ok::<Option<Event>, Error>(None) {
            delayed(run_bytewise(first.client, input.skip(1)), 1)
        } else {
            first
        }
    }
}

/// Bytes delivered one at a time decode as the same bytes delivered at once:
/// the same session afterwards, the same event or error, after as many bytes.
pub proof fn lemma_run_bytewise(client: ClientView, input: Seq<u8>)
    ensures
        run_bytewise(client, input) == run(client, input),
    decreases input.len(),
{
    if input.len() > 0 {
        let first = run(client, input.take(1));
        lemma_run_split(client, input.take(1), input.skip(1));
        assert(input.take(1) + input.skip(1) =~= input);
        if first.result == Ok::<Option<Event>, Error>(None) {
            lemma_run_bytewise(first.client, input.skip(1));
        }
    }
}

/// Between messages, the steps that take in a whole message leave it
/// buffered and waiting, with what followed it still to be read.
proof fn lemma_run_takes_message(tracks: Seq<TrackView>, message: Seq<u8>, more: Seq<u8>)
    requires
        is_message(message),
    ensures
        run(rested(tracks), message + more) == delayed(
            run(ClientView { state: ClientState::Complete, cmd: message, tracks: tracks }, more),
            message.len(),
        ),
{
    let input = message + more;
    let opcode = message[0];
    let length = payload_len(opcode);
    let start = rested(tracks);
    let first = step(start, input);
    let rest = input.skip(1);
    let whole = ClientView { state: ClientState::Complete, cmd: message, tracks: tracks };
    assert(start.cmd.push(input[0]) =~= seq![opcode]);
    assert(first.client.cmd == seq![opcode]);
    assert(run(start, input) == delayed(run(first.client, rest), 1));
    if length > 0 {
        let second = step(first.client, rest);
        assert(seq![opcode] + rest.take(length as int) =~= message);
        assert(second.client == whole);
        assert(rest.skip(length as int) =~= more);
        assert(run(first.client, rest) == delayed(run(whole, more), length));
    } else {
        assert(seq![opcode] =~= message);
        assert(first.client == whole);
        assert(rest =~= more);
    }
}

/// A poll between messages, on a whole message and what follows it, carries
/// the message out and stands between messages again. Where the message
/// reports an event or names no track, the poll ends there, after exactly
/// the bytes of the message. Otherwise it goes on with what follows.
pub proof fn lemma_run_message(tracks: Seq<TrackView>, message: Seq<u8>, more: Seq<u8>)
    requires
        is_message(message),
    ensures
        run(rested(tracks), message + more) == (match edited(tracks, command_of(message)) {
            Err(error) => Poll {
                client: rested(tracks),
                taken: message.len(),
                result: Err(error),
            },
            Ok(after) => match reported(command_of(message)) {
                ReceiveResult::Event(event) => Poll {
                    client: rested(after),
                    taken: message.len(),
                    result: Ok(Some(event)),
                },
                _ => delayed(run(rested(after), more), message.len()),
            },
        }),
{
    lemma_run_takes_message(tracks, message, more);
    let whole = ClientView { state: ClientState::Complete, cmd: message, tracks: tracks };
    let carried = step(whole, more);
    assert(carried == dispatch(whole));
    assert(more.skip(0) =~= more);
    if carried.result == Ok::<ReceiveResult, Error>(ReceiveResult::Incomplete) {
        assert(run(whole, more) == delayed(run(carried.client, more), 0));
    }
}

/// An opcode that names no inbound message is skipped as a message without
/// payload: the session stays as it is, and the bytes after the opcode are
/// read as they would be without it.
pub proof fn lemma_unknown_opcode_skipped(tracks: Seq<TrackView>, opcode: u8, more: Seq<u8>)
    requires
        command_of(seq![opcode]) == Command::Unknown(opcode),
    ensures
        is_message(seq![opcode]),
        run(rested(tracks), seq![opcode] + more) == delayed(run(rested(tracks), more), 1),
{
    lemma_run_message(tracks, seq![opcode], more);
}

/// The first track of a name stands at one index only.
pub proof fn lemma_first_of_unique(tracks: Seq<TrackView>, name: Seq<char>, i: int, j: int)
    requires
        first_of(tracks, name, i),
        first_of(tracks, name, j),
    ensures
        i == j,
{
}

/// A name that is requested twice has its track made once: the second
/// request finds the track of the first, at the same index, and changes
/// nothing.
pub proof fn lemma_requested_twice(tracks: Seq<TrackView>, name: Seq<char>, index: int)
    requires
        first_of(requested(tracks, name), name, index),
    ensures
        named(requested(tracks, name), name),
        requested(requested(tracks, name), name) == requested(tracks, name),
        named(tracks, name) ==> first_of(tracks, name, index),
        !named(tracks, name) ==> index == tracks.len(),
{
    let after = requested(tracks, name);
    assert(after[index].name == name);
}

/// The index of a track is stable: neither a request for any name nor a
/// command of the tracker moves the first track of a name.
pub proof fn lemma_index_stable(
    tracks: Seq<TrackView>,
    name: Seq<char>,
    index: int,
    other: Seq<char>,
    command: Command,
)
    requires
        first_of(tracks, name, index),
    ensures
        first_of(requested(tracks, other), name, index),
        edited(tracks, command) is Ok ==> first_of(edited(tracks, command).unwrap(), name, index),
{
}

} // verus!
