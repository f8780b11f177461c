//! What a receiver does with the bytes of a connection, step by step.
use crate::error::Error;
use crate::networking::wire;
use vstd::prelude::*;

verus! {

/// The name of a session.
#[derive(Debug, Clone, PartialEq, Eq)]
pub struct SessionId {
    pub text: String,
}

/// The name of a value that two parties of a session exchange.
#[derive(Debug, Clone, PartialEq, Eq)]
pub struct RendezvousKey {
    pub text: String,
}

/// The key under which a value of a session is stored.
pub open spec fn path(session_id: Seq<char>, rendezvous_key: Seq<char>) -> Seq<char> {
    session_id + seq!['/'] + rendezvous_key
}

/// The key under which a value of a session is stored.
pub fn compute_path(session_id: &SessionId, rendezvous_key: &RendezvousKey) -> (r: String)
    ensures
        r@ == path(session_id.text@, rendezvous_key.text@),
{
    let mut r = session_id.text.clone();
    r.append("/");
    r.append(rendezvous_key.text.as_str());
    proof {
        reveal_strlit("/");
        assert("/"@ =~= seq!['/']);
    }
    r
}

/// Values of sessions whose names have no slash do not share a key.
pub proof fn law_path_injective(s1: Seq<char>, k1: Seq<char>, s2: Seq<char>, k2: Seq<char>)
    requires
        path(s1, k1) == path(s2, k2),
        !s1.contains('/'),
        !s2.contains('/'),
    ensures
        s1 == s2,
        k1 == k2,
{
    let p = path(s1, k1);
    let q = path(s2, k2);
    assert(p[s1.len() as int] == '/');
    assert(q[s2.len() as int] == '/');
    if s1.len() < s2.len() {
        assert(q[s1.len() as int] == s2[s1.len() as int]);
        assert(s2.contains('/'));
    }
    if s2.len() < s1.len() {
        assert(p[s2.len() as int] == s1[s2.len() as int]);
        assert(s1.contains('/'));
    }
    assert(s1 =~= p.take(s1.len() as int));
    assert(s2 =~= q.take(s2.len() as int));
    assert(k1 =~= p.skip(s1.len() as int + 1));
    assert(k2 =~= q.skip(s2.len() as int + 1));
}

/// Where the receiver of a connection stands.
pub enum Connection {
    /// The length of the next payload is to be read.
    AwaitingHeader,
    /// A payload of this length is to be read.
    AwaitingPayload { size: u64 },
    /// The payload is being decoded.
    AwaitingValue,
    /// Nothing more happens.
    Closed,
}

/// What can happen to the receiver of a connection.
pub enum Event<V> {
    Header([u8; 8]),
    Payload(Vec<u8>),
    ReadFailed(String),
    Value(V),
    Undecodable(String),
}

/// What the receiver of a connection does next.
pub enum Action<V> {
    /// Read that many bytes.
    ReadPayload { size: u64 },
    /// Decode the bytes.
    Decode { raw_data: Vec<u8> },
    /// Store the value, then read the next header.
    Store { key: String, value: V },
    /// End, as the other side hung up.
    Finish,
    /// End with an error.
    Fail(Error),
}

/// The name of the session that received values belong to.
pub open spec fn default_session() -> Seq<char> {
    "session_id"@
}

/// The name under which received values are stored.
pub open spec fn default_rendezvous() -> Seq<char> {
    "1234"@
}

/// What decoding errors begin with.
pub open spec fn decode_failure() -> Seq<char> {
    "failed to deserialize moose value: "@
}

/// Where the receiver stands once it has read a header.
pub open spec fn after_header(header: Seq<u8>) -> Connection {
    Connection::AwaitingPayload { size: wire::le_value(header) as u64 }
}

impl Connection {
    /// Whether the event can happen now.
    pub open spec fn expects<V>(self, event: Event<V>) -> bool {
        match self {
            Connection::AwaitingHeader => event is Header || event is ReadFailed,
            Connection::AwaitingPayload { size } => match event {
                Event::Payload(raw_data) => raw_data@.len() == size,
                Event::ReadFailed(_) => true,
                _ => false,
            },
            Connection::AwaitingValue => event is Value || event is Undecodable,
            Connection::Closed => false,
        }
    }

    /// Whether the event leads from here to `post` and asks for the action.
    pub open spec fn steps<V>(self, event: Event<V>, post: Connection, action: Action<V>) -> bool {
        match event {
            Event::Header(header) => {
                &&& post == after_header(header@)
                &&& action matches Action::ReadPayload { size } && size == wire::le_value(header@)
            },
            Event::Payload(raw_data) => {
                &&& post == Connection::AwaitingValue
                &&& action == Action::<V>::Decode { raw_data }
            },
            Event::ReadFailed(reason) => {
                &&& post == Connection::Closed
                &&& if self is AwaitingHeader {
                    action == Action::<V>::Finish
                } else {
                    action == Action::<V>::Fail(Error::Networking(reason))
                }
            },
            Event::Value(value) => {
                &&& post == Connection::AwaitingHeader
                &&& action matches Action::Store { key, value: stored } && stored == value && key@
                    == path(default_session(), default_rendezvous())
            },
            Event::Undecodable(reason) => {
                &&& post == Connection::Closed
                &&& action matches Action::Fail(Error::Networking(message)) && message@
                    == decode_failure() + reason@
            },
        }
    }

    /// Takes an event in and says what to do next.
    pub fn step<V>(&mut self, event: Event<V>) -> (action: Action<V>)
        requires
            old(self).expects(event),
        ensures
            old(self).steps(event, *final(self), action),
    {
        match event {
            Event::Header(header) => {
                proof {
                    wire::lemma_header_fits(header@);
                }
                let size = wire::little_endian_to_u64(&header);
                *self = Connection::AwaitingPayload { size };
                Action::ReadPayload { size }
            },
            Event::Payload(raw_data) => {
                *self = Connection::AwaitingValue;
                Action::Decode { raw_data }
            },
            Event::ReadFailed(reason) => {
                let between_frames = matches!(self, Connection::AwaitingHeader);
                *self = Connection::Closed;
                if between_frames {
                    Action::Finish
                } else {
                    Action::Fail(Error::Networking(reason))
                }
            },
            Event::Value(value) => {
                *self = Connection::AwaitingHeader;
                let session_id = SessionId { text: "session_id".to_string() };
                let rendezvous_key = RendezvousKey { text: "1234".to_string() };
                Action::Store { key: compute_path(&session_id, &rendezvous_key), value }
            },
            Event::Undecodable(reason) => {
                *self = Connection::Closed;
                let mut message = "failed to deserialize moose value: ".to_string();
                message.append(reason.as_str());
                Action::Fail(Error::Networking(message))
            },
        }
    }
}

/// The payloads that a receiver in this state hands on to be decoded, if these bytes come and no
/// more, and if all of them decode.
pub open spec fn received(state: Connection, stream: Seq<u8>) -> Seq<Seq<u8>>
    decreases stream.len(), (if state is AwaitingPayload { 1nat } else { 0nat }),
{
    match state {
        Connection::AwaitingHeader => if stream.len() < wire::HEADER_LEN {
            Seq::empty()
        } else {
            received(
                after_header(stream.take(wire::HEADER_LEN as int)),
                stream.skip(wire::HEADER_LEN as int),
            )
        },
        Connection::AwaitingPayload { size } => if stream.len() < size {
            Seq::empty()
        } else {
            seq![stream.take(size as int)] + received(
                Connection::AwaitingHeader,
                stream.skip(size as int),
            )
        },
        _ => Seq::empty(),
    }
}

/// Whether the event is what comes of reading from a stream with these bytes left.
pub open spec fn is_read<V>(state: Connection, stream: Seq<u8>, event: Event<V>) -> bool {
    match event {
        Event::Header(header) => {
            &&& wire::HEADER_LEN <= stream.len()
            &&& header@ == stream.take(wire::HEADER_LEN as int)
        },
        Event::Payload(raw_data) => {
            &&& raw_data@.len() <= stream.len()
            &&& raw_data@ == stream.take(raw_data@.len() as int)
        },
        Event::ReadFailed(_) => match state {
            Connection::AwaitingHeader => stream.len() < wire::HEADER_LEN,
            Connection::AwaitingPayload { size } => stream.len() < size,
            _ => false,
        },
        _ => false,
    }
}

/// A receiver that reads from a stream, step by step, hands on the payloads of the stream: a
/// header decides how the rest is read, each payload is the next one and comes before those of the
/// rest, and where the bytes run out there is none.
pub proof fn law_receiver_follows_stream<V>(
    state: Connection,
    stream: Seq<u8>,
    event: Event<V>,
    post: Connection,
    action: Action<V>,
)
    requires
        state.expects(event),
        is_read(state, stream, event),
        state.steps(event, post, action),
    ensures
        match event {
            Event::Header(_) => received(state, stream) == received(
                post,
                stream.skip(wire::HEADER_LEN as int),
            ),
            Event::Payload(raw_data) => {
                &&& action == Action::<V>::Decode { raw_data }
                &&& received(state, stream) == seq![raw_data@] + received(
                    Connection::AwaitingHeader,
                    stream.skip(raw_data@.len() as int),
                )
            },
            _ => received(state, stream).len() == 0,
        },
{
}

/// What is sent for payloads one after another.
pub open spec fn sent(payloads: Seq<Seq<u8>>) -> Seq<u8>
    decreases payloads.len(),
{
    if payloads.len() == 0 {
        Seq::empty()
    } else {
        wire::frame(payloads[0]) + sent(payloads.drop_first())
    }
}

/// A stream that is cut off inside a frame delivers, unchanged and in order, the payloads of the
/// frames before it.
pub proof fn law_cut_stream(payloads: Seq<Seq<u8>>, next: Seq<u8>, cut: int)
    requires
        forall|i: int|
            0 <= i < payloads.len() ==> (#[trigger] payloads[i]).len() < wire::pow256(8),
        next.len() < wire::pow256(8),
        0 <= cut < wire::frame(next).len(),
    ensures
        received(Connection::AwaitingHeader, sent(payloads) + wire::frame(next).take(cut))
            == payloads,
    decreases payloads.len(),
{
    let tail = wire::frame(next).take(cut);
    let stream = sent(payloads) + tail;
    if payloads.len() == 0 {
        assert(stream =~= tail);
        wire::law_write_then_read(next.len(), 8);
        if tail.len() >= 8 {
            assert(tail.take(8) =~= wire::le_bytes(next.len(), 8));
            wire::lemma_header_fits(tail.take(8));
            assert(after_header(tail.take(8)) == Connection::AwaitingPayload {
                size: next.len() as u64,
            });
            assert(received(after_header(tail.take(8)), tail.skip(8)) =~= Seq::<Seq<u8>>::empty());
        }
        assert(received(Connection::AwaitingHeader, stream) =~= payloads);
    } else {
        let p = payloads[0];
        let rest = payloads.drop_first();
        assert forall|i: int| 0 <= i < rest.len() implies (#[trigger] rest[i]).len()
            < wire::pow256(8) by {
            assert(rest[i] == payloads[i + 1]);
        }
        law_cut_stream(rest, next, cut);
        wire::law_write_then_read(p.len(), 8);
        let header = wire::le_bytes(p.len(), 8);
        assert(stream.take(8) =~= header);
        wire::lemma_header_fits(header);
        let after = stream.skip(8);
        assert(after.take(p.len() as int) =~= p);
        assert(after.skip(p.len() as int) =~= sent(rest) + tail);
        assert(after_header(header) == Connection::AwaitingPayload { size: p.len() as u64 });
        assert(received(Connection::AwaitingHeader, stream) =~= payloads) by {
            assert(received(after_header(header), after) == seq![p] + rest);
            assert(seq![p] + rest =~= payloads);
        }
    }
}

/// What is sent is received: the payloads of a stream of frames come out unchanged and in order.
pub proof fn law_sent_is_received(payloads: Seq<Seq<u8>>)
    requires
        forall|i: int|
            0 <= i < payloads.len() ==> (#[trigger] payloads[i]).len() < wire::pow256(8),
    ensures
        received(Connection::AwaitingHeader, sent(payloads)) == payloads,
{
    let none = Seq::<u8>::empty();
    reveal_with_fuel(wire::pow256, 9);
    wire::law_write_then_read(0, 8);
    assert(wire::frame(none).len() > 0);
    law_cut_stream(payloads, none, 0);
    assert(sent(payloads) + wire::frame(none).take(0) =~= sent(payloads));
}

/// A key is the session's name, a slash, and the value's name.
pub proof fn law_path(s: Seq<char>, k: Seq<char>)
    ensures
        path(s, k).len() == s.len() + 1 + k.len(),
        path(s, k).take(s.len() as int) == s,
        path(s, k)[s.len() as int] == '/',
        path(s, k).skip(s.len() as int + 1) == k,
{
    assert(path(s, k).take(s.len() as int) =~= s);
    assert(path(s, k).skip(s.len() as int + 1) =~= k);
}

/// What a receiver takes in: a header or a failure where it reads a header, a payload of the length
/// that it waits for or a failure where it reads a payload, and the outcome where it decodes.
pub proof fn law_expected<V>(
    header: [u8; 8],
    raw_data: Vec<u8>,
    reason: String,
    value: V,
    size: u64,
)
    ensures
        Connection::AwaitingHeader.expects(Event::<V>::Header(header)),
        Connection::AwaitingHeader.expects(Event::<V>::ReadFailed(reason)),
        (Connection::AwaitingPayload { size }).expects(Event::<V>::Payload(raw_data))
            <==> raw_data@.len() == size,
        (Connection::AwaitingPayload { size }).expects(Event::<V>::ReadFailed(reason)),
        Connection::AwaitingValue.expects(Event::<V>::Value(value)),
        Connection::AwaitingValue.expects(Event::<V>::Undecodable(reason)),
{
}

/// After a header the receiver asks for as many bytes as it waits for, and that is the number that
/// the header stands for.
pub proof fn law_header_step<V>(
    state: Connection,
    header: [u8; 8],
    post: Connection,
    action: Action<V>,
)
    requires
        state.steps(Event::<V>::Header(header), post, action),
    ensures
        action matches Action::ReadPayload { size } && post == (Connection::AwaitingPayload {
            size,
        }) && size == header@[0] + 0x100 * header@[1] + 0x1_0000 * header@[2] + 0x100_0000
            * header@[3] + 0x1_0000_0000 * header@[4] + 0x100_0000_0000 * header@[5]
            + 0x1_0000_0000_0000 * header@[6] + 0x100_0000_0000_0000 * header@[7],
{
    wire::law_header_value(header@);
    wire::lemma_header_fits(header@);
}

/// Where a stream goes on with a frame, the header makes the receiver ask for the payload: reading
/// as many bytes as the action says gives the payload, and leaves what follows the frame.
pub proof fn law_frame_is_read<V>(
    payload: Seq<u8>,
    rest: Seq<u8>,
    state: Connection,
    header: [u8; 8],
    post: Connection,
    action: Action<V>,
)
    requires
        payload.len() <= u64::MAX,
        header@ == (wire::frame(payload) + rest).take(8),
        state.steps(Event::<V>::Header(header), post, action),
    ensures
        action matches Action::ReadPayload { size } && {
            let after = (wire::frame(payload) + rest).skip(8);
            &&& post == (Connection::AwaitingPayload { size })
            &&& size == payload.len()
            &&& after.take(size as int) == payload
            &&& after.skip(size as int) == rest
        },
{
    let stream = wire::frame(payload) + rest;
    let f = wire::frame(payload);
    wire::law_frame(payload);
    law_header_step(state, header, post, action);
    assert(stream.take(8) =~= f.take(8));
    assert forall|i: int| 0 <= i < 8 implies header@[i] == f[i] by {
        assert(stream.take(8)[i] == f[i]);
    }
    let after = stream.skip(8);
    assert(after =~= payload + rest) by {
        assert(f.skip(8) == payload);
        assert forall|i: int| 0 <= i < payload.len() implies after[i] == payload[i] by {
            assert(f.skip(8)[i] == f[i + 8]);
        }
    }
    assert(after.take(payload.len() as int) =~= payload);
    assert(after.skip(payload.len() as int) =~= rest);
}

/// A payload is decoded as it came.
pub proof fn law_payload_step<V>(
    state: Connection,
    raw_data: Vec<u8>,
    post: Connection,
    action: Action<V>,
)
    requires
        state.steps(Event::<V>::Payload(raw_data), post, action),
    ensures
        post == Connection::AwaitingValue,
        action matches Action::Decode { raw_data: given } && given == raw_data,
{
}

/// A value is stored as it was decoded, under the one key that there is so far, and the next header
/// is waited for.
pub proof fn law_value_step<V>(state: Connection, value: V, post: Connection, action: Action<V>)
    requires
        state.steps(Event::<V>::Value(value), post, action),
    ensures
        post == Connection::AwaitingHeader,
        action matches Action::Store { key, value: stored } && key@ == "session_id/1234"@ && stored
            == value,
{
    reveal_strlit("session_id");
    reveal_strlit("1234");
    reveal_strlit("session_id/1234");
    assert("session_id"@ + seq!['/'] + "1234"@ =~= "session_id/1234"@);
}

/// A failure ends the connection: quietly where a header was to be read, as the other side hung up,
/// and with an error that gives the reason everywhere else.
pub proof fn law_failure_step<V>(
    state: Connection,
    reason: String,
    post: Connection,
    action: Action<V>,
)
    ensures
        state.steps(Event::<V>::ReadFailed(reason), post, action) ==> post == Connection::Closed,
        state.steps(Event::<V>::ReadFailed(reason), post, action) && state
            == Connection::AwaitingHeader ==> action is Finish,
        state.steps(Event::<V>::ReadFailed(reason), post, action) && state
            != Connection::AwaitingHeader ==> (action matches Action::Fail(
            Error::Networking(message),
        ) && message == reason),
        state.steps(Event::<V>::Undecodable(reason), post, action) ==> post == Connection::Closed
            && (action matches Action::Fail(Error::Networking(message)) && message@
            == "failed to deserialize moose value: "@ + reason@),
{
}

/// Payloads are sent in the order in which they come, each in a frame of its own.
pub proof fn law_sent(payload: Seq<u8>, payloads: Seq<Seq<u8>>)
    ensures
        sent(Seq::empty()) == Seq::<u8>::empty(),
        sent(seq![payload] + payloads) == wire::frame(payload) + sent(payloads),
{
    assert((seq![payload] + payloads).drop_first() =~= payloads);
}

} // verus!
