//! Minimal ZeroMQ subscriber (ZMTP 3.0, NULL mechanism).
//!
//! Implements only what is needed to connect a SUB socket to a PUB peer,
//! subscribe to topics, and receive messages. Anything else (REQ/REP, CURVE,
//! PLAIN, monitoring, multipart sending, etc.) is intentionally absent.
//!
//! The subscriber does no I/O. It says what to do next on its socket
//! ([`Subscriber::action`]) and is told how that went
//! ([`Subscriber::on_written`], [`Subscriber::on_read`],
//! [`Subscriber::on_failed`]).
use vstd::prelude::*;

verus! {

/// Frame flag: another frame of the same message follows.
pub const FLAG_MORE: u8 = 0x01;

/// Frame flag: the length is written in eight bytes, not in one.
pub const FLAG_LONG: u8 = 0x02;

/// Frame flag: the frame is a command, not part of a message.
pub const FLAG_COMMAND: u8 = 0x04;

/// Length of a greeting.
pub const GREETING_LEN: usize = 64;

/// Our greeting: the signature (0xFF, eight zero bytes, 0x7F), version 3.0
/// (minor 0 keeps SUBSCRIBE in pseudo-frame form, which every peer accepts), the
/// mechanism "NULL" padded to 20 bytes, as-server 0 and 31 bytes of filler.
pub const GREETING: [u8; GREETING_LEN] = [
    0xff, 0, 0, 0, 0, 0, 0, 0, 0, 0x7f, 0x03, 0x00, 0x4e, 0x55, 0x4c, 0x4c,
    0, 0, 0, 0, 0, 0, 0, 0, 0, 0, 0, 0, 0, 0, 0, 0,
    0, 0, 0, 0, 0, 0, 0, 0, 0, 0, 0, 0, 0, 0, 0, 0,
    0, 0, 0, 0, 0, 0, 0, 0, 0, 0, 0, 0, 0, 0, 0, 0,
];

/// What can go wrong on a connection.
#[derive(Debug, PartialEq, Eq)]
pub enum Error<E> {
    /// The socket failed.
    Io(E),
    /// The peer closed the connection.
    UnexpectedEof,
    /// The peer does not speak this protocol, or an older version of it.
    InvalidGreeting,
    /// The peer wants another security mechanism.
    UnsupportedMechanism,
    /// The peer did not answer with a command.
    UnexpectedCommand,
    /// The peer announced a frame above the limit.
    FrameTooLarge,
}

/// `n` as `k` bytes, the highest first.
pub open spec fn be_bytes(n: nat, k: nat) -> Seq<u8>
    decreases k,
{
    if k == 0 {
        Seq::empty()
    } else {
        be_bytes(n / 256, (k - 1) as nat).push((n % 256) as u8)
    }
}

/// The number that some bytes stand for, the highest first.
pub open spec fn be_value(bytes: Seq<u8>) -> nat
    decreases bytes.len(),
{
    if bytes.len() == 0 {
        0
    } else {
        be_value(bytes.drop_last()) * 256 + bytes.last() as nat
    }
}

/// A frame as it can stand on a stream: whether its length is written in eight
/// bytes is up to the sender, but a length above 255 fits in no less.
pub struct WireFrame {
    pub flags: u8,
    pub long: bool,
    pub body: Seq<u8>,
}

impl WireFrame {
    /// Whether the length fits in the form that it is written in.
    pub open spec fn wf(self) -> bool {
        self.body.len() <= if self.long {
            u64::MAX as nat
        } else {
            u8::MAX as nat
        }
    }

    /// The flags as they are written: the one for the form of the length goes by
    /// that form.
    pub open spec fn wire_flags(self) -> u8 {
        if self.long {
            self.flags | FLAG_LONG
        } else {
            self.flags & !FLAG_LONG
        }
    }

    /// The header: the flags, then the length.
    pub open spec fn head(self) -> Seq<u8> {
        if self.long {
            seq![self.wire_flags()] + be_bytes(self.body.len(), 8)
        } else {
            seq![self.wire_flags(), self.body.len() as u8]
        }
    }

    /// All bytes of the frame.
    pub open spec fn bytes(self) -> Seq<u8> {
        self.head() + self.body
    }
}

/// The frame that is sent for some flags and a body: its length is in the
/// shortest form.
pub open spec fn sent_frame(flags: u8, body: Seq<u8>) -> WireFrame {
    WireFrame { flags, long: body.len() > u8::MAX, body }
}

/// The bytes of a frame that is sent: the flags and the length, then the body. A
/// body of up to 255 bytes has its length in one byte.
pub open spec fn frame_bytes(flags: u8, body: Seq<u8>) -> Seq<u8> {
    sent_frame(flags, body).bytes()
}

/// What the bytes seen so far make of a frame.
#[verifier::ext_equal]
pub enum Frame<B> {
    /// This many more bytes are needed to go on.
    More(usize),
    /// The frame is above the limit.
    TooLarge,
    /// A whole frame.
    Whole { flags: u8, body: B },
}

/// The length of a frame's header.
pub open spec fn head_len(flags: u8) -> nat {
    if flags & FLAG_LONG != 0 {
        9
    } else {
        2
    }
}

/// The length of the body that a whole header announces.
pub open spec fn announced_len(seen: Seq<u8>) -> nat {
    if seen[0] & FLAG_LONG != 0 {
        be_value(seen.subrange(1, 9))
    } else {
        seen[1] as nat
    }
}

/// What the bytes seen so far make of a frame, where `max` is the limit on its
/// body: first the flags are needed, then the length, and only when that is
/// within the limit the body.
pub open spec fn frame_status(seen: Seq<u8>, max: usize) -> Frame<Seq<u8>> {
    if seen.len() == 0 {
        Frame::More(1)
    } else {
        let head = head_len(seen[0]);
        if seen.len() < head {
            Frame::More((head - seen.len()) as usize)
        } else {
            let len = announced_len(seen);
            if len > max {
                Frame::TooLarge
            } else if seen.len() < head + len {
                Frame::More((head + len - seen.len()) as usize)
            } else {
                Frame::Whole {
                    flags: seen[0],
                    body: seen.subrange(head as int, (head + len) as int),
                }
            }
        }
    }
}

/// A frame as plain values.
pub open spec fn frame_view(frame: Frame<Vec<u8>>) -> Frame<Seq<u8>> {
    match frame {
        Frame::More(n) => Frame::More(n),
        Frame::TooLarge => Frame::TooLarge,
        Frame::Whole { flags, body } => Frame::Whole { flags, body: body@ },
    }
}

/// Bytes stand for a number below 256 to the power of their count.
proof fn lemma_be_value_bound(bytes: Seq<u8>)
    ensures
        bytes.len() <= 8 ==> be_value(bytes) < 0x1_0000_0000_0000_0000,
        bytes.len() <= 7 ==> be_value(bytes) < 0x100_0000_0000_0000,
        bytes.len() <= 6 ==> be_value(bytes) < 0x1_0000_0000_0000,
        bytes.len() <= 5 ==> be_value(bytes) < 0x100_0000_0000,
        bytes.len() <= 4 ==> be_value(bytes) < 0x1_0000_0000,
        bytes.len() <= 3 ==> be_value(bytes) < 0x100_0000,
        bytes.len() <= 2 ==> be_value(bytes) < 0x1_0000,
        bytes.len() <= 1 ==> be_value(bytes) < 0x100,
        bytes.len() == 0 ==> be_value(bytes) == 0,
    decreases bytes.len(),
{
    if bytes.len() > 0 {
        lemma_be_value_bound(bytes.drop_last());
    }
}

/// The number in eight bytes.
fn read_be64(bytes: &[u8]) -> (r: u64)
    requires
        bytes@.len() == 8,
    ensures
        r == be_value(bytes@),
{
    let mut value: u64 = 0;
    let mut i: usize = 0;
    assert(bytes@.take(0) =~= Seq::empty());
    while i < 8
        invariant
            bytes@.len() == 8,
            i <= 8,
            value == be_value(bytes@.take(i as int)),
        decreases 8 - i,
    {
        proof {
            lemma_be_value_bound(bytes@.take(i as int));
            assert(bytes@.take(i + 1).drop_last() =~= bytes@.take(i as int));
            assert(bytes@.take(i + 1).last() == bytes@[i as int]);
        }
        value = value * 256 + bytes[i] as u64;
        i = i + 1;
    }
    assert(bytes@.take(8) =~= bytes@);
    value
}

/// What the bytes seen so far make of a frame.
pub fn read_frame(seen: &[u8], max: usize) -> (r: Frame<Vec<u8>>)
    ensures
        frame_view(r) == frame_status(seen@, max),
{
    let n: usize = seen.len();
    if n == 0 {
        return Frame::More(1);
    }
    let flags: u8 = seen[0];
    let head: usize = if flags & FLAG_LONG != 0 {
        9
    } else {
        2
    };
    if n < head {
        return Frame::More(head - n);
    }
    let announced: u64 = if flags & FLAG_LONG != 0 {
        read_be64(&seen[1..9])
    } else {
        seen[1] as u64
    };
    if announced > max as u64 {
        return Frame::TooLarge;
    }
    let len: usize = announced as usize;
    if n - head < len {
        return Frame::More(len - (n - head));
    }
    let mut body: Vec<u8> = Vec::new();
    body.extend_from_slice(&seen[head..head + len]);
    assert(body@ =~= seen@.subrange(head as int, (head + len) as int));
    Frame::Whole { flags, body }
}

/// Append the lowest `k` bytes of `n`, the highest first.
fn push_be(out: &mut Vec<u8>, n: u64, k: usize)
    ensures
        final(out)@ == old(out)@ + be_bytes(n as nat, k as nat),
    decreases k,
{
    if k > 0 {
        push_be(out, n / 256, k - 1);
        out.push((n % 256) as u8);
    }
    assert(out@ =~= old(out)@ + be_bytes(n as nat, k as nat));
}

/// The bytes to send for a frame.
pub fn encode_frame(flags: u8, body: &[u8]) -> (r: Vec<u8>)
    ensures
        r@ == frame_bytes(flags, body@),
{
    let mut out: Vec<u8> = Vec::new();
    if body.len() <= u8::MAX as usize {
        out.push(flags & !FLAG_LONG);
        out.push(body.len() as u8);
    } else {
        out.push(flags | FLAG_LONG);
        push_be(&mut out, body.len() as u64, 8);
    }
    out.extend_from_slice(body);
    assert(out@ =~= frame_bytes(flags, body@));
    out
}

/// A metadata property: the length of the name in one byte, the name, the
/// length of the value in four bytes, the value.
pub open spec fn property(name: Seq<u8>, value: Seq<u8>) -> Seq<u8> {
    seq![name.len() as u8] + name + be_bytes(value.len() as u32 as nat, 4) + value
}

/// "READY"
pub const READY: [u8; 5] = [0x52, 0x45, 0x41, 0x44, 0x59];

/// "Socket-Type"
pub const SOCKET_TYPE: [u8; 11] = [
    0x53, 0x6f, 0x63, 0x6b, 0x65, 0x74, 0x2d, 0x54, 0x79, 0x70, 0x65,
];

/// "SUB"
pub const SUB: [u8; 3] = [0x53, 0x55, 0x42];

/// The body of the READY command: the length of its name, its name, and the
/// socket type as its one property.
pub open spec fn ready_body() -> Seq<u8> {
    seq![5u8] + READY@ + property(SOCKET_TYPE@, SUB@)
}

/// Append a metadata property.
pub fn push_property(out: &mut Vec<u8>, name: &[u8], value: &[u8])
    ensures
        final(out)@ == old(out)@ + property(name@, value@),
{
    out.push(name.len() as u8);
    out.extend_from_slice(name);
    push_be(out, value.len() as u32 as u64, 4);
    out.extend_from_slice(value);
    assert(out@ =~= old(out)@ + property(name@, value@));
}

/// The body of the READY command.
pub fn build_ready_body() -> (r: Vec<u8>)
    ensures
        r@ == ready_body(),
{
    let mut body: Vec<u8> = Vec::new();
    body.push(5);
    body.extend_from_slice(READY.as_slice());
    push_property(&mut body, SOCKET_TYPE.as_slice(), SUB.as_slice());
    assert(body@ =~= ready_body());
    body
}

/// What is wrong with the greeting of a peer, if anything.
pub open spec fn greeting_fault<E>(peer: Seq<u8>) -> Option<Error<E>> {
    if peer[0] != 0xff || peer[9] != 0x7f || peer[10] < 3 {
        Some(Error::InvalidGreeting)
    } else if peer.subrange(12, 16) != seq![0x4eu8, 0x55, 0x4c, 0x4c] {
        Some(Error::UnsupportedMechanism)
    } else {
        None
    }
}

/// Check the greeting of a peer: the signature, at least version 3, and the
/// mechanism "NULL".
pub fn check_greeting<E>(peer: &[u8]) -> (r: Result<(), Error<E>>)
    requires
        peer@.len() == GREETING_LEN,
    ensures
        match greeting_fault::<E>(peer@) {
            None => r is Ok,
            Some(e) => r == Err::<(), Error<E>>(e),
        },
{
    if peer[0] != 0xff || peer[9] != 0x7f {
        return Err(Error::InvalidGreeting);
    }
    if peer[10] < 3 {
        return Err(Error::InvalidGreeting);
    }
    let ghost name = peer@.subrange(12, 16);
    if peer[12] != 0x4e || peer[13] != 0x55 || peer[14] != 0x4c || peer[15] != 0x4c {
        assert(name[0] == peer@[12] && name[1] == peer@[13] && name[2] == peer@[14] && name[3]
            == peer@[15]);
        return Err(Error::UnsupportedMechanism);
    }
    assert(name =~= seq![0x4eu8, 0x55, 0x4c, 0x4c]);
    Ok(())
}

/// Where in the life of a connection a subscriber is.
#[derive(Debug, Clone, Copy, PartialEq, Eq, Structural)]
pub enum Phase {
    /// Our greeting is to be sent.
    SendGreeting,
    /// The greeting of the peer is being read.
    ReadGreeting,
    /// Our READY command is to be sent.
    SendReady,
    /// The READY command of the peer is being read.
    ReadReady,
    /// The handshake is done; nothing is being read.
    Open,
    /// A message is being read.
    Receiving,
    /// The handshake failed.
    Closed,
}

/// What to do next on the socket, with bytes in `B`.
#[derive(Debug, PartialEq, Eq)]
pub enum Action<B> {
    /// Write all of these bytes, and flush.
    Write(B),
    /// Read at least one byte and at most this many.
    Read(usize),
    /// Nothing.
    Idle,
}

/// What some bytes from the peer led to, with messages in `M`.
#[derive(Debug, PartialEq, Eq)]
pub enum Outcome<M> {
    /// Go on with the next action.
    Pending,
    /// The handshake is done.
    Connected,
    /// A whole message, as its frames in order.
    Message(M),
}

/// The state of a connection.
#[verifier::ext_equal]
pub struct Link {
    pub phase: Phase,
    /// The bytes of the greeting or frame that is being read.
    pub seen: Seq<u8>,
    /// The frames of the message that is being read.
    pub frames: Seq<Seq<u8>>,
    /// The limit on the body of a frame.
    pub max: usize,
}

/// A connection before the handshake.
pub open spec fn link_start(max: usize) -> Link {
    Link { phase: Phase::SendGreeting, seen: Seq::empty(), frames: Seq::empty(), max }
}

/// What is read is never complete: it is taken out at once. Nothing is kept
/// while nothing is being read.
pub open spec fn link_wf(l: Link) -> bool {
    match l.phase {
        Phase::ReadGreeting => l.seen.len() < GREETING_LEN && l.frames.len() == 0,
        Phase::ReadReady => frame_status(l.seen, l.max) is More && l.frames.len() == 0,
        Phase::Receiving => frame_status(l.seen, l.max) is More,
        _ => l.seen.len() == 0 && l.frames.len() == 0,
    }
}

/// What to do next on the socket.
pub open spec fn todo(l: Link) -> Action<Seq<u8>> {
    match l.phase {
        Phase::SendGreeting => Action::Write(GREETING@),
        Phase::ReadGreeting => Action::Read((GREETING_LEN - l.seen.len()) as usize),
        Phase::SendReady => Action::Write(frame_bytes(FLAG_COMMAND, ready_body())),
        Phase::ReadReady | Phase::Receiving => match frame_status(l.seen, l.max) {
            Frame::More(n) => Action::Read(n),
            _ => Action::Idle,
        },
        Phase::Open | Phase::Closed => Action::Idle,
    }
}

/// After a failure: a failed handshake is final, and a message that was being
/// read is dropped.
pub open spec fn after_failure(l: Link) -> Link {
    Link {
        phase: if l.phase == Phase::Receiving {
            Phase::Open
        } else {
            Phase::Closed
        },
        seen: Seq::empty(),
        frames: Seq::empty(),
        ..l
    }
}

/// After a write went out.
pub open spec fn after_write(l: Link) -> Link {
    Link {
        phase: match l.phase {
            Phase::SendGreeting => Phase::ReadGreeting,
            Phase::SendReady => Phase::ReadReady,
            phase => phase,
        },
        ..l
    }
}

/// The state after the socket gave `bytes`.
pub open spec fn after_read(l: Link, bytes: Seq<u8>) -> Link {
    let seen = l.seen + bytes;
    let more = Link { seen, ..l };
    let next = Link { seen: Seq::empty(), ..l };
    if bytes.len() == 0 {
        after_failure(l)
    } else {
        match l.phase {
            Phase::ReadGreeting => if seen.len() < GREETING_LEN {
                more
            } else if greeting_fault::<()>(seen) is None {
                Link { phase: Phase::SendReady, ..next }
            } else {
                after_failure(l)
            },
            Phase::ReadReady => match frame_status(seen, l.max) {
                Frame::More(_) => more,
                Frame::TooLarge => after_failure(l),
                Frame::Whole { flags, .. } => if flags & FLAG_COMMAND != 0 {
                    Link { phase: Phase::Open, ..next }
                } else {
                    after_failure(l)
                },
            },
            Phase::Receiving => match frame_status(seen, l.max) {
                Frame::More(_) => more,
                Frame::TooLarge => after_failure(l),
                Frame::Whole { flags, body } => if flags & FLAG_COMMAND != 0 {
                    next
                } else if flags & FLAG_MORE != 0 {
                    Link { frames: l.frames.push(body), ..next }
                } else {
                    Link { phase: Phase::Open, frames: Seq::empty(), ..next }
                },
            },
            _ => l,
        }
    }
}

/// What `bytes` from the socket lead to. No bytes are the end of the stream.
/// Command frames are skipped while a message is read.
pub open spec fn read_outcome<E>(l: Link, bytes: Seq<u8>) -> Result<
    Outcome<Seq<Seq<u8>>>,
    Error<E>,
> {
    let seen = l.seen + bytes;
    if bytes.len() == 0 {
        Err(Error::UnexpectedEof)
    } else {
        match l.phase {
            Phase::ReadGreeting => if seen.len() < GREETING_LEN {
                Ok(Outcome::Pending)
            } else {
                match greeting_fault::<E>(seen) {
                    None => Ok(Outcome::Pending),
                    Some(e) => Err(e),
                }
            },
            Phase::ReadReady => match frame_status(seen, l.max) {
                Frame::More(_) => Ok(Outcome::Pending),
                Frame::TooLarge => Err(Error::FrameTooLarge),
                Frame::Whole { flags, .. } => if flags & FLAG_COMMAND != 0 {
                    Ok(Outcome::Connected)
                } else {
                    Err(Error::UnexpectedCommand)
                },
            },
            Phase::Receiving => match frame_status(seen, l.max) {
                Frame::More(_) => Ok(Outcome::Pending),
                Frame::TooLarge => Err(Error::FrameTooLarge),
                Frame::Whole { flags, body } => if flags & FLAG_COMMAND != 0 || flags & FLAG_MORE
                    != 0 {
                    Ok(Outcome::Pending)
                } else {
                    Ok(Outcome::Message(l.frames.push(body)))
                },
            },
            _ => Ok(Outcome::Pending),
        }
    }
}

/// The frames of a message as plain values.
pub open spec fn bodies(frames: Seq<Vec<u8>>) -> Seq<Seq<u8>> {
    frames.map_values(|f: Vec<u8>| f@)
}

/// An action as plain values.
pub open spec fn action_view(action: Action<Vec<u8>>) -> Action<Seq<u8>> {
    match action {
        Action::Write(bytes) => Action::Write(bytes@),
        Action::Read(n) => Action::Read(n),
        Action::Idle => Action::Idle,
    }
}

/// An outcome as plain values.
pub open spec fn outcome_view<E>(r: Result<Outcome<Vec<Vec<u8>>>, Error<E>>) -> Result<
    Outcome<Seq<Seq<u8>>>,
    Error<E>,
> {
    match r {
        Ok(Outcome::Pending) => Ok(Outcome::Pending),
        Ok(Outcome::Connected) => Ok(Outcome::Connected),
        Ok(Outcome::Message(frames)) => Ok(Outcome::Message(bodies(frames@))),
        Err(e) => Err(e),
    }
}

/// The bytes that subscribe to a topic prefix or drop it, where `op` says which.
pub open spec fn subscription(op: u8, topic: Seq<u8>) -> Seq<u8> {
    frame_bytes(0, seq![op] + topic)
}

/// A SUB socket on top of a stream `S`.
pub struct Subscriber<S> {
    socket: S,
    max_frame_size: usize,
    phase: Phase,
    seen: Vec<u8>,
    frames: Vec<Vec<u8>>,
}

impl<S> View for Subscriber<S> {
    type V = Link;

    closed spec fn view(&self) -> Link {
        Link {
            phase: self.phase,
            seen: self.seen@,
            frames: bodies(self.frames@),
            max: self.max_frame_size,
        }
    }
}

impl<S> Subscriber<S> {
    /// The stream that it was made with.
    pub closed spec fn stream(&self) -> S {
        self.socket
    }

    /// A subscriber on an already-connected stream, before the greeting and the
    /// NULL handshake. `max_frame_size` caps the size of any single frame that
    /// it will accept.
    pub fn new(socket: S, max_frame_size: usize) -> (r: Self)
        ensures
            r@ == link_start(max_frame_size),
            r.stream() == socket,
            link_wf(r@),
    {
        let r = Subscriber {
            socket,
            max_frame_size,
            phase: Phase::SendGreeting,
            seen: Vec::new(),
            frames: Vec::new(),
        };
        assert(r@ =~= link_start(max_frame_size));
        r
    }

    /// The stream, for doing what [`Subscriber::action`] says.
    pub fn socket(&mut self) -> (r: &mut S)
        ensures
            *r == old(self).stream(),
            final(self)@ == old(self)@,
            final(self).stream() == *final(r),
    {
        &mut self.socket
    }

    /// What to do next on the socket.
    pub fn action(&self) -> (r: Action<Vec<u8>>)
        requires
            link_wf(self@),
        ensures
            action_view(r) == todo(self@),
    {
        match self.phase {
            Phase::SendGreeting => {
                let mut out: Vec<u8> = Vec::new();
                out.extend_from_slice(GREETING.as_slice());
                assert(out@ =~= GREETING@);
                Action::Write(out)
            },
            Phase::ReadGreeting => Action::Read(GREETING_LEN - self.seen.len()),
            Phase::SendReady => {
                let ready = build_ready_body();
                Action::Write(encode_frame(FLAG_COMMAND, ready.as_slice()))
            },
            Phase::ReadReady | Phase::Receiving => {
                match read_frame(self.seen.as_slice(), self.max_frame_size) {
                    Frame::More(n) => Action::Read(n),
                    _ => Action::Idle,
                }
            },
            Phase::Open | Phase::Closed => Action::Idle,
        }
    }

    /// The write that was asked for went out.
    pub fn on_written(&mut self)
        requires
            link_wf(old(self)@),
        ensures
            final(self)@ == after_write(old(self)@),
            final(self).stream() == old(self).stream(),
            link_wf(final(self)@),
    {
        match self.phase {
            Phase::SendGreeting => {
                self.phase = Phase::ReadGreeting;
            },
            Phase::SendReady => {
                self.phase = Phase::ReadReady;
            },
            _ => {},
        }
    }

    /// The socket failed.
    pub fn on_failed<E>(&mut self, error: E) -> (r: Error<E>)
        ensures
            r == Error::Io(error),
            final(self)@ == after_failure(old(self)@),
            final(self).stream() == old(self).stream(),
            link_wf(final(self)@),
    {
        self.fail();
        Error::Io(error)
    }

    fn fail(&mut self)
        ensures
            final(self)@ == after_failure(old(self)@),
            final(self).stream() == old(self).stream(),
            link_wf(final(self)@),
    {
        if self.phase == Phase::Receiving {
            self.phase = Phase::Open;
        } else {
            self.phase = Phase::Closed;
        }
        self.seen.clear();
        self.frames.clear();
        assert(self@ =~= after_failure(old(self)@));
    }

    /// The socket gave some bytes, no more than were asked for; none at the end
    /// of the stream.
    pub fn on_read<E>(&mut self, bytes: &[u8]) -> (r: Result<Outcome<Vec<Vec<u8>>>, Error<E>>)
        requires
            link_wf(old(self)@),
            todo(old(self)@) matches Action::Read(n) && bytes@.len() <= n,
        ensures
            final(self)@ == after_read(old(self)@, bytes@),
            final(self).stream() == old(self).stream(),
            link_wf(final(self)@),
            outcome_view(r) == read_outcome::<E>(old(self)@, bytes@),
    {
        let ghost seen = self.seen@ + bytes@;
        if bytes.len() == 0 {
            self.fail();
            return Err(Error::UnexpectedEof);
        }
        self.seen.extend_from_slice(bytes);
        assert(self.seen@ =~= seen);
        if self.phase == Phase::ReadGreeting {
            if self.seen.len() < GREETING_LEN {
                return Ok(Outcome::Pending);
            }
            match check_greeting::<E>(self.seen.as_slice()) {
                Ok(()) => {
                    self.phase = Phase::SendReady;
                    self.seen.clear();
                    assert(self@ =~= after_read(old(self)@, bytes@));
                    Ok(Outcome::Pending)
                },
                Err(e) => {
                    self.fail();
                    Err(e)
                },
            }
        } else {
            match read_frame(self.seen.as_slice(), self.max_frame_size) {
                Frame::More(_) => Ok(Outcome::Pending),
                Frame::TooLarge => {
                    self.fail();
                    Err(Error::FrameTooLarge)
                },
                Frame::Whole { flags, body } => {
                    if self.phase == Phase::ReadReady {
                        if flags & FLAG_COMMAND == 0 {
                            self.fail();
                            return Err(Error::UnexpectedCommand);
                        }
                        self.phase = Phase::Open;
                        self.seen.clear();
                        assert(self@ =~= after_read(old(self)@, bytes@));
                        return Ok(Outcome::Connected);
                    }
                    self.seen.clear();
                    if flags & FLAG_COMMAND != 0 {
                        assert(self@ =~= after_read(old(self)@, bytes@));
                        return Ok(Outcome::Pending);
                    }
                    self.frames.push(body);
                    assert(bodies(self.frames@) =~= old(self)@.frames.push(body@));
                    if flags & FLAG_MORE != 0 {
                        assert(self@ =~= after_read(old(self)@, bytes@));
                        return Ok(Outcome::Pending);
                    }
                    let mut message: Vec<Vec<u8>> = Vec::new();
                    std::mem::swap(&mut message, &mut self.frames);
                    self.phase = Phase::Open;
                    assert(self@ =~= after_read(old(self)@, bytes@));
                    Ok(Outcome::Message(message))
                },
            }
        }
    }

    /// Start to receive one logical message. Single-part messages come as one
    /// frame. Command frames are silently skipped: they are not needed for SUB.
    pub fn recv(&mut self)
        requires
            old(self)@.phase == Phase::Open,
            link_wf(old(self)@),
        ensures
            final(self)@ == (Link { phase: Phase::Receiving, ..old(self)@ }),
            final(self).stream() == old(self).stream(),
            link_wf(final(self)@),
    {
        self.phase = Phase::Receiving;
    }

    /// The bytes to write to subscribe to a topic prefix. An empty topic matches
    /// every message.
    pub fn subscribe(&self, topic: &[u8]) -> (r: Vec<u8>)
        ensures
            r@ == subscription(0x01, topic@),
    {
        Self::send_subscription(0x01, topic)
    }

    /// The bytes to write to drop a topic prefix.
    pub fn unsubscribe(&self, topic: &[u8]) -> (r: Vec<u8>)
        ensures
            r@ == subscription(0x00, topic@),
    {
        Self::send_subscription(0x00, topic)
    }

    /// Version 3.0 carries (un)subscribe as a regular message frame whose body
    /// is the operation and the topic.
    fn send_subscription(op: u8, topic: &[u8]) -> (r: Vec<u8>)
        ensures
            r@ == subscription(op, topic@),
    {
        let mut body: Vec<u8> = Vec::new();
        body.push(op);
        body.extend_from_slice(topic);
        assert(body@ =~= seq![op] + topic@);
        encode_frame(0, body.as_slice())
    }

    pub fn into_inner(self) -> (r: S)
        ensures
            r == self.stream(),
    {
        self.socket
    }
}

/// How many numbers `k` bytes can stand for.
spec fn span(k: nat) -> nat
    decreases k,
{
    if k == 0 {
        1
    } else {
        256 * span((k - 1) as nat)
    }
}

/// A number that fits is read back from its bytes.
proof fn lemma_be_reads_back(n: nat, k: nat)
    requires
        n < span(k),
    ensures
        be_bytes(n, k).len() == k,
        be_value(be_bytes(n, k)) == n,
    decreases k,
{
    if k > 0 {
        lemma_be_reads_back(n / 256, (k - 1) as nat);
        assert(be_bytes(n, k).drop_last() =~= be_bytes(n / 256, (k - 1) as nat));
    }
}

/// Writing a frame keeps the flags that matter to the receiver.
pub proof fn law_flags_survive(frame: WireFrame)
    ensures
        frame.wire_flags() & FLAG_MORE == frame.flags & FLAG_MORE,
        frame.wire_flags() & FLAG_COMMAND == frame.flags & FLAG_COMMAND,
{
    let flags = frame.flags;
    assert((flags & !0x02u8) & 0x01 == flags & 0x01) by (bit_vector);
    assert((flags | 0x02u8) & 0x01 == flags & 0x01) by (bit_vector);
    assert((flags & !0x02u8) & 0x04 == flags & 0x04) by (bit_vector);
    assert((flags | 0x02u8) & 0x04 == flags & 0x04) by (bit_vector);
}

/// The header of a frame announces its body.
proof fn lemma_head(frame: WireFrame)
    requires
        frame.wf(),
    ensures
        ({
            let head = frame.head();
            &&& head[0] == frame.wire_flags()
            &&& head.len() == head_len(head[0])
            &&& announced_len(head) == frame.body.len()
        }),
{
    let head = frame.head();
    let flags = frame.flags;
    assert((flags & !0x02u8) & 0x02 == 0) by (bit_vector);
    assert((flags | 0x02u8) & 0x02 != 0) by (bit_vector);
    if frame.long {
        reveal_with_fuel(span, 9);
        lemma_be_reads_back(frame.body.len(), 8);
        assert(head.subrange(1, 9) =~= be_bytes(frame.body.len(), 8));
    }
}

/// What is read from a frame is what was written, in either form of its length
/// and whatever follows it on the stream. A frame above the limit is refused
/// once its header is there.
pub proof fn law_frame_reads_back(frame: WireFrame, rest: Seq<u8>, max: usize)
    requires
        frame.wf(),
    ensures
        frame_status(frame.bytes() + rest, max) == if frame.body.len() <= max {
            Frame::Whole { flags: frame.wire_flags(), body: frame.body }
        } else {
            Frame::TooLarge
        },
{
    lemma_head(frame);
    let head = frame.head();
    let body = frame.body;
    let seen = frame.bytes() + rest;
    assert(seen[0] == head[0]);
    if seen[0] & FLAG_LONG != 0 {
        assert(seen.subrange(1, 9) =~= head.subrange(1, 9));
    } else {
        assert(seen[1] == head[1]);
    }
    assert(seen.subrange(head.len() as int, (head.len() + body.len()) as int) =~= body);
}

/// What is read from a frame that was sent is what was sent.
pub proof fn law_sent_frame_reads_back(flags: u8, body: Seq<u8>, rest: Seq<u8>, max: usize)
    requires
        body.len() <= max,
    ensures
        frame_status(frame_bytes(flags, body) + rest, max) == (Frame::Whole {
            flags: sent_frame(flags, body).wire_flags(),
            body,
        }),
{
    law_frame_reads_back(sent_frame(flags, body), rest, max);
}

/// As long as a frame is not there in full, what is still needed shrinks by
/// what comes in.
proof fn lemma_more(seen: Seq<u8>, a: Seq<u8>, max: usize, n: usize)
    requires
        frame_status(seen, max) == Frame::<Seq<u8>>::More(n),
        0 < a.len() < n,
    ensures
        frame_status(seen + a, max) == Frame::<Seq<u8>>::More((n - a.len()) as usize),
{
    let both = seen + a;
    if seen.len() > 0 {
        assert(both[0] == seen[0]);
        if seen.len() >= head_len(seen[0]) {
            if seen[0] & FLAG_LONG != 0 {
                assert(both.subrange(1, 9) =~= seen.subrange(1, 9));
            } else {
                assert(both[1] == seen[1]);
            }
        }
    }
}

/// It does not matter in how many pieces the socket gives what was asked for.
pub proof fn law_split_reads_do_not_matter<E>(l: Link, a: Seq<u8>, b: Seq<u8>)
    requires
        link_wf(l),
        todo(l) matches Action::Read(n) && a.len() + b.len() <= n,
        a.len() > 0,
        b.len() > 0,
    ensures
        read_outcome::<E>(l, a) == Ok::<_, Error<E>>(Outcome::<Seq<Seq<u8>>>::Pending),
        todo(after_read(l, a)) matches Action::Read(m) && b.len() <= m,
        link_wf(after_read(l, a)),
        after_read(after_read(l, a), b) == after_read(l, a + b),
        read_outcome::<E>(after_read(l, a), b) == read_outcome::<E>(l, a + b),
{
    assert(l.seen + a + b =~= l.seen + (a + b));
    if l.phase != Phase::ReadGreeting {
        if let Frame::More(n) = frame_status(l.seen, l.max) {
            lemma_more(l.seen, a, l.max, n);
        }
    }
}

/// 1 while a write is due, 0 otherwise.
pub open spec fn writes_due(l: Link) -> nat {
    if l.phase == Phase::SendGreeting || l.phase == Phase::SendReady {
        1
    } else {
        0
    }
}

/// What becomes of `stream` from the peer when a subscriber in state `l` does
/// what it asks for, every write goes out, and every read gives as much as was
/// asked for: the first outcome but `Pending`, and how many bytes it took.
pub open spec fn answered(l: Link, stream: Seq<u8>) -> Option<
    (Result<Outcome<Seq<Seq<u8>>>, Error<()>>, nat),
>
    decreases stream.len(), writes_due(l),
{
    match todo(l) {
        Action::Write(_) => if writes_due(l) > 0 {
            answered(after_write(l), stream)
        } else {
            None
        },
        Action::Read(n) => if 0 < n <= stream.len() {
            let chunk = stream.take(n as int);
            let r = read_outcome::<()>(l, chunk);
            if r == Ok::<_, Error<()>>(Outcome::<Seq<Seq<u8>>>::Pending) {
                later(answered(after_read(l, chunk), stream.skip(n as int)), n as nat)
            } else {
                Some((r, n as nat))
            }
        } else {
            None
        },
        Action::Idle => None,
    }
}

/// The same outcome, after `n` more bytes.
pub open spec fn later(
    r: Option<(Result<Outcome<Seq<Seq<u8>>>, Error<()>>, nat)>,
    n: nat,
) -> Option<(Result<Outcome<Seq<Seq<u8>>>, Error<()>>, nat)> {
    match r {
        Some((outcome, used)) => Some((outcome, used + n)),
        None => None,
    }
}

/// The bytes of some frames, one after the other.
pub open spec fn stream_of(frames: Seq<WireFrame>) -> Seq<u8>
    decreases frames.len(),
{
    if frames.len() == 0 {
        Seq::empty()
    } else {
        frames[0].bytes() + stream_of(frames.skip(1))
    }
}

/// The bodies of the frames that are no commands.
pub open spec fn message_of(frames: Seq<WireFrame>) -> Seq<Seq<u8>>
    decreases frames.len(),
{
    if frames.len() == 0 {
        Seq::empty()
    } else if frames[0].flags & FLAG_COMMAND != 0 {
        message_of(frames.skip(1))
    } else {
        seq![frames[0].body] + message_of(frames.skip(1))
    }
}

/// Whether some frames are one message, with commands in between: each frame
/// but the last says that more follow, and the last is no command.
pub open spec fn one_message(frames: Seq<WireFrame>) -> bool {
    &&& frames.len() > 0
    &&& frames.last().flags & FLAG_COMMAND == 0
    &&& frames.last().flags & FLAG_MORE == 0
    &&& forall|i: int|
        0 <= i < frames.len() - 1 ==> (#[trigger] frames[i]).flags & FLAG_COMMAND != 0
            || frames[i].flags & FLAG_MORE != 0
}

/// One read of [`answered`].
proof fn lemma_read(l: Link, chunk: Seq<u8>, rest: Seq<u8>)
    requires
        todo(l) matches Action::Read(n) && n == chunk.len() && n > 0,
    ensures
        answered(l, chunk + rest) == ({
            let r = read_outcome::<()>(l, chunk);
            if r == Ok::<_, Error<()>>(Outcome::<Seq<Seq<u8>>>::Pending) {
                later(answered(after_read(l, chunk), rest), chunk.len())
            } else {
                Some((r, chunk.len()))
            }
        }),
{
    let stream = chunk + rest;
    assert(stream.take(chunk.len() as int) =~= chunk);
    assert(stream.skip(chunk.len() as int) =~= rest);
}

/// A frame is taken from the stream whole, as if it came in one read. One above
/// the limit is refused as soon as its header is there.
proof fn lemma_frame(l: Link, frame: WireFrame, rest: Seq<u8>)
    requires
        l.phase == Phase::ReadReady || l.phase == Phase::Receiving,
        l.seen.len() == 0,
        frame.wf(),
    ensures
        ({
            let bytes = frame.bytes();
            let r = read_outcome::<()>(l, bytes);
            answered(l, bytes + rest) == if frame.body.len() > l.max {
                Some((Err(Error::FrameTooLarge), frame.head().len()))
            } else if r == Ok::<_, Error<()>>(Outcome::<Seq<Seq<u8>>>::Pending) {
                later(answered(after_read(l, bytes), rest), bytes.len())
            } else {
                Some((r, bytes.len()))
            }
        }),
        frame_status(frame.bytes(), l.max) == if frame.body.len() <= l.max {
            Frame::Whole { flags: frame.wire_flags(), body: frame.body }
        } else {
            Frame::TooLarge
        },
{
    let bytes = frame.bytes();
    let head = frame.head();
    let body = frame.body;
    lemma_head(frame);
    let first = head.take(1);
    let second = head.skip(1);
    assert(l.seen =~= Seq::empty());
    assert(l.seen + bytes =~= bytes);
    law_frame_reads_back(frame, Seq::empty(), l.max);
    assert(bytes + Seq::<u8>::empty() =~= bytes);
    // The flags.
    assert(l.seen + first =~= first);
    assert(first[0] == head[0]);
    assert(frame_status(first, l.max) == Frame::<Seq<u8>>::More((head.len() - 1) as usize));
    assert(bytes + rest =~= first + (second + (body + rest)));
    lemma_read(l, first, second + (body + rest));
    let l1 = after_read(l, first);
    // The length.
    assert(l1.seen + second =~= head);
    lemma_read(l1, second, body + rest);
    if body.len() > l.max {
        assert(frame_status(head, l.max) == Frame::<Seq<u8>>::TooLarge);
    } else if body.len() == 0 {
        assert(head =~= bytes);
        assert(body + rest =~= rest);
        assert(after_read(l1, second) =~= after_read(l, bytes));
    } else {
        assert(frame_status(head, l.max) == Frame::<Seq<u8>>::More(body.len() as usize));
        let l2 = after_read(l1, second);
        // The body.
        assert(l2.seen + body =~= bytes);
        lemma_read(l2, body, rest);
        assert(after_read(l2, body) =~= after_read(l, bytes));
    }
}

/// What is received is the message that was sent: the bodies of its frames in
/// order, without the commands in between, and not a byte of what follows it is
/// taken.
pub proof fn law_message_reads_back(l: Link, frames: Seq<WireFrame>, rest: Seq<u8>)
    requires
        l.phase == Phase::Receiving,
        l.seen.len() == 0,
        one_message(frames),
        forall|i: int|
            0 <= i < frames.len() ==> (#[trigger] frames[i]).wf() && frames[i].body.len() <= l.max,
    ensures
        answered(l, stream_of(frames) + rest) == Some(
            (
                Ok::<_, Error<()>>(Outcome::Message(l.frames + message_of(frames))),
                stream_of(frames).len(),
            ),
        ),
    decreases frames.len(),
{
    let frame = frames[0];
    let tail = frames.skip(1);
    let bytes = frame.bytes();
    assert(stream_of(frames) + rest =~= bytes + (stream_of(tail) + rest));
    lemma_frame(l, frame, stream_of(tail) + rest);
    law_flags_survive(frame);
    assert(l.seen + bytes =~= bytes);
    if frames.len() == 1 {
        assert(frames.last() == frames[0]);
        assert(stream_of(tail) =~= Seq::empty());
        assert(message_of(tail) =~= Seq::empty());
        assert(l.frames + message_of(frames) =~= l.frames.push(frame.body));
    } else {
        assert(tail.last() == frames.last());
        assert forall|i: int| 0 <= i < tail.len() implies (#[trigger] tail[i]).wf()
            && tail[i].body.len() <= l.max by {
            assert(tail[i] == frames[i + 1]);
        }
        assert forall|i: int| 0 <= i < tail.len() - 1 implies (#[trigger] tail[i]).flags
            & FLAG_COMMAND != 0 || tail[i].flags & FLAG_MORE != 0 by {
            assert(tail[i] == frames[i + 1]);
        }
        let next = after_read(l, bytes);
        law_message_reads_back(next, tail, rest);
        assert(next.frames + message_of(tail) =~= l.frames + message_of(frames));
    }
}

/// The handshake with a peer that sends `greeting` and then one frame: it
/// completes when the greeting is in order and the frame is a command within the
/// limit. Otherwise the first thing that is wrong is the answer.
pub proof fn law_handshake(max: usize, greeting: Seq<u8>, frame: WireFrame, rest: Seq<u8>)
    requires
        greeting.len() == GREETING_LEN,
        frame.wf(),
    ensures
        answered(link_start(max), greeting + (frame.bytes() + rest)) == match greeting_fault::<()>(
            greeting,
        ) {
            Some(e) => Some((Err(e), GREETING_LEN as nat)),
            None => if frame.body.len() > max {
                Some((Err(Error::FrameTooLarge), GREETING_LEN as nat + frame.head().len()))
            } else {
                Some(
                    (
                        if frame.flags & FLAG_COMMAND != 0 {
                            Ok(Outcome::<Seq<Seq<u8>>>::Connected)
                        } else {
                            Err(Error::UnexpectedCommand)
                        },
                        GREETING_LEN as nat + frame.bytes().len(),
                    ),
                )
            },
        },
{
    let bytes = frame.bytes();
    let stream = greeting + (bytes + rest);
    let l0 = link_start(max);
    let l1 = after_write(l0);
    assert(answered(l0, stream) == answered(l1, stream));
    assert(l1.seen + greeting =~= greeting);
    lemma_read(l1, greeting, bytes + rest);
    if greeting_fault::<()>(greeting) is None {
        let l2 = after_read(l1, greeting);
        let l3 = after_write(l2);
        assert(answered(l2, bytes + rest) == answered(l3, bytes + rest));
        lemma_frame(l3, frame, rest);
        law_flags_survive(frame);
        assert(l3.seen + bytes =~= bytes);
    }
}

/// A peer is accepted exactly when its greeting has the signature, announces a
/// major version of at least 3, and names the mechanism "NULL". Without the
/// signature or the version the greeting is invalid; with them, any other
/// mechanism is unsupported.
pub proof fn law_greeting_verdict<E>(peer: Seq<u8>)
    requires
        peer.len() == 64,
    ensures
        greeting_fault::<E>(peer) is None <==> peer[0] == 0xff && peer[9] == 0x7f && peer[10] >= 3
            && peer[12] == 0x4e && peer[13] == 0x55 && peer[14] == 0x4c && peer[15] == 0x4c,
        greeting_fault::<E>(peer) == Some(Error::<E>::InvalidGreeting) <==> peer[0] != 0xff
            || peer[9] != 0x7f || peer[10] <= 2,
        greeting_fault::<E>(peer) is Some ==> greeting_fault::<E>(peer) == Some(
            Error::<E>::InvalidGreeting,
        ) || greeting_fault::<E>(peer) == Some(Error::<E>::UnsupportedMechanism),
{
    let name = peer.subrange(12, 16);
    let null = seq![0x4eu8, 0x55, 0x4c, 0x4c];
    assert(name[0] == peer[12] && name[1] == peer[13] && name[2] == peer[14] && name[3]
        == peer[15]);
    if name[0] == null[0] && name[1] == null[1] && name[2] == null[2] && name[3] == null[3] {
        assert(name =~= null);
    }
}

/// Nothing else in a greeting matters: two that agree on the signature, the major
/// version and the mechanism get the same verdict, whatever minor version,
/// padding and filler they have. A later major version is as good as an earlier
/// one.
pub proof fn law_greeting_ignores_the_rest<E>(a: Seq<u8>, b: Seq<u8>)
    requires
        a.len() == 64,
        b.len() == 64,
        a[0] == b[0],
        a[9] == b[9],
        a[10] == b[10] || (a[10] >= 3 && b[10] >= 3),
        forall|i: int| 12 <= i < 16 ==> #[trigger] a[i] == b[i],
    ensures
        greeting_fault::<E>(a) == greeting_fault::<E>(b),
{
    law_greeting_verdict::<E>(a);
    law_greeting_verdict::<E>(b);
    assert(a[12] == b[12] && a[13] == b[13] && a[14] == b[14] && a[15] == b[15]);
}

/// Our own greeting is one that a peer like us accepts, and it announces version
/// 3.0.
pub proof fn law_own_greeting_is_accepted<E>()
    ensures
        GREETING@.len() == 64,
        greeting_fault::<E>(GREETING@) is None,
        GREETING@[10] == 3,
        forall|i: int| 11 <= i < 64 && !(12 <= i < 16) ==> #[trigger] GREETING@[i] == 0,
{
    law_greeting_verdict::<E>(GREETING@);
}

/// What is written for a frame: one flag says how the length is written, the
/// other flags are those that were asked for; a body of up to 255 bytes has its
/// length in one byte, a longer one in eight, the highest first; then the body.
pub proof fn law_frame_layout(flags: u8, body: Seq<u8>)
    requires
        body.len() <= u64::MAX,
    ensures
        ({
            let bytes = frame_bytes(flags, body);
            let head = if body.len() <= 255 {
                2int
            } else {
                9int
            };
            &&& bytes.len() == head + body.len()
            &&& bytes.skip(head) == body
            &&& bytes[0] & 0x02 != 0 <==> body.len() > 255
            &&& bytes[0] & 0xfd == flags & 0xfd
            &&& body.len() <= 255 ==> bytes[1] == body.len()
            &&& body.len() > 255 ==> body.len() == bytes[8] + 0x100 * bytes[7] + 0x1_0000 * bytes[6]
                + 0x100_0000 * bytes[5] + 0x1_0000_0000 * bytes[4] + 0x100_0000_0000 * bytes[3]
                + 0x1_0000_0000_0000 * bytes[2] + 0x100_0000_0000_0000 * bytes[1]
        }),
{
    let frame = sent_frame(flags, body);
    lemma_head(frame);
    let head = frame.head();
    let bytes = frame_bytes(flags, body);
    assert(((flags & !0x02u8) & 0x02 == 0) && ((flags | 0x02u8) & 0x02 != 0) && ((flags & !0x02u8)
        & 0xfd == flags & 0xfd) && ((flags | 0x02u8) & 0xfd == flags & 0xfd)) by (bit_vector);
    assert(bytes.skip(head.len() as int) =~= body);
    assert(forall|i: int| 0 <= i < head.len() ==> #[trigger] bytes[i] == head[i]);
    if body.len() > 255 {
        let len = head.subrange(1, 9);
        law_length_is_big_endian(len);
        assert(forall|i: int| 0 <= i < 8 ==> #[trigger] len[i] == head[i + 1]);
    }
}

/// Eight bytes stand for a number with the highest byte first.
pub proof fn law_length_is_big_endian(b: Seq<u8>)
    requires
        b.len() == 8,
    ensures
        be_value(b) == b[7] + 0x100 * b[6] + 0x1_0000 * b[5] + 0x100_0000 * b[4] + 0x1_0000_0000
            * b[3] + 0x100_0000_0000 * b[2] + 0x1_0000_0000_0000 * b[1] + 0x100_0000_0000_0000
            * b[0],
{
    reveal_with_fuel(be_value, 9);
}

/// While a frame is on its way, more of it is asked for, and never more than it
/// has left: no read waits for bytes that belong to what follows.
pub proof fn law_partial_frame_asks_for_its_rest(frame: WireFrame, k: int, max: usize)
    requires
        frame.wf(),
        frame.body.len() <= max,
        0 <= k < frame.bytes().len(),
    ensures
        frame_status(frame.bytes().take(k), max) matches Frame::More(n) && 1 <= n && k + n
            <= frame.bytes().len(),
{
    lemma_head(frame);
    let head = frame.head();
    let bytes = frame.bytes();
    let seen = bytes.take(k);
    assert(bytes.len() == head.len() + frame.body.len());
    if k > 0 {
        assert(seen[0] == head[0]);
        if k >= head.len() {
            if seen[0] & FLAG_LONG != 0 {
                assert(seen.subrange(1, 9) =~= head.subrange(1, 9));
            } else {
                assert(seen[1] == head[1]);
            }
        }
    }
}

/// The end of the stream, or a failure of the socket, drops what was being
/// received and leaves the subscriber ready to receive again; during the
/// handshake it is final.
pub proof fn law_failures_drop_the_message(l: Link)
    ensures
        read_outcome::<()>(l, Seq::empty()) == Err::<Outcome<Seq<Seq<u8>>>, Error<()>>(
            Error::UnexpectedEof,
        ),
        after_read(l, Seq::empty()) == after_failure(l),
        after_failure(l).seen.len() == 0,
        after_failure(l).frames.len() == 0,
        after_failure(l).max == l.max,
        after_failure(l).phase == Phase::Open <==> l.phase == Phase::Receiving,
        after_failure(l).phase == Phase::Closed <==> l.phase != Phase::Receiving,
{
}

/// A metadata property: the length of the name, the name, the length of the value
/// in four bytes with the highest first, the value.
pub proof fn law_property_layout(name: Seq<u8>, value: Seq<u8>)
    requires
        name.len() <= 255,
        value.len() <= 0xffff_ffff,
    ensures
        ({
            let bytes = property(name, value);
            let at = 1 + name.len() as int;
            &&& bytes.len() == at + 4 + value.len()
            &&& bytes[0] == name.len()
            &&& bytes.subrange(1, at) == name
            &&& value.len() == bytes[at + 3] + 0x100 * bytes[at + 2] + 0x1_0000 * bytes[at + 1]
                + 0x100_0000 * bytes[at]
            &&& bytes.skip(at + 4) == value
        }),
{
    let bytes = property(name, value);
    let at = 1 + name.len() as int;
    let len = be_bytes(value.len(), 4);
    reveal_with_fuel(be_bytes, 5);
    assert(bytes.subrange(1, at) =~= name);
    assert(bytes.skip(at + 4) =~= value);
    assert(forall|i: int| 0 <= i < 4 ==> #[trigger] bytes[at + i] == len[i]);
    assert(bytes[at + 0] == len[0] && bytes[at + 1] == len[1] && bytes[at + 2] == len[2] && bytes[at
        + 3] == len[3]);
}

/// Our READY command says that this is a SUB socket, and nothing else.
pub proof fn law_ready_names_the_socket()
    ensures
        ready_body() == seq![
            5u8, 0x52, 0x45, 0x41, 0x44, 0x59,
            11, 0x53, 0x6f, 0x63, 0x6b, 0x65, 0x74, 0x2d, 0x54, 0x79, 0x70, 0x65,
            0, 0, 0, 3, 0x53, 0x55, 0x42,
        ],
{
    reveal_with_fuel(be_bytes, 5);
    assert(ready_body() =~= seq![
        5u8, 0x52, 0x45, 0x41, 0x44, 0x59,
        11, 0x53, 0x6f, 0x63, 0x6b, 0x65, 0x74, 0x2d, 0x54, 0x79, 0x70, 0x65,
        0, 0, 0, 3, 0x53, 0x55, 0x42,
    ]);
}

/// What goes out during the handshake: the greeting first, then READY as a
/// command frame. Nothing is to be done on a connection that is open and idle, or
/// closed.
pub proof fn law_what_is_sent(l: Link)
    ensures
        l.phase == Phase::SendGreeting ==> todo(l) == Action::Write(GREETING@),
        l.phase == Phase::SendReady ==> todo(l) == Action::Write(frame_bytes(0x04, ready_body())),
        l.phase == Phase::Open || l.phase == Phase::Closed ==> todo(l) == Action::<
            Seq<u8>,
        >::Idle,
        l.phase == Phase::ReadGreeting && l.seen.len() < 64 ==> todo(l) == Action::<
            Seq<u8>,
        >::Read((64 - l.seen.len()) as usize),
        link_start(l.max).phase == Phase::SendGreeting,
        after_write(Link { phase: Phase::SendGreeting, ..l }).phase == Phase::ReadGreeting,
        after_write(Link { phase: Phase::SendReady, ..l }).phase == Phase::ReadReady,
{
}

/// A subscription is one message of one frame, of any length: the operation, then
/// the topic. The peer reads it as it was meant.
pub proof fn law_subscription_is_one_message(
    l: Link,
    op: u8,
    topic: Seq<u8>,
    rest: Seq<u8>,
)
    requires
        l.phase == Phase::Receiving,
        l.seen.len() == 0,
        l.frames.len() == 0,
        topic.len() < l.max,
    ensures
        answered(l, subscription(op, topic) + rest) == Some(
            (
                Ok::<_, Error<()>>(Outcome::Message(seq![seq![op] + topic])),
                subscription(op, topic).len(),
            ),
        ),
{
    let frame = sent_frame(0, seq![op] + topic);
    let frames = seq![frame];
    assert(0u8 & 0x04 == 0 && 0u8 & 0x01 == 0) by (bit_vector);
    assert(frames.skip(1) =~= Seq::empty());
    assert(stream_of(frames.skip(1)) =~= Seq::empty());
    assert(stream_of(frames) =~= subscription(op, topic));
    assert(message_of(frames.skip(1)) =~= Seq::empty());
    assert(message_of(frames) =~= seq![seq![op] + topic]);
    law_message_reads_back(l, frames, rest);
    assert(l.frames + message_of(frames) =~= message_of(frames));
}

} // verus!
