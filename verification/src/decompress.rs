//! Gzip to in-memory inflater.
//!
//! Owns a long-lived `InflateState` and an output buffer, and exposes a single
//! call that takes a gzip-framed payload and yields the decompressed bytes as
//! a borrowed `&str`.
use miniz_oxide::inflate::stream::{inflate, InflateState};
use miniz_oxide::{DataFormat, MZFlush};
use vstd::prelude::*;
use vstd::utf8::{decode_utf8, valid_utf8};
use crate::gzip::{header_len, skip_header};
use crate::text::{is_valid_prefix_len, utf8_text};

verus! {

/// Why a payload could not be decompressed.
#[derive(Debug, Clone, Copy, PartialEq, Eq, Structural)]
pub enum Error {
    /// There is no whole gzip header.
    BadGzipHeader,
    /// The decompressed data does not fit in the buffer.
    Overflow,
    /// The inflater failed with this `MZError` code.
    Inflate(i32),
    /// The decompressed data is valid UTF-8 up to this byte only.
    NotUtf8(usize),
}

/// `MZStatus::StreamEnd`: the end of the deflate stream was found.
pub const STREAM_END: i32 = 1;

/// One call of the inflater: the input, the room for output, and whether the
/// stream is to finish.
pub type Call = (Seq<u8>, nat, bool);

/// The reply to a call: the `MZStatus` or `MZError` code, the number of bytes
/// consumed, and the bytes written.
pub type Reply = (Result<i32, i32>, nat, Seq<u8>);

/// `miniz_oxide::inflate::stream::InflateState`.
#[verifier::external_type_specification]
#[verifier::external_body]
pub struct ExInflateState(InflateState);

/// The calls that an inflater has taken since it was last reset to raw deflate
/// data.
pub uninterp spec fn calls_taken(state: InflateState) -> Seq<Call>;

/// What an inflater for raw deflate data replies to the last of some calls.
pub uninterp spec fn stream_reply(calls: Seq<Call>) -> Reply;

/// `InflateState::new_boxed` with `DataFormat::Raw`: an inflater that has taken
/// no call, on the heap.
#[verifier::external_body]
pub(crate) fn state_new() -> (r: Box<InflateState>)
    ensures
        calls_taken(*r) == Seq::<Call>::empty(),
{
    InflateState::new_boxed(DataFormat::Raw)
}

/// `InflateState::reset` with `DataFormat::Raw`: the calls before are forgotten.
#[verifier::external_body]
pub(crate) fn state_reset(state: &mut InflateState)
    ensures
        calls_taken(*final(state)) == Seq::<Call>::empty(),
{
    state.reset(DataFormat::Raw)
}

/// `miniz_oxide::inflate::stream::inflate` into `buf` from index `from` on, with
/// `MZFlush::Finish` or `MZFlush::None`. What it replies follows from the calls
/// since the last reset, see [`stream_reply`]; it consumes no more than the
/// input and writes no more than there is room, and leaves `buf` before `from`
/// alone. What `buf` holds after the bytes written is left open.
#[verifier::external_body]
pub(crate) fn state_inflate(
    state: &mut InflateState,
    input: &[u8],
    buf: &mut Vec<u8>,
    from: usize,
    finish: bool,
) -> (r: (Result<i32, i32>, usize, usize))
    requires
        from <= old(buf)@.len(),
    ensures
        calls_taken(*final(state)) == calls_taken(*old(state)).push(
            (input@, (old(buf)@.len() - from) as nat, finish),
        ),
        r.1 <= input@.len(),
        from + r.2 <= old(buf)@.len(),
        final(buf)@.len() == old(buf)@.len(),
        final(buf)@.take(from as int) == old(buf)@.take(from as int),
        stream_reply(calls_taken(*final(state))) == (
            r.0,
            r.1 as nat,
            final(buf)@.subrange(from as int, from + r.2),
        ),
{
    let flush = if finish { MZFlush::Finish } else { MZFlush::None };
    let res = inflate(state, input, &mut buf[from..], flush);
    let status = res.status.map(|s| s as i32).map_err(|e| e as i32);
    (status, res.bytes_consumed, res.bytes_written)
}

/// What to do after a call of the inflater.
#[derive(Debug, Clone, Copy, PartialEq, Eq, Structural)]
pub enum Next {
    /// The stream has ended, or there is no useful data left.
    Done,
    /// Call again with what is left.
    Again,
    /// The inflater failed with this code.
    Failed(i32),
}

/// What to do after a reply: stop at the end of the stream, and when no
/// progress was made.
pub open spec fn next_after(status: Result<i32, i32>, consumed: nat, written: nat) -> Next {
    match status {
        Err(code) => Next::Failed(code),
        Ok(code) => if code == STREAM_END || (consumed == 0 && written == 0) {
            Next::Done
        } else {
            Next::Again
        },
    }
}

/// What to do after a reply.
pub fn next_step(status: Result<i32, i32>, consumed: usize, written: usize) -> (r: Next)
    ensures
        r == next_after(status, consumed as nat, written as nat),
{
    match status {
        Err(code) => Next::Failed(code),
        Ok(code) => {
            if code == STREAM_END || (consumed == 0 && written == 0) {
                Next::Done
            } else {
                Next::Again
            }
        },
    }
}

/// Whether a reply stays within its call.
pub open spec fn reply_fits(call: Call, reply: Reply) -> bool {
    reply.1 <= call.0.len() && reply.2.len() <= call.1
}

/// What is inflated from `input` into a buffer of `cap` bytes, after `calls`
/// have given `done`: the input is offered until the stream ends, each time
/// with all the room that is left, and with the request to finish once there is
/// no input left. (No reply of the inflater exceeds its call, so the last branch
/// is never taken.)
pub open spec fn inflated(
    calls: Seq<Call>,
    input: Seq<u8>,
    done: Seq<u8>,
    cap: nat,
) -> Result<Seq<u8>, Error>
    decreases input.len() + cap - done.len(),
{
    if done.len() >= cap {
        Err(Error::Overflow)
    } else {
        let call = (input, (cap - done.len()) as nat, input.len() == 0);
        let (status, consumed, written) = stream_reply(calls.push(call));
        match next_after(status, consumed, written.len()) {
            Next::Failed(code) => Err(Error::Inflate(code)),
            Next::Done => Ok(done + written),
            Next::Again => if reply_fits(call, stream_reply(calls.push(call))) {
                inflated(calls.push(call), input.skip(consumed as int), done + written, cap)
            } else {
                Err(Error::Overflow)
            },
        }
    }
}

/// `r` is the text of `bytes`, or says how far they are valid UTF-8.
pub open spec fn is_text_of(r: Result<&str, Error>, bytes: Seq<u8>) -> bool {
    match r {
        Ok(s) => valid_utf8(bytes) && s@ == decode_utf8(bytes),
        Err(Error::NotUtf8(n)) => !valid_utf8(bytes) && is_valid_prefix_len(bytes, n as int),
        Err(_) => false,
    }
}

/// The text of `bytes`.
pub fn text_of(bytes: &[u8]) -> (r: Result<&str, Error>)
    ensures
        is_text_of(r, bytes@),
{
    match utf8_text(bytes) {
        Ok(s) => Ok(s),
        Err(n) => Err(Error::NotUtf8(n)),
    }
}

pub struct Decompressor {
    state: Box<InflateState>,
    buf: Vec<u8>,
}

impl Decompressor {
    /// How many decompressed bytes there is room for.
    pub closed spec fn cap(&self) -> nat {
        self.buf@.len()
    }

    /// Allocate the inflater and a `buf_len`-byte output buffer.
    pub fn new(buf_len: usize) -> (r: Decompressor)
        ensures
            r.cap() == buf_len,
    {
        Decompressor { state: state_new(), buf: vec![0u8; buf_len] }
    }

    /// Strip the gzip header from `payload`, inflate the body into the buffer,
    /// and return the result as a UTF-8 string slice.
    pub fn inflate_gzip(&mut self, payload: &[u8]) -> (r: Result<&str, Error>)
        ensures
            final(self).cap() == old(self).cap(),
            match header_len(payload@) {
                None => r == Err::<&str, Error>(Error::BadGzipHeader),
                Some(n) => match inflated(
                    Seq::empty(),
                    payload@.skip(n),
                    Seq::empty(),
                    old(self).cap(),
                ) {
                    Ok(bytes) => bytes.len() <= old(self).cap() && is_text_of(r, bytes),
                    Err(e) => r == Err::<&str, Error>(e),
                },
            },
    {
        let start: usize = match skip_header(payload) {
            Some(n) => n,
            None => {
                return Err(Error::BadGzipHeader);
            },
        };
        state_reset(&mut *self.state);
        let cap: usize = self.buf.len();
        let mut at: usize = start;
        let mut written: usize = 0;
        let ghost body = payload@.skip(start as int);
        let ghost whole = inflated(Seq::empty(), body, Seq::empty(), cap as nat);
        assert(self.buf@.take(0) =~= Seq::empty());
        loop
            invariant_except_break
                whole == inflated(
                    calls_taken(*self.state),
                    payload@.skip(at as int),
                    self.buf@.take(written as int),
                    cap as nat,
                ),
            invariant
                cap == old(self).cap(),
                self.buf@.len() == cap,
                written <= cap,
                at <= payload@.len(),
                header_len(payload@) == Some(start as int),
                body == payload@.skip(start as int),
                whole == inflated(Seq::empty(), body, Seq::empty(), cap as nat),
            ensures
                whole == Ok::<Seq<u8>, Error>(self.buf@.take(written as int)),
            decreases payload@.len() - at + cap - written,
        {
            if written == cap {
                return Err(Error::Overflow);
            }
            let input: &[u8] = &payload[at..payload.len()];
            assert(input@ =~= payload@.skip(at as int));
            let ghost done = self.buf@.take(written as int);
            let finish: bool = input.len() == 0;
            let (status, consumed, produced) = state_inflate(
                &mut *self.state,
                input,
                &mut self.buf,
                written,
                finish,
            );
            assert(input@.skip(consumed as int) =~= payload@.skip(at + consumed));
            assert(self.buf@.take(written + produced) =~= done + self.buf@.subrange(
                written as int,
                written + produced,
            )) by {
                assert(done == self.buf@.take(written as int));
            }
            at = at + consumed;
            written = written + produced;
            match next_step(status, consumed, produced) {
                Next::Failed(code) => {
                    return Err(Error::Inflate(code));
                },
                Next::Done => {
                    break;
                },
                Next::Again => {},
            }
        }
        assert(self.buf@.subrange(0, written as int) =~= self.buf@.take(written as int));
        text_of(&self.buf.as_slice()[0..written])
    }
}

/// What the replies to some calls, one after the other, have written.
pub open spec fn written_by(calls: Seq<Call>) -> Seq<u8>
    decreases calls.len(),
{
    if calls.len() == 0 {
        Seq::empty()
    } else {
        written_by(calls.drop_last()) + stream_reply(calls).2
    }
}

/// How many bytes the replies to some calls have consumed.
pub open spec fn consumed_by(calls: Seq<Call>) -> nat
    decreases calls.len(),
{
    if calls.len() == 0 {
        0
    } else {
        consumed_by(calls.drop_last()) + stream_reply(calls).1
    }
}

/// Whether the call after `before` is the one that an inflater is to be asked
/// next when `input` goes into a buffer of `cap` bytes: it offers the input that
/// no reply has consumed yet and the room that no reply has filled yet, asks to
/// finish when no input is left, and comes only while there is room and the
/// stream goes on.
pub open spec fn is_next(before: Seq<Call>, call: Call, input: Seq<u8>, cap: nat) -> bool {
    &&& written_by(before).len() < cap
    &&& call.0 == input.skip(consumed_by(before) as int)
    &&& call.1 == cap - written_by(before).len()
    &&& call.2 == (call.0.len() == 0)
    &&& before.len() > 0 ==> went_on(before)
}

/// Whether `calls` are what an inflater is asked, one after the other, when
/// `input` goes into a buffer of `cap` bytes.
pub open spec fn is_run(calls: Seq<Call>, input: Seq<u8>, cap: nat) -> bool {
    forall|k: int|
        0 <= k < calls.len() ==> #[trigger] is_next(calls.take(k), calls[k], input, cap)
}

/// Whether the reply to the last of `calls` asks for another call.
pub open spec fn went_on(calls: Seq<Call>) -> bool {
    let (status, consumed, written) = stream_reply(calls);
    &&& consumed <= calls.last().0.len()
    &&& written.len() <= calls.last().1
    &&& status is Ok && status->Ok_0 != 1
    &&& consumed > 0 || written.len() > 0
}

/// The first calls of a run are a run.
proof fn lemma_run_front(calls: Seq<Call>, input: Seq<u8>, cap: nat)
    requires
        is_run(calls, input, cap),
        calls.len() > 0,
    ensures
        is_run(calls.drop_last(), input, cap),
{
    let front = calls.drop_last();
    assert forall|k: int| 0 <= k < front.len() implies #[trigger] is_next(
        front.take(k),
        front[k],
        input,
        cap,
    ) by {
        assert(front.take(k) =~= calls.take(k));
        assert(is_next(calls.take(k), calls[k], input, cap));
    }
}

/// As long as a run goes on, what is inflated is what its rest gives.
proof fn lemma_run(calls: Seq<Call>, input: Seq<u8>, cap: nat)
    requires
        is_run(calls, input, cap),
        calls.len() > 0 ==> went_on(calls),
    ensures
        consumed_by(calls) <= input.len(),
        written_by(calls).len() <= cap,
        inflated(Seq::empty(), input, Seq::empty(), cap) == inflated(
            calls,
            input.skip(consumed_by(calls) as int),
            written_by(calls),
            cap,
        ),
    decreases calls.len(),
{
    if calls.len() == 0 {
        assert(calls =~= Seq::empty());
        assert(input.skip(0) =~= input);
    } else {
        let front = calls.drop_last();
        lemma_run_front(calls, input, cap);
        assert(calls.take(calls.len() - 1) =~= front);
        assert(is_next(calls.take(calls.len() - 1), calls[calls.len() - 1], input, cap));
        lemma_run(front, input, cap);
        assert(front.push(calls.last()) =~= calls);
        let left = input.skip(consumed_by(front) as int);
        let reply = stream_reply(calls);
        assert(left.skip(reply.1 as int) =~= input.skip(consumed_by(calls) as int));
    }
}

/// When the inflater reports the end of the stream, what is inflated is exactly
/// what its replies wrote, in order, however many bytes that are.
pub proof fn law_whole_stream_is_inflated(calls: Seq<Call>, input: Seq<u8>, cap: nat)
    requires
        calls.len() > 0,
        is_run(calls, input, cap),
        stream_reply(calls).0 == Ok::<i32, i32>(1),
    ensures
        inflated(Seq::empty(), input, Seq::empty(), cap) == Ok::<Seq<u8>, Error>(written_by(calls)),
{
    lemma_last_call(calls, input, cap);
}

/// What the last call of a run adds.
proof fn lemma_last_call(calls: Seq<Call>, input: Seq<u8>, cap: nat)
    requires
        calls.len() > 0,
        is_run(calls, input, cap),
    ensures
        ({
            let front = calls.drop_last();
            let left = input.skip(consumed_by(front) as int);
            &&& inflated(Seq::empty(), input, Seq::empty(), cap) == inflated(
                front,
                left,
                written_by(front),
                cap,
            )
            &&& front.push((left, (cap - written_by(front).len()) as nat, left.len() == 0)) == calls
            &&& written_by(front).len() < cap
        }),
{
    let front = calls.drop_last();
    lemma_run_front(calls, input, cap);
    assert(calls.take(calls.len() - 1) =~= front);
    assert(is_next(calls.take(calls.len() - 1), calls[calls.len() - 1], input, cap));
    lemma_run(front, input, cap);
    assert(front.push(calls.last()) =~= calls);
}

/// A first reply that ends the stream gives all that it wrote.
pub proof fn law_one_reply_is_enough(input: Seq<u8>, cap: nat)
    requires
        cap > 0,
        stream_reply(seq![(input, cap, input.len() == 0)]).0 == Ok::<i32, i32>(1),
    ensures
        inflated(Seq::empty(), input, Seq::empty(), cap) == Ok::<Seq<u8>, Error>(
            stream_reply(seq![(input, cap, input.len() == 0)]).2,
        ),
{
    let calls: Seq<Call> = seq![(input, cap, input.len() == 0)];
    assert(calls.take(0) =~= Seq::empty());
    assert(input.skip(0) =~= input);
    assert(written_by(Seq::empty()).len() == 0);
    assert(consumed_by(Seq::empty()) == 0);
    assert(is_run(calls, input, cap));
    law_whole_stream_is_inflated(calls, input, cap);
    assert(calls.drop_last() =~= Seq::empty());
    assert(written_by(calls) =~= stream_reply(calls).2);
}

/// A stream that stops short of its end gives what there was of it: when a reply
/// neither consumes nor writes, what was written before is the result.
pub proof fn law_stalled_stream_gives_what_there_is(calls: Seq<Call>, input: Seq<u8>, cap: nat)
    requires
        calls.len() > 0,
        is_run(calls, input, cap),
        stream_reply(calls).0 is Ok,
        stream_reply(calls).1 == 0,
        stream_reply(calls).2.len() == 0,
    ensures
        inflated(Seq::empty(), input, Seq::empty(), cap) == Ok::<Seq<u8>, Error>(written_by(calls)),
{
    lemma_last_call(calls, input, cap);
}

/// A failure of the inflater is passed on with its code.
pub proof fn law_inflater_failures_are_passed_on(calls: Seq<Call>, input: Seq<u8>, cap: nat)
    requires
        calls.len() > 0,
        is_run(calls, input, cap),
        stream_reply(calls).0 is Err,
    ensures
        inflated(Seq::empty(), input, Seq::empty(), cap) == Err::<Seq<u8>, Error>(
            Error::Inflate(stream_reply(calls).0->Err_0),
        ),
{
    lemma_last_call(calls, input, cap);
}

/// Once the buffer is full and the stream has not ended, there is an overflow.
pub proof fn law_full_buffer_overflows(calls: Seq<Call>, input: Seq<u8>, cap: nat)
    requires
        is_run(calls, input, cap),
        calls.len() > 0 ==> went_on(calls),
        written_by(calls).len() == cap,
    ensures
        inflated(Seq::empty(), input, Seq::empty(), cap) == Err::<Seq<u8>, Error>(Error::Overflow),
{
    lemma_run(calls, input, cap);
}

/// No reply exceeds its call.
pub open spec fn replies_fit() -> bool {
    forall|calls: Seq<Call>|
        calls.len() > 0 ==> {
            let reply = #[trigger] stream_reply(calls);
            reply.1 <= calls.last().0.len() && reply.2.len() <= calls.last().1
        }
}

/// An overflow is only reported when the buffer is full before the stream has
/// ended: there is a run that fills it to the last byte, and goes on.
pub proof fn law_overflow_means_full(input: Seq<u8>, cap: nat) -> (calls: Seq<Call>)
    requires
        replies_fit(),
        inflated(Seq::empty(), input, Seq::empty(), cap) == Err::<Seq<u8>, Error>(Error::Overflow),
    ensures
        is_run(calls, input, cap),
        calls.len() > 0 ==> went_on(calls),
        written_by(calls).len() == cap,
{
    let none: Seq<Call> = Seq::empty();
    lemma_overflow_run(none, input, cap)
}

/// A run that has not overflowed yet can be followed until it does.
proof fn lemma_overflow_run(calls: Seq<Call>, input: Seq<u8>, cap: nat) -> (whole: Seq<Call>)
    requires
        replies_fit(),
        is_run(calls, input, cap),
        calls.len() > 0 ==> went_on(calls),
        inflated(Seq::empty(), input, Seq::empty(), cap) == Err::<Seq<u8>, Error>(Error::Overflow),
    ensures
        is_run(whole, input, cap),
        whole.len() > 0 ==> went_on(whole),
        written_by(whole).len() == cap,
    decreases input.len() - consumed_by(calls) + cap - written_by(calls).len(),
{
    lemma_run(calls, input, cap);
    if written_by(calls).len() >= cap {
        calls
    } else {
        let left = input.skip(consumed_by(calls) as int);
        let call: Call = (left, (cap - written_by(calls).len()) as nat, left.len() == 0);
        let more = calls.push(call);
        let reply = stream_reply(more);
        assert(more.last() == call);
        assert(more.drop_last() =~= calls);
        assert forall|k: int| 0 <= k < more.len() implies #[trigger] is_next(
            more.take(k),
            more[k],
            input,
            cap,
        ) by {
            if k < calls.len() {
                assert(more.take(k) =~= calls.take(k));
                assert(is_next(calls.take(k), calls[k], input, cap));
            } else {
                assert(more.take(k) =~= calls);
            }
        }
        assert(written_by(more) == written_by(calls) + reply.2);
        lemma_overflow_run(more, input, cap)
    }
}

/// A document that is valid UTF-8 comes out as that text, and nothing else does;
/// one that is not says how much of it is.
pub proof fn law_text_is_the_document(r: Result<&str, Error>, bytes: Seq<u8>)
    requires
        is_text_of(r, bytes),
    ensures
        valid_utf8(bytes) ==> r is Ok && (r->Ok_0)@ == decode_utf8(bytes),
        !valid_utf8(bytes) ==> r is Err && (r->Err_0 matches Error::NotUtf8(n) && n <= bytes.len()
            && valid_utf8(bytes.take(n as int))),
{
}

} // verus!
