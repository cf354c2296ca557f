//! Framing: from the chunks of bytes that a transport delivers to commands, one at a time.

use super::buffer::advance;
use super::buffer::as_slice;
use super::buffer::contents;
use super::decode::decode;
use super::decode::decoded;
use super::decode::lemma_decoded_bound;
use super::error::ConnectionError;
use super::laws::decodable;
use super::laws::lemma_decoded_cut;
use super::laws::lemma_round_trip;
use super::value::command_of;
use super::value::sized;
use super::value::views;
use super::value::wire;
use super::value::SpecValue;
use super::value::Value;
use bytes::BytesMut;
use vstd::prelude::*;

verus! {

/// What the framer asks of the caller after a chunk of bytes.
#[derive(Debug, PartialEq, Eq)]
pub enum ReadStep {
    /// The transport reported the end of the stream: there are no more commands.
    Closed,
    /// No command has arrived in full yet: receive more bytes and hand them over.
    NeedMoreData,
    /// A command arrived: its name and its arguments in order.
    Command(String, Vec<Value>),
}

/// The mathematical model of a [`ReadStep`].
pub ghost enum SpecReadStep {
    Closed,
    NeedMoreData,
    Command(Seq<char>, Seq<SpecValue>),
}

impl View for ReadStep {
    type V = SpecReadStep;

    open spec fn view(&self) -> SpecReadStep {
        match self {
            ReadStep::Closed => SpecReadStep::Closed,
            ReadStep::NeedMoreData => SpecReadStep::NeedMoreData,
            ReadStep::Command(name, args) => SpecReadStep::Command(name@, views(args@)),
        }
    }
}

/// The model of what reading a command returns.
pub open spec fn step_view(r: Result<ReadStep, ConnectionError>) -> Result<
    SpecReadStep,
    ConnectionError,
> {
    match r {
        Ok(step) => Ok(step@),
        Err(e) => Err(e),
    }
}

/// What the framer makes of a chunk of bytes that the transport delivered, given the bytes
/// that it holds from earlier chunks: the bytes that it holds afterwards, and the step to take.
///
/// An empty chunk is the end of the stream. Any other chunk is appended to the buffer, and the
/// buffer is decoded. Where a value has arrived in full, the bytes that it took leave the
/// buffer and the others stay for the next call; the value is then read as a command.
pub open spec fn framed(buffer: Seq<u8>, received: Seq<u8>) -> (
    Seq<u8>,
    Result<SpecReadStep, ConnectionError>,
) {
    if received.len() == 0 {
        (buffer, Ok(SpecReadStep::Closed))
    } else {
        let all = buffer + received;
        match decoded(all) {
            Err(e) => (all, Err(ConnectionError::Format(e))),
            Ok(None) => (all, Ok(SpecReadStep::NeedMoreData)),
            Ok(Some((value, used))) => (
                all.skip(used as int),
                match command_of(value) {
                    Ok((name, args)) => Ok(SpecReadStep::Command(name, args)),
                    Err(e) => Err(ConnectionError::Protocol(e)),
                },
            ),
        }
    }
}

/// The framing state of one connection: the bytes received that have not been decoded yet.
pub struct Connection {
    buffer: BytesMut,
}

impl View for Connection {
    type V = Seq<u8>;

    closed spec fn view(&self) -> Seq<u8> {
        contents(self.buffer)
    }
}

impl Connection {
    /// The framing state of a new connection: nothing has been received.
    pub fn new() -> (connection: Self)
        ensures
            connection@ == Seq::<u8>::empty(),
    {
        Connection { buffer: BytesMut::with_capacity(512) }
    }

    /// The number of bytes received that have not been decoded yet.
    pub fn buffered(&self) -> (len: usize)
        ensures
            len == self@.len(),
    {
        self.buffer.len()
    }

    /// Takes the chunk of bytes that the transport delivered, an empty one at the end of the
    /// stream, and says what to do next: stop, receive more, or run the command that arrived.
    /// The caller receives and calls again as long as the answer is `NeedMoreData`.
    pub fn read_command(&mut self, received: &[u8]) -> (r: Result<ReadStep, ConnectionError>)
        requires
            old(self)@.len() + received@.len() <= usize::MAX,
        ensures
            (final(self)@, step_view(r)) == framed(old(self)@, received@),
    {
        if received.len() == 0 {
            return Ok(ReadStep::Closed);
        }
        self.buffer.extend_from_slice(received);
        let message = decode(as_slice(&self.buffer));
        proof {
            lemma_decoded_bound(self@);
        }
        match message {
            Err(e) => Err(ConnectionError::Format(e)),
            Ok(None) => Ok(ReadStep::NeedMoreData),
            Ok(Some((value, used))) => {
                advance(&mut self.buffer, used);
                match value.to_command() {
                    Ok((name, args)) => Ok(ReadStep::Command(name, args)),
                    Err(e) => Err(ConnectionError::Protocol(e)),
                }
            },
        }
    }

    /// The bytes to write to the transport, in full, for a reply. The lengths and counts
    /// among them are those of a value in memory, which a `u64` holds.
    pub fn write_value(&self, value: &Value) -> (bytes: Vec<u8>)
        ensures
            bytes@ == wire(value@),
            sized(value@),
    {
        let mut bytes: Vec<u8> = Vec::new();
        value.encode_into(&mut bytes);
        assert(bytes@ =~= wire(value@));
        bytes
    }
}

/// Partial delivery, whatever the bytes are: where the framer asks for more data after a
/// first chunk, handing over a second chunk leaves the same buffer and leads to the same step
/// as handing over the two chunks as one.
pub proof fn lemma_chunks_add_up(buffer: Seq<u8>, first: Seq<u8>, second: Seq<u8>)
    requires
        framed(buffer, first) matches (_, Ok(SpecReadStep::NeedMoreData)),
        second.len() > 0,
    ensures
        framed(buffer + first, second) == framed(buffer, first + second),
{
    assert((buffer + first) + second =~= buffer + (first + second));
}

/// Partial delivery of an encoded value: cut anywhere into two chunks that are handed to a
/// new connection one after the other, the encoding makes the framer ask for more data after
/// the first chunk, and after the second it leads to the same step, and leaves the same
/// buffer, as the whole encoding handed over at once. The buffer is then empty, and the step
/// is what the value is as a command.
pub proof fn lemma_partial_delivery(v: SpecValue, k: int)
    requires
        decodable(v),
        0 < k < wire(v).len(),
    ensures
        framed(Seq::empty(), wire(v).take(k)) matches (held, Ok(SpecReadStep::NeedMoreData))
            && held == wire(v).take(k),
        framed(wire(v).take(k), wire(v).skip(k)) == framed(Seq::empty(), wire(v)),
        framed(Seq::empty(), wire(v)) == (Seq::<u8>::empty(), match command_of(v) {
            Ok((name, args)) => Ok(SpecReadStep::Command(name, args)),
            Err(e) => Err(ConnectionError::Protocol(e)),
        }),
{
    let all = wire(v);
    let first = all.take(k);
    let second = all.skip(k);
    lemma_decoded_cut(v, k);
    lemma_round_trip(v);
    assert(Seq::<u8>::empty() + first =~= first);
    assert(Seq::<u8>::empty() + all =~= all);
    assert(first + second =~= all);
    assert(all.skip(all.len() as int) =~= Seq::<u8>::empty());
}

} // verus!
