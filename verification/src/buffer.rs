//! A byte stream over a reliable [`Channel`].
//!
//! Writing cuts bytes into channel messages; reading joins delivered messages in order. An
//! empty message, which no write makes, marks the end of the stream.

use crate::bytes;
use crate::channel;
use crate::channel::{Channel, ChannelModel, Envelope, DEFAULT_CHUNK};
use std::collections::VecDeque;
use vstd::prelude::*;

verus! {

/// What a [`Buffer`] knows.
#[verifier::ext_equal]
pub struct BufferModel {
    pub channel: ChannelModel,
    pub max_chunk: nat,
    /// Delivered bytes, not yet read.
    pub read_buf: Seq<u8>,
    /// The end of the stream has been delivered.
    pub finished: bool,
}

/// Whether a list of messages has the end-of-stream mark among them.
pub open spec fn ends_stream(messages: Seq<Seq<u8>>) -> bool {
    exists|i: int| 0 <= i < messages.len() && (#[trigger] messages[i]).len() == 0
}

impl BufferModel {
    /// The delivered messages taken over into the bytes to read.
    pub open spec fn filled(self) -> BufferModel {
        BufferModel {
            channel: ChannelModel { inbox: Seq::empty(), ..self.channel },
            read_buf: self.read_buf + bytes::joined(self.channel.inbox),
            finished: self.finished || ends_stream(self.channel.inbox),
            ..self
        }
    }

    /// The largest message that a write makes.
    pub open spec fn chunk_size(self) -> nat {
        if self.max_chunk >= 1 {
            self.max_chunk
        } else {
            1
        }
    }

    /// The bytes that a read can take now.
    pub open spec fn available(self) -> Seq<u8> {
        self.filled().read_buf
    }
}

/// A byte stream over a reliable [`Channel`]: [`write`](Self::write) chunks bytes into channel
/// messages, [`read`](Self::read) concatenates delivered messages in order. The driver pumps
/// [`poll_transmit`](Self::poll_transmit) / [`handle`](Self::handle) /
/// [`on_proof`](Self::on_proof) against the wire.
pub struct Buffer {
    channel: Channel,
    max_chunk: usize,
    read_buf: VecDeque<u8>,
    finished: bool,
}

impl View for Buffer {
    type V = BufferModel;

    closed spec fn view(&self) -> BufferModel {
        BufferModel {
            channel: self.channel@,
            max_chunk: self.max_chunk as nat,
            read_buf: self.read_buf@,
            finished: self.finished,
        }
    }
}

/// A buffer that has read and written nothing.
pub open spec fn new_buffer(channel: ChannelModel, max_chunk: nat) -> BufferModel {
    BufferModel {
        channel,
        max_chunk: if max_chunk >= 1 {
            max_chunk
        } else {
            1
        },
        read_buf: Seq::empty(),
        finished: false,
    }
}

/// The channel that a buffer has unless it is given one.
pub open spec fn stream_channel() -> ChannelModel {
    channel::new_channel(
        channel::STREAM_MSGTYPE,
        channel::WINDOW_INITIAL,
        channel::DEFAULT_RETX_TIMEOUT,
        true,
    )
}

impl Default for Buffer {
    fn default() -> (buffer: Self)
        ensures
            buffer@ == new_buffer(stream_channel(), DEFAULT_CHUNK as nat),
    {
        Buffer::new()
    }
}

impl Buffer {
    /// A buffer with the default channel and chunk size.
    pub fn new() -> (buffer: Self)
        ensures
            buffer@ == new_buffer(stream_channel(), DEFAULT_CHUNK as nat),
    {
        Buffer::with_channel(Channel::new(channel::STREAM_MSGTYPE), DEFAULT_CHUNK)
    }

    /// A buffer over an explicit channel and chunk size (of at least one).
    pub fn with_channel(channel: Channel, max_chunk: usize) -> (buffer: Self)
        ensures
            buffer@ == new_buffer(channel@, max_chunk as nat),
    {
        let buffer = Buffer {
            channel,
            max_chunk: if max_chunk >= 1 {
                max_chunk
            } else {
                1
            },
            read_buf: VecDeque::new(),
            finished: false,
        };
        assert(buffer@ =~= new_buffer(channel@, max_chunk as nat));
        buffer
    }

    /// Queue bytes for reliable, in-order delivery, chunked into channel messages.
    pub fn write(&mut self, data: &[u8])
        ensures
            final(self)@ == (BufferModel {
                channel: ChannelModel {
                    outgoing: old(self)@.channel.outgoing + bytes::chunks(
                        data@,
                        old(self)@.chunk_size(),
                    ),
                    ..old(self)@.channel
                },
                ..old(self)@
            }),
    {
        let size: usize = if self.max_chunk >= 1 {
            self.max_chunk
        } else {
            1
        };
        let pieces: Vec<Vec<u8>> = bytes::split_chunks(data, size);
        let ghost list = bytes::views(pieces@);
        let ghost start = self@;
        let mut i: usize = 0;
        assert(start.channel.outgoing + list.take(0) =~= start.channel.outgoing);
        while i < pieces.len()
            invariant
                i <= pieces@.len(),
                list == bytes::views(pieces@),
                self@ == (BufferModel {
                    channel: ChannelModel {
                        outgoing: start.channel.outgoing + list.take(i as int),
                        ..start.channel
                    },
                    ..start
                }),
            decreases pieces@.len() - i,
        {
            let piece: Vec<u8> = bytes::copy_all(&pieces[i]);
            let ghost before = self@.channel.outgoing;
            self.channel.send(piece);
            assert(list.take(i + 1) =~= list.take(i as int).push(list[i as int]));
            assert(before.push(list[i as int]) =~= start.channel.outgoing + list.take(i + 1));
            i += 1;
        }
        assert(list.take(list.len() as int) =~= list);
    }

    /// Mark our send stream finished with an end-of-stream message.
    pub fn finish(&mut self)
        ensures
            final(self)@ == (BufferModel {
                channel: ChannelModel {
                    outgoing: old(self)@.channel.outgoing.push(Seq::<u8>::empty()),
                    ..old(self)@.channel
                },
                ..old(self)@
            }),
    {
        let end: Vec<u8> = Vec::new();
        assert(end@ =~= Seq::<u8>::empty());
        self.channel.send(end);
    }

    /// Copy up to `out.len()` delivered bytes into `out`, returning the count read.
    pub fn read(&mut self, out: &mut [u8]) -> (count: usize)
        ensures
            ({
                let full = old(self)@.filled();
                let n = if old(out)@.len() <= full.read_buf.len() {
                    old(out)@.len()
                } else {
                    full.read_buf.len()
                };
                &&& count as nat == n
                &&& final(out)@ == full.read_buf.take(n as int) + old(out)@.skip(n as int)
                &&& final(self)@ == (BufferModel { read_buf: full.read_buf.skip(n as int), ..full })
            }),
    {
        self.fill();
        let ghost full = self@;
        let ghost first = out@;
        let n: usize = if out.len() <= self.read_buf.len() {
            out.len()
        } else {
            self.read_buf.len()
        };
        let mut i: usize = 0;
        assert(full.read_buf.skip(0) =~= full.read_buf);
        while i < n
            invariant
                i <= n,
                n <= first.len(),
                n <= full.read_buf.len(),
                out@.len() == first.len(),
                self@ == (BufferModel { read_buf: full.read_buf.skip(i as int), ..full }),
                forall|j: int| 0 <= j < i ==> out@[j] == full.read_buf[j],
                forall|j: int| i <= j < first.len() ==> out@[j] == first[j],
            decreases n - i,
        {
            let ghost before = self.read_buf@;
            match self.read_buf.pop_front() {
                Some(b) => {
                    assert(b == full.read_buf[i as int]);
                    out[i] = b;
                },
                None => {},
            }
            assert(self.read_buf@ =~= full.read_buf.skip(i + 1));
            i += 1;
        }
        assert(out@ =~= full.read_buf.take(n as int) + first.skip(n as int));
        n
    }

    /// Take all currently-available delivered bytes.
    pub fn read_available(&mut self) -> (out: Vec<u8>)
        ensures
            out@ == old(self)@.available(),
            final(self)@ == (BufferModel { read_buf: Seq::empty(), ..old(self)@.filled() }),
    {
        self.fill();
        let ghost full = self@;
        let mut out: Vec<u8> = Vec::new();
        assert(out@ + full.read_buf =~= full.read_buf);
        while self.read_buf.len() > 0
            invariant
                self@ == (BufferModel { read_buf: self.read_buf@, ..full }),
                out@ + self.read_buf@ == full.read_buf,
            decreases self.read_buf@.len(),
        {
            let ghost before = self.read_buf@;
            let ghost taken = out@;
            match self.read_buf.pop_front() {
                Some(b) => {
                    out.push(b);
                    assert(taken.push(b) + self.read_buf@ =~= taken + before);
                },
                None => {},
            }
        }
        assert(self.read_buf@ =~= Seq::<u8>::empty());
        assert(out@ =~= full.read_buf);
        out
    }

    fn fill(&mut self)
        ensures
            final(self)@ == old(self)@.filled(),
    {
        let ghost start = self@;
        loop
            invariant
                self@.filled() == start.filled(),
            ensures
                self@.channel.inbox.len() == 0,
                self@.filled() == start.filled(),
            decreases self@.channel.inbox.len(),
        {
            let ghost before = self@;
            match self.channel.recv() {
                None => {
                    break;
                },
                Some(message) => {
                    let ghost inbox = before.channel.inbox;
                    let ghost rest = inbox.skip(1);
                    if message.len() == 0 {
                        self.finished = true;
                    }
                    self.append(&message);
                    proof {
                        assert(inbox =~= seq![message@] + rest);
                        bytes::lemma_joined_concat(seq![message@], rest);
                        assert(bytes::joined(seq![message@]) =~= message@) by {
                            reveal_with_fuel(bytes::joined, 2);
                            assert(seq![message@].drop_last() =~= Seq::<Seq<u8>>::empty());
                        }
                        assert(self@.read_buf + bytes::joined(rest) =~= before.read_buf
                            + bytes::joined(inbox));
                        if ends_stream(inbox) && message@.len() > 0 {
                            let i = choose|i: int|
                                0 <= i < inbox.len() && (#[trigger] inbox[i]).len() == 0;
                            assert(rest[i - 1].len() == 0);
                        }
                        if ends_stream(rest) {
                            let i = choose|i: int|
                                0 <= i < rest.len() && (#[trigger] rest[i]).len() == 0;
                            assert(inbox[i + 1].len() == 0);
                        }
                        if message@.len() == 0 {
                            assert(inbox[0].len() == 0);
                        }
                        assert(self@.filled() =~= before.filled());
                    }
                },
            }
        }
        proof {
            assert(self@.channel.inbox =~= Seq::<Seq<u8>>::empty());
            assert(self@.read_buf + bytes::joined(self@.channel.inbox) =~= self@.read_buf);
            assert(self@ =~= self@.filled());
        }
    }

    /// Put the bytes of a delivered message behind those to read.
    fn append(&mut self, message: &Vec<u8>)
        ensures
            final(self)@ == (BufferModel {
                read_buf: old(self)@.read_buf + message@,
                ..old(self)@
            }),
    {
        let ghost start = self@;
        let mut i: usize = 0;
        assert(start.read_buf + message@.take(0) =~= start.read_buf);
        while i < message.len()
            invariant
                i <= message@.len(),
                self@ == (BufferModel {
                    read_buf: start.read_buf + message@.take(i as int),
                    ..start
                }),
            decreases message@.len() - i,
        {
            self.read_buf.push_back(message[i]);
            assert(self.read_buf@ =~= start.read_buf + message@.take(i + 1));
            i += 1;
        }
        assert(message@.take(message@.len() as int) =~= message@);
    }

    /// Envelopes to put on the wire now — see [`Channel::poll_transmit`].
    pub fn poll_transmit(&mut self, now: u64) -> (out: Vec<Envelope>)
        ensures
            channel::envelope_models(out@) == old(self)@.channel.transmits(now),
            final(self)@ == (BufferModel {
                channel: old(self)@.channel.transmitted(now),
                ..old(self)@
            }),
    {
        self.channel.poll_transmit(now)
    }

    /// Feed a received envelope in — see [`Channel::handle`].
    pub fn handle(&mut self, envelope: Envelope)
        ensures
            final(self)@ == (BufferModel {
                channel: old(self)@.channel.handled(envelope@),
                ..old(self)@
            }),
    {
        self.channel.handle(envelope);
    }

    /// Whether a sequence is unproven — see [`Channel::is_outstanding`].
    pub fn is_outstanding(&self, sequence: u16) -> (found: bool)
        ensures
            found == channel::is_outstanding(self@.channel.outstanding, sequence),
    {
        self.channel.is_outstanding(sequence)
    }

    /// Release a proven sequence — see [`Channel::on_proof`].
    pub fn on_proof(&mut self, sequence: u16, now: u64)
        ensures
            final(self)@ == (BufferModel {
                channel: old(self)@.channel.proved(sequence, now),
                ..old(self)@
            }),
    {
        self.channel.on_proof(sequence, now);
    }

    /// Whether the peer's end-of-stream message has been delivered.
    pub fn recv_finished(&mut self) -> (finished: bool)
        ensures
            finished == old(self)@.filled().finished,
            final(self)@ == old(self)@.filled(),
    {
        self.fill();
        self.finished
    }

    /// The current send window — see [`Channel::window`].
    pub fn window(&self) -> (window: u32)
        ensures
            window == self@.channel.window,
    {
        self.channel.window()
    }

    /// Whether everything written has been sent and proven.
    pub fn send_idle(&self) -> (idle: bool)
        ensures
            idle == (self@.channel.outgoing.len() == 0 && self@.channel.outstanding.len() == 0),
    {
        self.channel.send_idle()
    }
}

} // verus!
