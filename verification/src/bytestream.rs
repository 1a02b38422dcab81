//! What two reliable channels over one link promise end to end: the reader is given the bytes that
//! were written, in order and each once, and in the end all of them.
//!
//! One end writes and the other reads. The medium may lose, delay, reorder, and repeat packets and
//! proofs as it likes.

use crate::buffer;
use crate::buffer::BufferModel;
use crate::bytes;
use crate::channel;
use crate::channel::{ChannelModel, EnvelopeModel};
use crate::delivery;
use crate::delivery::{Pipe, Step};
use crate::error::Error;
use crate::honesty;
use crate::link::LinkModel;
use crate::packet::PacketModel;
use crate::reliable;
use crate::reliable::ReliableModel;
use crate::rns_identity::Identity;
use crate::token;
use vstd::prelude::*;

verus! {

/// Two ends of a byte stream, the medium between them, and what has passed through.
#[verifier::ext_equal]
pub struct Conversation {
    pub writer: ReliableModel,
    pub reader: ReliableModel,
    /// Every byte written so far.
    pub written: Seq<u8>,
    /// The messages that the writing was cut into.
    pub queued: Seq<Seq<u8>>,
    /// Whether the writer has finished its stream.
    pub closed: bool,
    /// Every packet put on the wire so far.
    pub wire: Seq<PacketModel>,
    /// The envelope that each of those packets carries.
    pub carried: Seq<EnvelopeModel>,
    /// The numbers of the messages that have reached the reader's end, at least once.
    pub reached: Set<int>,
    /// The messages that the reader's end has taken from its channel.
    pub taken: Seq<Seq<u8>>,
    /// Every byte that reading has given so far.
    pub got: Seq<u8>,
}

/// One thing that happens.
pub enum Event {
    /// The writer writes.
    Write(Seq<u8>),
    /// The writer finishes its stream.
    Finish,
    /// The writer's end transmits at some time, in these packets.
    Transmit(u64, Seq<PacketModel>),
    /// A packet that was once put on the wire, which carries message number `k`, reaches the
    /// reader's end.
    Arrive(int, int),
    /// Some packet reaches the writer's end as a proof, at some time. It may be anything.
    Proof(PacketModel, u64),
    /// The reader reads.
    Read,
    /// The reader asks whether the stream is finished.
    Ask,
}

impl Conversation {
    /// What has been delivered: taken from the channel, or waiting there.
    pub open spec fn delivered(self) -> Seq<Seq<u8>> {
        self.taken + self.reader.buffer.channel.inbox
    }

    /// The conversation with `messages` queued.
    pub open spec fn with_queued(self, messages: Seq<Seq<u8>>) -> Conversation {
        Conversation {
            writer: self.writer.with_queued(messages),
            queued: self.queued + messages,
            ..self
        }
    }

    /// Whether an event can happen: what is transmitted is the packets of the envelopes that are
    /// due, each of which opens to its envelope; and what arrives was sent, and is not off by half
    /// the sequence space or more from what the reader waits for.
    pub open spec fn allows(self, event: Event) -> bool {
        match event {
            Event::Transmit(now, packets) => {
                let envelopes = self.writer.buffer.channel.transmits(now);
                &&& packets.len() == envelopes.len()
                &&& forall|i: int|
                    0 <= i < packets.len() ==> token::opened(
                        self.writer.link.keys,
                        (#[trigger] packets[i]).payload,
                    ) == Ok::<Seq<u8>, Error>(envelopes[i].wire())
            },
            Event::Arrive(i, k) => {
                &&& 0 <= i < self.wire.len()
                &&& delivery::carries(self.carried[i], self.queued, k)
                &&& self.delivered().len() - 32768 <= k < self.delivered().len() + 32768
            },
            _ => true,
        }
    }

    /// What is so after an event.
    pub open spec fn after(self, event: Event) -> Conversation {
        match event {
            Event::Write(data) => Conversation {
                written: self.written + data,
                ..self.with_queued(bytes::chunks(data, self.writer.buffer.chunk_size()))
            },
            Event::Finish => Conversation {
                closed: true,
                ..self.with_queued(seq![Seq::<u8>::empty()])
            },
            Event::Transmit(now, packets) => Conversation {
                writer: self.writer.after_transmit(now, packets),
                wire: self.wire + packets,
                carried: self.carried + self.writer.buffer.channel.transmits(now),
                ..self
            },
            Event::Arrive(i, k) => Conversation {
                reader: self.reader.after_data(self.wire[i]),
                reached: self.reached.insert(k),
                ..self
            },
            Event::Proof(packet, now) => Conversation {
                writer: self.writer.after_proof(packet, now),
                ..self
            },
            Event::Read => Conversation {
                reader: ReliableModel {
                    buffer: BufferModel {
                        read_buf: Seq::empty(),
                        ..self.reader.buffer.filled()
                    },
                    ..self.reader
                },
                taken: self.delivered(),
                got: self.got + self.reader.buffer.available(),
                ..self
            },
            Event::Ask => Conversation {
                reader: ReliableModel { buffer: self.reader.buffer.filled(), ..self.reader },
                taken: self.delivered(),
                ..self
            },
        }
    }

    /// What is so after a run of events.
    pub open spec fn after_all(self, events: Seq<Event>) -> Conversation
        decreases events.len(),
    {
        if events.len() == 0 {
            self
        } else {
            self.after_all(events.drop_last()).after(events.last())
        }
    }

    /// Whether every event of a run can happen in its turn.
    pub open spec fn allows_all(self, events: Seq<Event>) -> bool
        decreases events.len(),
    {
        events.len() == 0 || self.allows_all(events.drop_last()) && self.after_all(
            events.drop_last(),
        ).allows(events.last())
    }

    /// The two channels, as ends of a pipe.
    pub open spec fn pipe(self) -> Pipe {
        Pipe {
            sender: self.writer.buffer.channel,
            receiver: self.reader.buffer.channel,
            queued: self.queued,
            wire: self.carried,
            got: self.taken,
        }
    }

    /// Whether every message queued so far has reached the reader's end.
    pub open spec fn all_reached(self) -> bool {
        forall|k: int| 0 <= k < self.queued.len() ==> #[trigger] self.reached.contains(k)
    }

    /// The messages are what was written: together they are the bytes, each fits an envelope, and
    /// the empty one is there exactly if the stream is finished.
    spec fn well_cut(self) -> bool {
        &&& bytes::joined(self.queued) == self.written
        &&& forall|k: int|
            0 <= k < self.queued.len() ==> (#[trigger] self.queued[k]).len() <= 0xffff
        &&& self.closed == buffer::ends_stream(self.queued)
        &&& self.writer.buffer.max_chunk <= 0xffff
    }

    /// Each packet on the wire opens to the envelope it carries, at either end.
    spec fn well_sealed(self) -> bool {
        &&& self.writer.link == self.reader.link
        &&& self.wire.len() == self.carried.len()
        &&& forall|i: int|
            0 <= i < self.wire.len() ==> token::opened(
                self.writer.link.keys,
                (#[trigger] self.wire[i]).payload,
            ) == Ok::<Seq<u8>, Error>(self.carried[i].wire())
    }

    /// What the reader has been given, with what waits to be read, is what was taken.
    spec fn well_read(self) -> bool {
        &&& self.got + self.reader.buffer.read_buf == bytes::joined(self.taken)
        &&& self.reader.buffer.finished == buffer::ends_stream(self.taken)
    }

    /// What has reached the reader's end is delivered, or held ahead of a gap.
    spec fn well_kept(self) -> bool {
        forall|k: int| #[trigger]
            self.reached.contains(k) ==> 0 <= k < self.queued.len() && k < self.delivered().len()
                + 32768 && honesty::arrived(self.pipe(), k)
    }

    spec fn sound(self) -> bool {
        &&& self.pipe().in_order(honesty::sent(self.pipe()))
        &&& self.well_cut()
        &&& self.well_sealed()
        &&& self.well_read()
        &&& self.well_kept()
    }
}

/// Queueing messages keeps two ends in order.
proof fn lemma_queueing_all(p: Pipe, sent: int, messages: Seq<Seq<u8>>)
    requires
        p.in_order(sent),
    ensures
        (Pipe {
            sender: ChannelModel { outgoing: p.sender.outgoing + messages, ..p.sender },
            queued: p.queued + messages,
            ..p
        }).in_order(sent),
    decreases messages.len(),
{
    let q = Pipe {
        sender: ChannelModel { outgoing: p.sender.outgoing + messages, ..p.sender },
        queued: p.queued + messages,
        ..p
    };
    if messages.len() == 0 {
        assert(p.sender.outgoing + messages =~= p.sender.outgoing);
        assert(p.queued + messages =~= p.queued);
        assert(q == p);
    } else {
        let front = messages.drop_last();
        lemma_queueing_all(p, sent, front);
        let before = Pipe {
            sender: ChannelModel { outgoing: p.sender.outgoing + front, ..p.sender },
            queued: p.queued + front,
            ..p
        };
        let now_sent = delivery::lemma_step(before, sent, Step::Queue(messages.last()));
        let after = before.after(Step::Queue(messages.last()));
        assert((p.sender.outgoing + front).push(messages.last()) =~= p.sender.outgoing + messages);
        assert((p.queued + front).push(messages.last()) =~= p.queued + messages);
        assert(after == q);
        assert(now_sent == honesty::sent(after));
        assert(sent == honesty::sent(before));
    }
}

/// A list ends the stream if one of its two halves does.
proof fn lemma_ends_stream_concat(a: Seq<Seq<u8>>, b: Seq<Seq<u8>>)
    ensures
        buffer::ends_stream(a + b) == (buffer::ends_stream(a) || buffer::ends_stream(b)),
{
    let all = a + b;
    if buffer::ends_stream(a) {
        let i = choose|i: int| 0 <= i < a.len() && (#[trigger] a[i]).len() == 0;
        assert(all[i].len() == 0);
    }
    if buffer::ends_stream(b) {
        let i = choose|i: int| 0 <= i < b.len() && (#[trigger] b[i]).len() == 0;
        assert(all[a.len() + i].len() == 0);
    }
    if buffer::ends_stream(all) {
        let i = choose|i: int| 0 <= i < all.len() && (#[trigger] all[i]).len() == 0;
        if i < a.len() {
            assert(a[i].len() == 0);
        } else {
            assert(b[i - a.len()].len() == 0);
        }
    }
}

/// Queueing messages that fit an envelope.
proof fn lemma_queued(t: Conversation, messages: Seq<Seq<u8>>)
    requires
        t.sound(),
        forall|k: int| 0 <= k < messages.len() ==> (#[trigger] messages[k]).len() <= 0xffff,
    ensures
        ({
            let u = t.with_queued(messages);
            &&& u.pipe().in_order(honesty::sent(u.pipe()))
            &&& bytes::joined(u.queued) == t.written + bytes::joined(messages)
            &&& forall|k: int| 0 <= k < u.queued.len() ==> (#[trigger] u.queued[k]).len() <= 0xffff
            &&& buffer::ends_stream(u.queued) == (t.closed || buffer::ends_stream(messages))
            &&& u.well_sealed()
            &&& u.well_read()
            &&& u.well_kept()
        }),
{
    let u = t.with_queued(messages);
    lemma_queueing_all(t.pipe(), honesty::sent(t.pipe()), messages);
    assert(honesty::sent(u.pipe()) == honesty::sent(t.pipe()));
    bytes::lemma_joined_concat(t.queued, messages);
    lemma_ends_stream_concat(t.queued, messages);
    assert forall|k: int| 0 <= k < u.queued.len() implies (#[trigger] u.queued[k]).len()
        <= 0xffff by {
        if k < t.queued.len() {
            assert(u.queued[k] == t.queued[k]);
        } else {
            assert(u.queued[k] == messages[k - t.queued.len()]);
        }
    }
    assert forall|k: int| #[trigger] u.reached.contains(k) implies 0 <= k < u.queued.len() && k
        < u.delivered().len() + 32768 && honesty::arrived(u.pipe(), k) by {
        assert(t.reached.contains(k));
        assert(honesty::arrived(t.pipe(), k));
    }
}

proof fn lemma_write(t: Conversation, data: Seq<u8>)
    requires
        t.sound(),
    ensures
        t.after(Event::Write(data)).sound(),
{
    let size = t.writer.buffer.chunk_size();
    let messages = bytes::chunks(data, size);
    bytes::law_chunk_sizes(data, size);
    bytes::law_chunks_join(data, size);
    assert forall|k: int| 0 <= k < messages.len() implies (#[trigger] messages[k]).len()
        <= 0xffff by {
        assert(0 < messages[k].len() <= size);
    }
    assert(!buffer::ends_stream(messages));
    lemma_queued(t, messages);
    let u = t.after(Event::Write(data));
    assert(u.pipe() == t.with_queued(messages).pipe());
    assert(u.well_kept()) by {
        assert(t.with_queued(messages).well_kept());
        assert forall|k: int| #[trigger] u.reached.contains(k) implies 0 <= k < u.queued.len() && k
            < u.delivered().len() + 32768 && honesty::arrived(u.pipe(), k) by {
            assert(t.with_queued(messages).reached.contains(k));
        }
    }
}

proof fn lemma_finish(t: Conversation)
    requires
        t.sound(),
    ensures
        t.after(Event::Finish).sound(),
{
    let messages = seq![Seq::<u8>::empty()];
    assert(messages[0].len() == 0);
    assert(bytes::joined(messages) =~= Seq::<u8>::empty()) by {
        assert(messages.drop_last() =~= Seq::<Seq<u8>>::empty());
        reveal_with_fuel(bytes::joined, 2);
    }
    lemma_queued(t, messages);
    let u = t.after(Event::Finish);
    assert(t.written + bytes::joined(messages) =~= t.written);
    assert(u.pipe() == t.with_queued(messages).pipe());
    assert(u.well_kept()) by {
        assert forall|k: int| #[trigger] u.reached.contains(k) implies 0 <= k < u.queued.len() && k
            < u.delivered().len() + 32768 && honesty::arrived(u.pipe(), k) by {
            assert(t.with_queued(messages).reached.contains(k));
        }
    }
}

proof fn lemma_transmit(t: Conversation, now: u64, packets: Seq<PacketModel>)
    requires
        t.sound(),
        t.allows(Event::Transmit(now, packets)),
    ensures
        t.after(Event::Transmit(now, packets)).sound(),
{
    let u = t.after(Event::Transmit(now, packets));
    let p = t.pipe();
    let envelopes = t.writer.buffer.channel.transmits(now);
    let sent = delivery::lemma_step(p, honesty::sent(p), Step::Transmit(now));
    assert(u.pipe() == p.after(Step::Transmit(now)));
    assert(sent == honesty::sent(u.pipe()));
    assert forall|i: int| 0 <= i < u.wire.len() implies token::opened(
        u.writer.link.keys,
        (#[trigger] u.wire[i]).payload,
    ) == Ok::<Seq<u8>, Error>(u.carried[i].wire()) by {
        if i < t.wire.len() {
            assert(u.wire[i] == t.wire[i]);
            assert(u.carried[i] == t.carried[i]);
        } else {
            assert(u.wire[i] == packets[i - t.wire.len()]);
            assert(u.carried[i] == envelopes[i - t.wire.len()]);
        }
    }
    assert forall|k: int| #[trigger] u.reached.contains(k) implies 0 <= k < u.queued.len() && k
        < u.delivered().len() + 32768 && honesty::arrived(u.pipe(), k) by {
        assert(t.reached.contains(k));
        assert(honesty::arrived(t.pipe(), k));
    }
}

/// What has arrived stays, and what arrives now is delivered or held.
proof fn lemma_kept(p: Pipe, i: int, k: int)
    requires
        p.in_order(honesty::sent(p)),
        0 <= i < p.wire.len(),
        delivery::carries(p.wire[i], p.queued, k),
        p.delivered().len() - 32768 <= k < p.delivered().len() + 32768,
    ensures
        ({
            let q = p.after(Step::Arrive(i));
            &&& p.delivered().len() <= q.delivered().len()
            &&& honesty::arrived(q, k)
            &&& forall|j: int|
                0 <= j < p.delivered().len() + 32768 && honesty::arrived(p, j)
                    ==> #[trigger] honesty::arrived(q, j)
        }),
{
    let q = p.after(Step::Arrive(i));
    let e = p.wire[i];
    let n = p.delivered().len() as int;
    delivery::lemma_inbox_grows(p.receiver, e);
    assert(q.delivered().len() == n + q.receiver.inbox.len() - p.receiver.inbox.len());
    assert forall|j: int| 0 <= j < n + 32768 && honesty::arrived(p, j) implies
        #[trigger] honesty::arrived(q, j) by {
        let s = honesty::sequence_of(j);
        if j >= n {
            assert(p.receiver.reorder.contains_key(s));
            assert(p.receiver.ahead(s) == j - n) by {
                assert((j % 65536 - n % 65536) % 65536 == (j - n) % 65536);
            }
            honesty::lemma_handled_keeps(p.receiver, e, s);
        }
    }
    if k >= n {
        assert(p.receiver.ahead(e.sequence) == k - n) by {
            assert((k % 65536 - n % 65536) % 65536 == (k - n) % 65536);
        }
        if k == n {
            delivery::law_the_next_message_is_delivered(p.receiver, p.queued, n, e);
        }
    }
}

proof fn lemma_arrive(t: Conversation, i: int, k: int)
    requires
        t.sound(),
        t.allows(Event::Arrive(i, k)),
    ensures
        t.after(Event::Arrive(i, k)).sound(),
{
    let u = t.after(Event::Arrive(i, k));
    let p = t.pipe();
    let e = t.carried[i];
    assert(e.payload == t.queued[k]);
    reliable::law_sealed_envelopes_arrive(t.reader, t.wire[i], e);
    assert(u.pipe() == p.after(Step::Arrive(i)));
    assert(p.allows(Step::Arrive(i)));
    let sent = delivery::lemma_step(p, honesty::sent(p), Step::Arrive(i));
    assert(sent == honesty::sent(u.pipe()));
    lemma_kept(p, i, k);
    assert(u.delivered() == u.pipe().delivered());
    assert forall|j: int| #[trigger] u.reached.contains(j) implies 0 <= j < u.queued.len() && j
        < u.delivered().len() + 32768 && honesty::arrived(u.pipe(), j) by {
        if j != k {
            assert(t.reached.contains(j));
        }
    }
}

proof fn lemma_proof(t: Conversation, packet: PacketModel, now: u64)
    requires
        t.sound(),
    ensures
        t.after(Event::Proof(packet, now)).sound(),
{
    let u = t.after(Event::Proof(packet, now));
    let p = t.pipe();
    if let Some(sequence) = t.writer.released_by(packet) {
        let sent = delivery::lemma_step(p, honesty::sent(p), Step::Proof(sequence, now));
        assert(u.pipe() == p.after(Step::Proof(sequence, now)));
        assert(sent == honesty::sent(u.pipe()));
    } else {
        assert(u.pipe() == p);
    }
    assert forall|k: int| #[trigger] u.reached.contains(k) implies 0 <= k < u.queued.len() && k
        < u.delivered().len() + 32768 && honesty::arrived(u.pipe(), k) by {
        assert(t.reached.contains(k));
        assert(honesty::arrived(t.pipe(), k));
    }
}

proof fn lemma_taken(t: Conversation, event: Event)
    requires
        t.sound(),
        event is Read || event is Ask,
    ensures
        t.after(event).sound(),
{
    let u = t.after(event);
    let inbox = t.reader.buffer.channel.inbox;
    bytes::lemma_joined_concat(t.taken, inbox);
    lemma_ends_stream_concat(t.taken, inbox);
    assert(u.delivered() =~= t.delivered());
    assert(u.pipe().delivered() =~= t.pipe().delivered());
    let whole = (t.got + t.reader.buffer.read_buf) + bytes::joined(inbox);
    assert(u.got + u.reader.buffer.read_buf =~= whole);
    assert forall|k: int| #[trigger] u.reached.contains(k) implies 0 <= k < u.queued.len() && k
        < u.delivered().len() + 32768 && honesty::arrived(u.pipe(), k) by {
        assert(t.reached.contains(k));
        assert(honesty::arrived(t.pipe(), k));
    }
}

proof fn lemma_run(start: Conversation, events: Seq<Event>)
    requires
        start.sound(),
        start.allows_all(events),
    ensures
        start.after_all(events).sound(),
    decreases events.len(),
{
    if events.len() > 0 {
        lemma_run(start, events.drop_last());
        let t = start.after_all(events.drop_last());
        match events.last() {
            Event::Write(data) => lemma_write(t, data),
            Event::Finish => lemma_finish(t),
            Event::Transmit(now, packets) => lemma_transmit(t, now, packets),
            Event::Arrive(i, k) => lemma_arrive(t, i, k),
            Event::Proof(packet, now) => lemma_proof(t, packet, now),
            Event::Read => lemma_taken(t, Event::Read),
            Event::Ask => lemma_taken(t, Event::Ask),
        }
    }
}

/// Two fresh reliable channels over one link, and nothing passed between them yet.
pub open spec fn fresh_conversation(writer: ReliableModel, reader: ReliableModel) -> Conversation {
    Conversation {
        writer,
        reader,
        written: Seq::empty(),
        queued: Seq::empty(),
        closed: false,
        wire: Seq::empty(),
        carried: Seq::empty(),
        reached: Set::empty(),
        taken: Seq::empty(),
        got: Seq::empty(),
    }
}

/// A byte stream is faithful over any medium: start a reliable channel at each end of a link,
/// write to the one and read from the other, and let packets and proofs be lost, delayed,
/// reordered, repeated, or made up (proofs) as the medium likes. At every moment the bytes that
/// reading has given are a prefix of the bytes written, so none is given twice. And once every
/// message has reached the reader's end at least once, the bytes given with those that wait to be
/// read are all that was written, and the reader's end says that the stream is finished exactly
/// if the writer finished it. (A packet must not be delayed by half the sequence space or more.)
pub proof fn law_the_reader_gets_what_was_written(
    link: LinkModel,
    prover: Seq<u8>,
    peer: Identity,
    other_prover: Seq<u8>,
    other_peer: Identity,
    events: Seq<Event>,
)
    ensures
        ({
            let start = fresh_conversation(
                reliable::new_reliable(link, prover, peer),
                reliable::new_reliable(link, other_prover, other_peer),
            );
            let end = start.after_all(events);
            start.allows_all(events) ==> {
                &&& end.got.is_prefix_of(end.written)
                &&& end.all_reached() ==> end.got + end.reader.buffer.available() == end.written
                    && end.reader.buffer.filled().finished == end.closed
            }
        }),
{
    let start = fresh_conversation(
        reliable::new_reliable(link, prover, peer),
        reliable::new_reliable(link, other_prover, other_peer),
    );
    delivery::lemma_at_rest(
        channel::STREAM_MSGTYPE,
        channel::WINDOW_INITIAL,
        channel::DEFAULT_RETX_TIMEOUT,
        true,
    );
    assert(start.pipe() == delivery::at_rest(buffer::stream_channel()));
    assert(bytes::joined(Seq::<Seq<u8>>::empty()) =~= Seq::<u8>::empty());
    assert(start.sound());
    if start.allows_all(events) {
        lemma_run(start, events);
        let end = start.after_all(events);
        lemma_end(end);
    }
}

proof fn lemma_end(end: Conversation)
    requires
        end.sound(),
    ensures
        end.got.is_prefix_of(end.written),
        end.all_reached() ==> end.got + end.reader.buffer.available() == end.written
            && end.reader.buffer.filled().finished == end.closed,
{
    let n = end.delivered().len() as int;
    let p = end.pipe();
    let inbox = end.reader.buffer.channel.inbox;
    assert(end.delivered() == p.delivered());
    bytes::lemma_joined_concat(end.taken, inbox);
    lemma_ends_stream_concat(end.taken, inbox);
    bytes::lemma_joined_concat(end.queued.take(n), end.queued.skip(n));
    assert(end.queued.take(n) + end.queued.skip(n) =~= end.queued);
    let given = end.got + end.reader.buffer.available();
    assert(given =~= bytes::joined(end.delivered()));
    assert(end.written == given + bytes::joined(end.queued.skip(n)));
    assert(end.got =~= end.written.take(end.got.len() as int));
    if end.all_reached() {
        if n < end.queued.len() {
            assert(end.reached.contains(n));
            assert(honesty::arrived(p, n));
            let s = honesty::sequence_of(n);
            assert(p.receiver.reorder.contains_key(s));
            assert(p.receiver.ahead(s) == 0);
        }
        assert(end.queued.take(n) =~= end.queued);
    }
}

} // verus!
