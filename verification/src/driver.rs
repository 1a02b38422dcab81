//! The driver of a reliable stream: what to do on each thing that happens to it.
//!
//! One driver owns the [`ReliableChannel`] of a link and pumps it — app writes in, ordered bytes
//! out, a proof per delivered packet, an inbound proof releasing its sequence, and retransmits
//! on a clock — so the stream stays honest over a lossy interface. It does no I/O: the caller
//! hands it events, carries out what it answers, puts its ready packets on the wire, and stops
//! when it is done.

use crate::bytes;
use crate::channel::ChannelModel;
use crate::buffer::BufferModel;
use crate::crypto;
use crate::error::Error;
use crate::link;
use crate::link::{Link, CTX_CHANNEL, CTX_LINKCLOSE};
use crate::packet::{Packet, PacketModel, PacketType};
use crate::reliable;
use crate::reliable::{ReliableChannel, ReliableModel};
use crate::resource_transfer;
use crate::rns_identity::{Identity, PrivateIdentity};
use crate::token;
use crate::token::IV_LEN;
use vstd::prelude::*;

verus! {

/// Largest plaintext chunk per link data packet. Kept under `ENCRYPTED_MDU` (383) so the
/// encrypted token plus header always fits the MTU.
pub const WRITE_CHUNK: usize = 367;

/// The driver's clock period. It advances a logical tick each period, which drives
/// retransmission of unproven channel packets.
pub const RELIABLE_TICK_MS: u64 = 50;

/// One thing that happens to a reliable stream.
pub enum Event {
    /// A raw packet of this link came in: channel data, a proof, or the peer's close.
    Arrived(Packet),
    /// The app wrote bytes.
    Written(Vec<u8>),
    /// The app's write side closed.
    WriterClosed,
    /// The clock ticked.
    Tick,
}

/// The mathematical content of an event.
#[verifier::ext_equal]
pub enum EventModel {
    Arrived(PacketModel),
    Written(Seq<u8>),
    WriterClosed,
    Tick,
}

impl View for Event {
    type V = EventModel;

    open spec fn view(&self) -> EventModel {
        match self {
            Event::Arrived(p) => EventModel::Arrived(p@),
            Event::Written(data) => EventModel::Written(data@),
            Event::WriterClosed => EventModel::WriterClosed,
            Event::Tick => EventModel::Tick,
        }
    }
}

/// What is to be done about an event.
pub struct Answer {
    /// The proof to send back, if the event was a packet to prove.
    pub ack: Option<Packet>,
    /// Bytes for the app's reader.
    pub deliver: Vec<u8>,
    /// Close the app's read side: it sees end of stream.
    pub shut_read: bool,
    /// The peer closed the link: stop.
    pub stop: bool,
}

/// The mathematical content of an answer.
#[verifier::ext_equal]
pub struct AnswerModel {
    pub ack: Option<PacketModel>,
    pub deliver: Seq<u8>,
    pub shut_read: bool,
    pub stop: bool,
}

impl View for Answer {
    type V = AnswerModel;

    open spec fn view(&self) -> AnswerModel {
        AnswerModel {
            ack: match self.ack {
                Some(p) => Some(p@),
                None => None,
            },
            deliver: self.deliver@,
            shut_read: self.shut_read,
            stop: self.stop,
        }
    }
}

/// The answer that asks for nothing.
pub open spec fn nothing() -> AnswerModel {
    AnswerModel { ack: None, deliver: Seq::empty(), shut_read: false, stop: false }
}

/// What a driver knows.
#[verifier::ext_equal]
pub struct DriverModel {
    pub channel: ReliableModel,
    pub clock: u64,
    /// The app's write side is still open.
    pub writer_open: bool,
    /// The peer signalled end-of-stream.
    pub peer_done: bool,
}

/// The proof of receipt that a channel sends for a packet it could read.
pub open spec fn ack_for(channel: ReliableModel, p: PacketModel) -> Option<PacketModel> {
    match channel.envelope_in(p) {
        Some(_) => Some(
            link::proof_on_link(
                channel.link.id,
                0,
                reliable::digest_of(p) + crypto::ed25519_signature(
                    channel.prover,
                    reliable::digest_of(p),
                ),
            ),
        ),
        None => None,
    }
}

/// The channel with the delivered bytes read out.
pub open spec fn read_out(channel: ReliableModel) -> ReliableModel {
    ReliableModel {
        buffer: BufferModel { read_buf: Seq::empty(), ..channel.buffer.filled() },
        ..channel
    }
}

impl DriverModel {
    /// The state after a packet came in, and the answer to it.
    pub open spec fn arrived(self, p: PacketModel) -> (DriverModel, AnswerModel) {
        if p.packet_type == PacketType::Proof {
            (
                DriverModel { channel: self.channel.after_proof(p, self.clock), ..self },
                nothing(),
            )
        } else if p.context == CTX_CHANNEL {
            let got = self.channel.after_data(p);
            let ended = got.buffer.filled().finished;
            (
                DriverModel {
                    channel: read_out(got),
                    peer_done: self.peer_done || ended,
                    ..self
                },
                AnswerModel {
                    ack: ack_for(self.channel, p),
                    deliver: got.buffer.available(),
                    shut_read: ended,
                    stop: false,
                },
            )
        } else if p.context == CTX_LINKCLOSE {
            (self, AnswerModel { shut_read: true, stop: true, ..nothing() })
        } else {
            (self, nothing())
        }
    }

    /// The channel with messages queued to send.
    pub open spec fn queued(self, messages: Seq<Seq<u8>>) -> ReliableModel {
        ReliableModel {
            buffer: BufferModel {
                channel: ChannelModel {
                    outgoing: self.channel.buffer.channel.outgoing + messages,
                    ..self.channel.buffer.channel
                },
                ..self.channel.buffer
            },
            ..self.channel
        }
    }

    /// The state after an event, and the answer to it. Once the writer has closed, nothing more
    /// is written.
    pub open spec fn after(self, event: EventModel) -> (DriverModel, AnswerModel) {
        match event {
            EventModel::Arrived(p) => self.arrived(p),
            EventModel::Written(data) => (
                if self.writer_open {
                    DriverModel {
                        channel: self.queued(
                            bytes::chunks(data, self.channel.buffer.chunk_size()),
                        ),
                        ..self
                    }
                } else {
                    self
                },
                nothing(),
            ),
            EventModel::WriterClosed => (
                if self.writer_open {
                    DriverModel {
                        channel: self.queued(seq![Seq::<u8>::empty()]),
                        writer_open: false,
                        ..self
                    }
                } else {
                    self
                },
                nothing(),
            ),
            EventModel::Tick => (
                DriverModel {
                    clock: if self.clock < u64::MAX {
                        (self.clock + 1) as u64
                    } else {
                        self.clock
                    },
                    ..self
                },
                nothing(),
            ),
        }
    }

    /// Whether everything written has been sent and proven.
    pub open spec fn idle(self) -> bool {
        self.channel.buffer.channel.outgoing.len() == 0
            && self.channel.buffer.channel.outstanding.len() == 0
    }

    /// Whether the stream is done: our side finished sending, and so did the peer.
    pub open spec fn done(self) -> bool {
        !self.writer_open && self.peer_done && self.idle()
    }
}

/// The driver of one reliable stream. See the module docs.
pub struct Driver {
    channel: ReliableChannel,
    link: Link,
    clock: u64,
    writer_open: bool,
    peer_done: bool,
}

impl View for Driver {
    type V = DriverModel;

    closed spec fn view(&self) -> DriverModel {
        DriverModel {
            channel: self.channel@,
            clock: self.clock,
            writer_open: self.writer_open,
            peer_done: self.peer_done,
        }
    }
}

impl Driver {
    #[verifier::type_invariant]
    closed spec fn well_formed(&self) -> bool {
        self.link@ == self.channel@.link
    }

    /// A driver over `link`. `prover` signs our proofs of receipt; `peer` is the identity whose
    /// proofs count (the destination's identity, for an initiator).
    pub fn new(link: Link, prover: PrivateIdentity, peer: Identity) -> (driver: Self)
        ensures
            driver@.channel.link == link@,
            driver@.channel.prover == prover.seed(),
            driver@.channel.peer == peer,
            driver@.channel.sent == Map::<Seq<u8>, u16>::empty(),
            driver@.channel.buffer == crate::buffer::new_buffer(
                crate::buffer::stream_channel(),
                crate::channel::DEFAULT_CHUNK as nat,
            ),
            driver@.clock == 0,
            driver@.writer_open,
            !driver@.peer_done,
    {
        let own = link.clone();
        Driver {
            channel: ReliableChannel::new(link, prover, peer),
            link: own,
            clock: 0,
            writer_open: true,
            peer_done: false,
        }
    }

    /// Take in one event.
    pub fn take(self, event: Event) -> (taken: (Self, Answer))
        ensures
            (taken.0@, taken.1@) == self@.after(event@),
            taken.0@.channel.link == self@.channel.link,
    {
        let ghost before = self@;
        proof {
            use_type_invariant(&self);
        }
        let Driver { mut channel, link, mut clock, mut writer_open, mut peer_done } = self;
        let mut answer = Answer {
            ack: None,
            deliver: Vec::new(),
            shut_read: false,
            stop: false,
        };
        assert(answer@ =~= nothing());
        match event {
            Event::Arrived(packet) => {
                if packet.packet_type == PacketType::Proof {
                    channel.on_proof(&packet, clock);
                } else if packet.context == CTX_CHANNEL {
                    let ghost got = before.channel.after_data(packet@);
                    answer.ack = channel.on_data_packet(&packet);
                    answer.deliver = channel.read();
                    let ended: bool = channel.recv_finished();
                    proof {
                        assert(channel@ =~= read_out(got)) by {
                            lemma_filled_twice(got.buffer);
                        }
                    }
                    if ended {
                        answer.shut_read = true;
                        peer_done = true;
                    }
                    assert(answer@ =~= before.arrived(packet@).1);
                } else if packet.context == CTX_LINKCLOSE {
                    answer.shut_read = true;
                    answer.stop = true;
                    assert(answer@ =~= before.arrived(packet@).1);
                }
            },
            Event::Written(data) => {
                if writer_open {
                    channel.write(data.as_slice());
                }
            },
            Event::WriterClosed => {
                if writer_open {
                    channel.finish();
                    writer_open = false;
                    assert(before.channel.buffer.channel.outgoing + seq![Seq::<u8>::empty()]
                        =~= before.channel.buffer.channel.outgoing.push(Seq::<u8>::empty()));
                }
            },
            Event::Tick => {
                if clock < u64::MAX {
                    clock += 1;
                }
            },
        }
        (Driver { channel, link, clock, writer_open, peer_done }, answer)
    }

    /// The channel packets to put on the wire now: new data within the window, plus retransmits
    /// past their timeout. `iv` supplies a fresh IV per packet.
    pub fn pump<F: FnMut() -> [u8; IV_LEN]>(self, iv: F) -> (pumped: (Self, Vec<Packet>))
        requires
            call_requires(iv, ()),
        ensures
            ({
                let envelopes = self@.channel.buffer.channel.transmits(self@.clock);
                let packets = resource_transfer::packet_models(pumped.1@);
                &&& packets.len() == envelopes.len()
                &&& forall|i: int|
                    0 <= i < packets.len() ==> exists|v: [u8; IV_LEN]|
                        #![trigger call_ensures(iv, (), v)]
                        call_ensures(iv, (), v) && #[trigger] packets[i]
                            == reliable::channel_packet(self@.channel.link, envelopes[i], v@)
                &&& forall|i: int|
                    0 <= i < packets.len() ==> token::opened(
                        self@.channel.link.keys,
                        (#[trigger] packets[i]).payload,
                    ) == Ok::<Seq<u8>, Error>(envelopes[i].wire())
                &&& pumped.0@ == (DriverModel {
                    channel: ReliableModel {
                        buffer: BufferModel {
                            channel: self@.channel.buffer.channel.transmitted(self@.clock),
                            ..self@.channel.buffer
                        },
                        sent: reliable::recorded(
                            self@.channel.sent,
                            packets,
                            envelopes,
                            packets.len(),
                        ),
                        ..self@.channel
                    },
                    ..self@
                })
            }),
    {
        proof {
            use_type_invariant(&self);
        }
        let Driver { mut channel, link, clock, writer_open, peer_done } = self;
        let packets = channel.poll_transmit(clock, iv);
        (Driver { channel, link, clock, writer_open, peer_done }, packets)
    }

    /// The stream is fully done only when our side finished sending (write closed and
    /// everything, including the end-of-stream message, sent and proven) AND the peer finished
    /// sending. This preserves half-close: after our write closes the peer's reply is still
    /// delivered until it, too, ends. Returns the link close to send when it is done.
    pub fn close_when_done(&self) -> (close: Option<Packet>)
        ensures
            match close {
                Some(p) => self@.done() && p@ == link::on_link(
                    self@.channel.link.id,
                    CTX_LINKCLOSE,
                    self@.channel.link.id@,
                ),
                None => !self@.done(),
            },
    {
        proof {
            use_type_invariant(self);
        }
        if !self.writer_open && self.peer_done && self.channel.send_idle() {
            Some(self.link.close_packet())
        } else {
            None
        }
    }
}

/// Filling again what was filled and read changes nothing.
proof fn lemma_filled_twice(b: BufferModel)
    ensures
        ({
            let read = BufferModel { read_buf: Seq::empty(), ..b.filled() };
            read.filled() == read
        }),
{
    let read = BufferModel { read_buf: Seq::empty(), ..b.filled() };
    assert(bytes::joined(Seq::<Seq<u8>>::empty()) =~= Seq::<u8>::empty());
    assert(read.filled().read_buf =~= read.read_buf);
    assert(read.filled() =~= read);
}

/// Half-close: after our write side closes, what the peer sends is still delivered and proved
/// just as before.
pub proof fn law_half_close_keeps_delivering(driver: DriverModel, p: PacketModel)
    ensures
        ({
            let closed = DriverModel { writer_open: false, ..driver };
            &&& closed.arrived(p).1 == driver.arrived(p).1
            &&& closed.arrived(p).0.channel == driver.arrived(p).0.channel
        }),
{
}

/// Closing the write side twice, or writing after it closed, changes nothing: one end-of-stream
/// message is queued, and it is the last.
pub proof fn law_the_writer_closes_once(driver: DriverModel, data: Seq<u8>)
    ensures
        ({
            let closed = driver.after(EventModel::WriterClosed).0;
            &&& !closed.writer_open
            &&& closed.after(EventModel::WriterClosed).0 == closed
            &&& closed.after(EventModel::Written(data)).0 == closed
        }),
{
}

/// A stream is done only once the app closed its writer, the peer ended its stream, and nothing
/// is queued or unproven; and then only the passing of time leaves it done.
pub proof fn law_done_means_both_ends_finished(driver: DriverModel)
    requires
        driver.done(),
    ensures
        !driver.writer_open,
        driver.peer_done,
        driver.channel.buffer.channel.outgoing.len() == 0,
        driver.channel.buffer.channel.outstanding.len() == 0,
        driver.after(EventModel::Tick).0.done(),
{
}

/// What the app writes is queued to the last byte, in order, behind what waits; closing queues the
/// end of the stream behind that.
pub proof fn law_everything_written_is_queued(driver: DriverModel, data: Seq<u8>)
    requires
        driver.writer_open,
        driver.channel.buffer.max_chunk > 0,
    ensures
        ({
            let before = driver.channel.buffer.channel.outgoing;
            let wrote = driver.after(EventModel::Written(data)).0;
            let closed = driver.after(EventModel::WriterClosed).0;
            let after = wrote.channel.buffer.channel.outgoing;
            &&& bytes::joined(after) == bytes::joined(before) + data
            &&& wrote.writer_open
            &&& before.len() <= after.len()
            &&& after.take(before.len() as int) == before
            &&& forall|i: int|
                before.len() <= i < after.len() ==> 0 < (#[trigger] after[i]).len()
                    <= driver.channel.buffer.max_chunk
            &&& closed.channel.buffer.channel.outgoing == before.push(Seq::<u8>::empty())
        }),
{
    let before = driver.channel.buffer.channel.outgoing;
    let size = driver.channel.buffer.max_chunk;
    let pieces = bytes::chunks(data, size);
    bytes::law_chunks_join(data, size);
    bytes::law_chunk_sizes(data, size);
    bytes::lemma_joined_concat(before, pieces);
    let after = driver.after(EventModel::Written(data)).0.channel.buffer.channel.outgoing;
    assert(after == before + pieces);
    assert(after.take(before.len() as int) =~= before);
    assert forall|i: int| before.len() <= i < after.len() implies 0 < (#[trigger] after[i]).len()
        <= size by {
        assert(after[i] == pieces[i - before.len()]);
    }
    assert(before + seq![Seq::<u8>::empty()] =~= before.push(Seq::<u8>::empty()));
}

/// What the peer sends next reaches the app to the last byte: a channel packet that opens to the
/// envelope waited for is answered with its whole payload for the reader and a receipt for the
/// packet, and the end of the stream where the payload is empty.
pub proof fn law_the_next_message_reaches_the_app(
    driver: DriverModel,
    p: PacketModel,
    e: crate::channel::EnvelopeModel,
)
    requires
        p.packet_type != PacketType::Proof,
        p.context == 0x0e,
        token::opened(driver.channel.link.keys, p.payload) == Ok::<Seq<u8>, Error>(e.wire()),
        e.payload.len() <= 0xffff,
        e.sequence == driver.channel.buffer.channel.recv_next,
        driver.channel.buffer.channel.reorder == Map::<u16, Seq<u8>>::empty(),
        driver.channel.buffer.channel.inbox.len() == 0,
        driver.channel.buffer.read_buf.len() == 0,
        !driver.channel.buffer.finished,
    ensures
        ({
            let (after, answer) = driver.after(EventModel::Arrived(p));
            &&& answer.deliver == e.payload
            &&& answer.shut_read == (e.payload.len() == 0)
            &&& !answer.stop
            &&& answer.ack is Some
            &&& answer.ack->0.packet_type == PacketType::Proof
            &&& answer.ack->0.destination == driver.channel.link.id
            &&& answer.ack->0.payload == reliable::digest_of(p) + crypto::ed25519_signature(
                driver.channel.prover,
                reliable::digest_of(p),
            )
            &&& after.channel.buffer.channel.recv_next == (e.sequence + 1) % 65536
            &&& after.channel.buffer.read_buf.len() == 0
            &&& after.channel.buffer.channel.inbox.len() == 0
            &&& after.peer_done == (driver.peer_done || e.payload.len() == 0)
        }),
{
    crate::channel::law_envelope_round_trip(e);
    let c = driver.channel.buffer.channel;
    assert(c.reorder.dom() =~= Set::<u16>::empty());
    let got = driver.channel.after_data(p);
    assert(c.handled(e) == c.delivered(e.payload));
    assert(got.buffer.channel.inbox =~= seq![e.payload]);
    reveal_with_fuel(bytes::joined, 2);
    assert(seq![e.payload].drop_last() =~= Seq::<Seq<u8>>::empty());
    assert(got.buffer.available() =~= e.payload);
    let list = got.buffer.channel.inbox;
    assert(list[0] == e.payload);
    assert(crate::buffer::ends_stream(list) == (e.payload.len() == 0));
}

/// The clock goes up by one with every tick, up to the last time there is, and with nothing else.
pub proof fn law_ticks_move_the_clock(driver: DriverModel, event: EventModel)
    ensures
        driver.after(EventModel::Tick).0.clock == driver.clock + 1 || driver.clock == u64::MAX,
        driver.after(EventModel::Tick).0.clock >= driver.clock,
        driver.after(EventModel::Tick).0.channel == driver.channel,
        !(event is Tick) ==> driver.after(event).0.clock == driver.clock,
{
}

/// A peer that closes the link ends both sides: the app's reader is told, and the driver stops.
pub proof fn law_a_close_stops_the_driver(driver: DriverModel, p: PacketModel)
    requires
        p.packet_type != PacketType::Proof,
        p.context == 0xfc,
    ensures
        driver.after(EventModel::Arrived(p)).1.stop,
        driver.after(EventModel::Arrived(p)).1.shut_read,
        driver.after(EventModel::Arrived(p)).0 == driver,
{
}

/// A receipt that comes in takes its packet out of flight, at the driver's time, and asks for
/// nothing in return.
pub proof fn law_receipts_reach_the_channel(
    driver: DriverModel,
    packet: PacketModel,
    signature: Seq<u8>,
    receipt: PacketModel,
    other: u16,
)
    requires
        driver.channel.sent.contains_key(reliable::digest_of(packet)),
        crate::channel::is_outstanding(
            driver.channel.buffer.channel.outstanding,
            driver.channel.sent[reliable::digest_of(packet)],
        ),
        crate::delivery::distinct(driver.channel.buffer.channel.outstanding),
        reliable::digest_of(packet).len() == 32,
        signature.len() == 64,
        crypto::ed25519_verifies(
            driver.channel.peer.ed25519@,
            reliable::digest_of(packet),
            signature,
        ),
        receipt.packet_type == PacketType::Proof,
        receipt.destination == driver.channel.link.id,
        receipt.payload == reliable::digest_of(packet) + signature,
        other != driver.channel.sent[reliable::digest_of(packet)],
    ensures
        ({
            let (after, answer) = driver.after(EventModel::Arrived(receipt));
            let flying = after.channel.buffer.channel.outstanding;
            &&& !crate::channel::is_outstanding(
                flying,
                driver.channel.sent[reliable::digest_of(packet)],
            )
            &&& crate::channel::is_outstanding(flying, other) == crate::channel::is_outstanding(
                driver.channel.buffer.channel.outstanding,
                other,
            )
            &&& answer.ack is None
            &&& answer.deliver.len() == 0
            &&& !answer.stop
        }),
{
    reliable::law_a_receipt_takes_its_packet_out_of_flight(
        driver.channel,
        packet,
        signature,
        receipt,
        driver.clock,
        other,
    );
}

/// A stream is done as soon as it can be: once the app has closed its writer, the peer has ended
/// its stream, and nothing is queued or unproven, there is nothing else to wait for.
pub proof fn law_a_finished_stream_is_done(driver: DriverModel)
    ensures
        driver.done() <==> !driver.writer_open && driver.peer_done
            && driver.channel.buffer.channel.outgoing.len() == 0
            && driver.channel.buffer.channel.outstanding.len() == 0,
{
}

} // verus!
