//! A reliable byte stream over a [`Link`]: channel framing plus link-proof acknowledgement.
//!
//! This is the piece that makes a link honest on a lossy medium.
//!
//! - [`Buffer`] chunks bytes into channel envelopes with a windowed 16-bit sequence and a
//!   receiver-side reorder buffer.
//! - Each envelope rides a link data packet under context [`CTX_CHANNEL`], sealed with the link
//!   keys.
//! - The **ack is the link packet proof** ([`Link::data_proof`] / [`Link::verify_data_proof`]):
//!   a received packet is proved back, and an inbound proof names the packet it acknowledges by
//!   hash, releasing that sequence.
//!
//! The driver holds a digest-to-sequence map so a returning proof — addressed to the link,
//! carrying the proven packet's hash — resolves to the outstanding sequence it frees.

use crate::buffer;
use crate::buffer::{Buffer, BufferModel};
use crate::bytes;
use crate::channel;
use crate::channel::{Envelope, EnvelopeModel};
use crate::crypto;
use crate::delivery;
use crate::error::Error;
use crate::hash::AddressHash;
use crate::link;
use crate::link::{Link, LinkModel, CTX_CHANNEL};
use crate::packet::{Packet, PacketModel};
use crate::resource_transfer;
use crate::rns_identity::{Identity, PrivateIdentity};
use crate::table::Table;
use crate::token;
use crate::token::IV_LEN;
use vstd::prelude::*;

verus! {

/// What a [`ReliableChannel`] knows.
#[verifier::ext_equal]
pub struct ReliableModel {
    pub link: LinkModel,
    pub buffer: BufferModel,
    /// The Ed25519 seed that signs our proofs of receipt.
    pub prover: Seq<u8>,
    /// The identity whose proofs of receipt count.
    pub peer: Identity,
    /// The sequence of each packet put on the wire, by the packet's digest.
    pub sent: Map<Seq<u8>, u16>,
}

/// A reliable channel over `link` that has sent and received nothing.
pub open spec fn new_reliable(link: LinkModel, prover: Seq<u8>, peer: Identity) -> ReliableModel {
    ReliableModel {
        link,
        buffer: buffer::new_buffer(buffer::stream_channel(), channel::DEFAULT_CHUNK as nat),
        prover,
        peer,
        sent: Map::empty(),
    }
}

/// The packet that carries an envelope, sealed under the IV `iv`.
pub open spec fn channel_packet(link: LinkModel, e: EnvelopeModel, iv: Seq<u8>) -> PacketModel {
    link::on_link(link.id, CTX_CHANNEL, token::sealed(link.keys, iv, e.wire()))
}

/// The digest that a proof of receipt names a packet by.
pub open spec fn digest_of(p: PacketModel) -> Seq<u8> {
    crypto::sha256(p.identifying_bytes())
}

/// `sent` with the first `n` packets recorded under the sequences of their envelopes.
pub open spec fn recorded(
    sent: Map<Seq<u8>, u16>,
    packets: Seq<PacketModel>,
    envelopes: Seq<EnvelopeModel>,
    n: nat,
) -> Map<Seq<u8>, u16>
    decreases n,
{
    if n == 0 {
        sent
    } else {
        recorded(sent, packets, envelopes, (n - 1) as nat).insert(
            digest_of(packets[n - 1]),
            envelopes[n - 1].sequence,
        )
    }
}

/// `sent` without the packets that carried `sequence`.
pub open spec fn without_sequence(sent: Map<Seq<u8>, u16>, sequence: u16) -> Map<Seq<u8>, u16> {
    Map::new(
        |d: Seq<u8>| sent.contains_key(d) && sent[d] != sequence,
        |d: Seq<u8>| sent[d],
    )
}

impl ReliableModel {
    /// The envelope that a packet carries, if it opens under the link keys and holds one.
    pub open spec fn envelope_in(self, packet: PacketModel) -> Option<EnvelopeModel> {
        match token::opened(self.link.keys, packet.payload) {
            Ok(plain) => channel::decoded_envelope(plain),
            Err(_) => None,
        }
    }

    /// The state with `messages` queued behind those that wait.
    pub open spec fn with_queued(self, messages: Seq<Seq<u8>>) -> ReliableModel {
        ReliableModel {
            buffer: BufferModel {
                channel: channel::ChannelModel {
                    outgoing: self.buffer.channel.outgoing + messages,
                    ..self.buffer.channel
                },
                ..self.buffer
            },
            ..self
        }
    }

    /// The state after transmitting at `now` in the packets `packets`.
    pub open spec fn after_transmit(self, now: u64, packets: Seq<PacketModel>) -> ReliableModel {
        ReliableModel {
            buffer: BufferModel { channel: self.buffer.channel.transmitted(now), ..self.buffer },
            sent: recorded(
                self.sent,
                packets,
                self.buffer.channel.transmits(now),
                packets.len(),
            ),
            ..self
        }
    }

    /// The state after a data packet came in.
    pub open spec fn after_data(self, packet: PacketModel) -> ReliableModel {
        match self.envelope_in(packet) {
            Some(e) => ReliableModel {
                buffer: BufferModel { channel: self.buffer.channel.handled(e), ..self.buffer },
                ..self
            },
            None => self,
        }
    }

    /// Whether a packet of this digest was put on the wire and its sequence is still unproven.
    pub open spec fn awaits(self, digest: Seq<u8>) -> bool {
        self.sent.contains_key(digest) && channel::is_outstanding(
            self.buffer.channel.outstanding,
            self.sent[digest],
        )
    }

    /// The sequence that a proof releases, if it is the peer's and names a packet whose proof we
    /// still wait for.
    pub open spec fn released_by(self, proof: PacketModel) -> Option<u16> {
        match link::proven_digest(self.link, proof, self.peer) {
            Some(d) => if self.awaits(d) {
                Some(self.sent[d])
            } else {
                None
            },
            None => None,
        }
    }

    /// The state after a proof came in: the sequence it releases is no longer outstanding, and
    /// every packet that carried it is forgotten, retransmitted copies included.
    pub open spec fn after_proof(self, proof: PacketModel, now: u64) -> ReliableModel {
        match self.released_by(proof) {
            Some(sequence) => ReliableModel {
                sent: without_sequence(self.sent, sequence),
                buffer: BufferModel {
                    channel: self.buffer.channel.proved(sequence, now),
                    ..self.buffer
                },
                ..self
            },
            None => self,
        }
    }
}

/// `count` IVs from `iv`, one call for each. What the contract leaves open is whether two calls
/// gave the same: that is up to the source, which must not repeat itself.
fn draw_each<F: FnMut() -> [u8; IV_LEN]>(count: usize, iv: F) -> (ivs: Vec<[u8; IV_LEN]>)
    requires
        call_requires(iv, ()),
    ensures
        ivs@.len() == count,
        forall|i: int| 0 <= i < count ==> call_ensures(iv, (), #[trigger] ivs@[i]),
{
    let mut iv = iv;
    let ghost source = iv;
    let mut ivs: Vec<[u8; IV_LEN]> = Vec::new();
    let mut i: usize = 0;
    while i < count
        invariant
            i <= count,
            iv == source,
            call_requires(iv, ()),
            ivs@.len() == i,
            forall|j: int| 0 <= j < i ==> call_ensures(source, (), #[trigger] ivs@[j]),
        decreases count - i,
    {
        ivs.push(iv());
        i += 1;
    }
    ivs
}

/// A reliable, in-order byte stream over one [`Link`]. See the module docs.
pub struct ReliableChannel {
    link: Link,
    buffer: Buffer,
    /// Our identity — signs the proofs of packets we receive.
    prover: PrivateIdentity,
    /// The peer's identity — validates the proofs of packets we sent.
    peer: Identity,
    /// Digest of each channel packet we put on the wire, to its sequence.
    sent: Table<32, u16>,
}

impl View for ReliableChannel {
    type V = ReliableModel;

    closed spec fn view(&self) -> ReliableModel {
        ReliableModel {
            link: self.link@,
            buffer: self.buffer@,
            prover: self.prover.seed(),
            peer: self.peer,
            sent: self.sent@,
        }
    }
}

impl ReliableChannel {
    /// A reliable channel over `link`. `prover` is our identity (we sign proofs of packets we
    /// receive with it); `peer` is the identity we validate the peer's proofs against — for an
    /// initiator, the destination's identity from its announce.
    pub fn new(link: Link, prover: PrivateIdentity, peer: Identity) -> (channel: Self)
        ensures
            channel@ == new_reliable(link@, prover.seed(), peer),
    {
        ReliableChannel { link, buffer: Buffer::new(), prover, peer, sent: Table::new() }
    }

    /// Queue application bytes for reliable, in-order delivery.
    pub fn write(&mut self, data: &[u8])
        ensures
            final(self)@ == old(self)@.with_queued(
                bytes::chunks(data@, old(self)@.buffer.chunk_size()),
            ),
    {
        self.buffer.write(data);
    }

    /// Mark our send stream finished with an end-of-stream message.
    pub fn finish(&mut self)
        ensures
            final(self)@ == old(self)@.with_queued(seq![Seq::<u8>::empty()]),
    {
        let ghost waiting = self@.buffer.channel.outgoing;
        self.buffer.finish();
        assert(waiting.push(Seq::<u8>::empty()) =~= waiting + seq![Seq::<u8>::empty()]);
    }

    /// Seal one envelope into the packet that carries it, and record the packet's digest so
    /// its returning proof releases the right sequence.
    pub fn transmit(&mut self, envelope: &Envelope, iv: &[u8; IV_LEN]) -> (packet: Packet)
        ensures
            packet@ == channel_packet(old(self)@.link, envelope@, iv@),
            token::opened(old(self)@.link.keys, packet@.payload) == Ok::<Seq<u8>, Error>(
                envelope@.wire(),
            ),
            final(self)@ == (ReliableModel {
                sent: old(self)@.sent.insert(digest_of(packet@), envelope.sequence),
                ..old(self)@
            }),
    {
        let wire: Vec<u8> = envelope.encode();
        let packet = self.link.sealed_packet(CTX_CHANNEL, &wire, iv);
        self.sent.insert(packet.full_hash(), envelope.sequence);
        packet
    }

    /// Seal each envelope under the IV of the same place, and record the packets' digests.
    pub fn seal_all(&mut self, envelopes: &Vec<Envelope>, ivs: &Vec<[u8; IV_LEN]>) -> (out: Vec<
        Packet,
    >)
        requires
            ivs@.len() == envelopes@.len(),
        ensures
            ({
                let list = channel::envelope_models(envelopes@);
                let packets = resource_transfer::packet_models(out@);
                &&& packets.len() == list.len()
                &&& forall|i: int|
                    0 <= i < packets.len() ==> #[trigger] packets[i] == channel_packet(
                        old(self)@.link,
                        list[i],
                        ivs@[i]@,
                    )
                &&& forall|i: int|
                    0 <= i < packets.len() ==> token::opened(
                        old(self)@.link.keys,
                        (#[trigger] packets[i]).payload,
                    ) == Ok::<Seq<u8>, Error>(list[i].wire())
                &&& final(self)@ == (ReliableModel {
                    sent: recorded(old(self)@.sent, packets, list, packets.len()),
                    ..old(self)@
                })
            }),
    {
        let ghost start = self@;
        let ghost list = channel::envelope_models(envelopes@);
        let mut out: Vec<Packet> = Vec::new();
        let mut i: usize = 0;
        while i < envelopes.len()
            invariant
                i <= envelopes@.len(),
                ivs@.len() == envelopes@.len(),
                list == channel::envelope_models(envelopes@),
                out@.len() == i,
                self@ == (ReliableModel {
                    sent: recorded(
                        start.sent,
                        resource_transfer::packet_models(out@),
                        list,
                        i as nat,
                    ),
                    ..start
                }),
                forall|j: int|
                    0 <= j < i ==> (#[trigger] out@[j])@ == channel_packet(
                        start.link,
                        list[j],
                        ivs@[j]@,
                    ),
                forall|j: int|
                    0 <= j < i ==> token::opened(
                        start.link.keys,
                        (#[trigger] out@[j])@.payload,
                    ) == Ok::<Seq<u8>, Error>(list[j].wire()),
            decreases envelopes@.len() - i,
        {
            let ghost before = resource_transfer::packet_models(out@);
            let packet = self.transmit(&envelopes[i], &ivs[i]);
            let ghost p = packet@;
            out.push(packet);
            proof {
                let after = resource_transfer::packet_models(out@);
                assert(after =~= before.push(p));
                lemma_recorded_prefix(start.sent, before, after, list, i as nat);
            }
            i += 1;
        }
        out
    }

    /// The envelopes to put on the wire at time `now`: newly sendable ones within the window and
    /// retransmits past their timeout. They count as sent; [`seal_all`](Self::seal_all) makes the
    /// packets that carry them.
    pub fn due(&mut self, now: u64) -> (envelopes: Vec<Envelope>)
        ensures
            channel::envelope_models(envelopes@) == old(self)@.buffer.channel.transmits(now),
            final(self)@ == (ReliableModel {
                buffer: BufferModel {
                    channel: old(self)@.buffer.channel.transmitted(now),
                    ..old(self)@.buffer
                },
                ..old(self)@
            }),
    {
        self.buffer.poll_transmit(now)
    }

    /// The channel packets to put on the wire at time `now`: newly sendable envelopes within
    /// the window and retransmits past their timeout, each sealed under [`CTX_CHANNEL`]. `iv`
    /// supplies a fresh IV per packet (it must not repeat for the link key).
    ///
    /// A retransmit re-seals with a fresh IV, so it is a new digest for the same sequence: a
    /// proof of either copy releases the sequence, and then both are forgotten.
    pub fn poll_transmit<F: FnMut() -> [u8; IV_LEN]>(&mut self, now: u64, iv: F) -> (out: Vec<
        Packet,
    >)
        requires
            call_requires(iv, ()),
        ensures
            ({
                let start = old(self)@;
                let envelopes = start.buffer.channel.transmits(now);
                let packets = resource_transfer::packet_models(out@);
                &&& packets.len() == envelopes.len()
                &&& forall|i: int|
                    0 <= i < packets.len() ==> exists|v: [u8; IV_LEN]|
                        #![trigger call_ensures(iv, (), v)]
                        call_ensures(iv, (), v) && #[trigger] packets[i] == channel_packet(
                            start.link,
                            envelopes[i],
                            v@,
                        )
                &&& forall|i: int|
                    0 <= i < packets.len() ==> token::opened(
                        start.link.keys,
                        (#[trigger] packets[i]).payload,
                    ) == Ok::<Seq<u8>, Error>(envelopes[i].wire())
                &&& final(self)@ == start.after_transmit(now, packets)
            }),
    {
        let ghost source = iv;
        let ghost start = self@;
        let list: Vec<Envelope> = self.due(now);
        let ghost envelopes = channel::envelope_models(list@);
        let ivs: Vec<[u8; IV_LEN]> = draw_each(list.len(), iv);
        let out = self.seal_all(&list, &ivs);
        proof {
            let packets = resource_transfer::packet_models(out@);
            assert forall|j: int| 0 <= j < packets.len() implies exists|v: [u8; IV_LEN]|
                #![trigger call_ensures(source, (), v)]
                call_ensures(source, (), v) && #[trigger] packets[j] == channel_packet(
                    start.link,
                    envelopes[j],
                    v@,
                ) by {
                assert(call_ensures(source, (), ivs@[j]));
            }
        }
        out
    }

    /// Feed an inbound channel data packet: decrypt and order its envelope, and return the
    /// PROOF to send back — the ack. A duplicate is still proved (the peer retransmitted
    /// because our earlier proof did not arrive); [`Buffer`] drops the duplicate payload.
    /// Returns `None` only if the packet does not decrypt or carries no valid envelope.
    pub fn on_data_packet(&mut self, packet: &Packet) -> (ack: Option<Packet>)
        ensures
            final(self)@ == old(self)@.after_data(packet@),
            match ack {
                Some(p) => {
                    &&& old(self)@.envelope_in(packet@) is Some
                    &&& p@ == link::proof_on_link(
                        old(self)@.link.id,
                        0,
                        digest_of(packet@) + crypto::ed25519_signature(
                            old(self)@.prover,
                            digest_of(packet@),
                        ),
                    )
                    &&& forall|peer: Identity|
                        peer.ed25519@ == crypto::ed25519_public(old(self)@.prover)
                            ==> #[trigger] link::proven_digest(old(self)@.link, p@, peer) == Some(
                            digest_of(packet@),
                        )
                },
                None => old(self)@.envelope_in(packet@) is None,
            },
    {
        let plain: Vec<u8> = match self.link.decrypt(packet) {
            Ok(plain) => plain,
            Err(_) => {
                return None;
            },
        };
        let envelope = match Envelope::decode(&plain) {
            Some(envelope) => envelope,
            None => {
                return None;
            },
        };
        self.buffer.handle(envelope);
        Some(self.link.data_proof(packet, &self.prover))
    }

    /// Feed an inbound proof: if it validates against the peer's identity and names a packet we
    /// sent and whose sequence is unproven, release that sequence and forget every packet that
    /// carried it. Returns whether it matched an outstanding packet; if not, nothing changes.
    pub fn on_proof(&mut self, proof: &Packet, now: u64) -> (matched: bool)
        ensures
            matched == (old(self)@.released_by(proof@) is Some),
            final(self)@ == old(self)@.after_proof(proof@, now),
    {
        let digest: [u8; 32] = match self.link.verify_data_proof(proof, &self.peer) {
            Some(digest) => digest,
            None => {
                return false;
            },
        };
        let sequence: u16 = match self.sent.get(&digest) {
            Some(sequence) => *sequence,
            None => {
                return false;
            },
        };
        if !self.buffer.is_outstanding(sequence) {
            return false;
        }
        self.forget(sequence);
        self.buffer.on_proof(sequence, now);
        true
    }

    /// Forget every packet that carried `sequence`.
    fn forget(&mut self, sequence: u16)
        ensures
            final(self)@ == (ReliableModel {
                sent: without_sequence(old(self)@.sent, sequence),
                ..old(self)@
            }),
    {
        let ghost start = self@;
        let keys: Vec<[u8; 32]> = self.sent.keys();
        let mut i: usize = 0;
        while i < keys.len()
            invariant
                i <= keys@.len(),
                self@ == (ReliableModel { sent: self@.sent, ..start }),
                forall|d: Seq<u8>| #[trigger]
                    self@.sent.contains_key(d) ==> start.sent.contains_key(d) && self@.sent[d]
                        == start.sent[d],
                forall|d: Seq<u8>|
                    start.sent.contains_key(d) && start.sent[d] != sequence
                        ==> #[trigger] self@.sent.contains_key(d),
                forall|j: int|
                    0 <= j < i && self@.sent.contains_key((#[trigger] keys@[j])@)
                        ==> start.sent[keys@[j]@] != sequence,
            decreases keys@.len() - i,
        {
            let carried: bool = match self.sent.get(&keys[i]) {
                Some(other) => *other == sequence,
                None => false,
            };
            if carried {
                let gone = self.sent.remove(&keys[i]);
            }
            i += 1;
        }
        assert(self@.sent =~= without_sequence(start.sent, sequence));
    }

    /// Take all delivered, in-order application bytes.
    pub fn read(&mut self) -> (data: Vec<u8>)
        ensures
            data@ == old(self)@.buffer.available(),
            final(self)@ == (ReliableModel {
                buffer: BufferModel { read_buf: Seq::empty(), ..old(self)@.buffer.filled() },
                ..old(self)@
            }),
    {
        self.buffer.read_available()
    }

    /// Whether the peer signalled end-of-stream.
    pub fn recv_finished(&mut self) -> (finished: bool)
        ensures
            finished == old(self)@.buffer.filled().finished,
            final(self)@ == (ReliableModel { buffer: old(self)@.buffer.filled(), ..old(self)@ }),
    {
        self.buffer.recv_finished()
    }

    /// Whether everything written has been sent and proven.
    pub fn send_idle(&self) -> (idle: bool)
        ensures
            idle == (self@.buffer.channel.outgoing.len() == 0
                && self@.buffer.channel.outstanding.len() == 0),
    {
        self.buffer.send_idle()
    }

    /// The current send window (diagnostics).
    pub fn window(&self) -> (window: u32)
        ensures
            window == self@.buffer.channel.window,
    {
        self.buffer.window()
    }

    /// The id of the link this stream rides.
    pub fn link_id(&self) -> (id: AddressHash)
        ensures
            id == self@.link.id,
    {
        self.link.id()
    }
}

/// Recording looks only at the packets it records.
proof fn lemma_recorded_prefix(
    sent: Map<Seq<u8>, u16>,
    a: Seq<PacketModel>,
    b: Seq<PacketModel>,
    envelopes: Seq<EnvelopeModel>,
    n: nat,
)
    requires
        n <= a.len() <= b.len(),
        forall|i: int| 0 <= i < n ==> a[i] == b[i],
    ensures
        recorded(sent, a, envelopes, n) == recorded(sent, b, envelopes, n),
    decreases n,
{
    if n > 0 {
        lemma_recorded_prefix(sent, a, b, envelopes, (n - 1) as nat);
        assert(a[n - 1] == b[n - 1]);
    }
}

/// A forged proof releases nothing: a proof that does not verify under the peer's identity, that
/// names a packet we never sent, or that names one whose sequence is already proven leaves
/// everything as it was.
pub proof fn law_a_forged_proof_releases_nothing(
    state: ReliableModel,
    proof: PacketModel,
    now: u64,
)
    ensures
        !crypto::ed25519_verifies(
            state.peer.ed25519@,
            proof.payload.take(32),
            proof.payload.skip(32),
        ) ==> state.released_by(proof) is None && state.after_proof(proof, now) == state,
        !state.awaits(proof.payload.take(32)) ==> state.released_by(proof) is None
            && state.after_proof(proof, now) == state,
{
}

/// The peer's proof of a packet that we sent, whose sequence is unproven, releases that sequence.
pub proof fn law_a_genuine_proof_releases_its_sequence(
    state: ReliableModel,
    packet: PacketModel,
    proof: PacketModel,
    now: u64,
)
    requires
        state.awaits(digest_of(packet)),
        link::proven_digest(state.link, proof, state.peer) == Some(digest_of(packet)),
    ensures
        state.released_by(proof) == Some(state.sent[digest_of(packet)]),
        state.after_proof(proof, now).buffer.channel == state.buffer.channel.proved(
            state.sent[digest_of(packet)],
            now,
        ),
{
}

/// A sequence is released once: after a proof has released it, no packet that carried it is
/// remembered, so a proof of another copy of it matches nothing and changes nothing, however late
/// it comes.
pub proof fn law_a_sequence_is_released_once(
    state: ReliableModel,
    proof: PacketModel,
    other: PacketModel,
    now: u64,
    later: u64,
)
    requires
        state.released_by(proof) is Some,
        link::proven_digest(state.link, other, state.peer) matches Some(d)
            && state.sent.contains_key(d) && Some(state.sent[d]) == state.released_by(proof),
    ensures
        state.after_proof(proof, now).released_by(other) is None,
        state.after_proof(proof, now).after_proof(other, later) == state.after_proof(proof, now),
{
}

/// Whether every packet that is remembered carried a sequence that is unproven.
pub open spec fn remembers_only_unproven(state: ReliableModel) -> bool {
    forall|d: Seq<u8>| #[trigger] state.sent.contains_key(d) ==> state.awaits(d)
}

/// What is remembered of packets is what is outstanding: a packet is remembered only as long as
/// its sequence is unproven, so a remembered digest never names a later message under a reused
/// sequence. That holds of a fresh channel, and transmitting, proofs and data keep it.
pub proof fn law_only_unproven_packets_are_remembered(
    state: ReliableModel,
    now: u64,
    packets: Seq<PacketModel>,
    proof: PacketModel,
    data: PacketModel,
)
    requires
        remembers_only_unproven(state),
        delivery::distinct(state.buffer.channel.outstanding),
        packets.len() == state.buffer.channel.transmits(now).len(),
    ensures
        remembers_only_unproven(state.after_transmit(now, packets)),
        remembers_only_unproven(state.after_proof(proof, now)),
        remembers_only_unproven(state.after_data(data)),
        remembers_only_unproven(ReliableModel { sent: Map::empty(), ..state }),
{
    let c = state.buffer.channel;
    let envelopes = c.transmits(now);
    delivery::lemma_transmits_are_outstanding(c, now);
    let sent = recorded(state.sent, packets, envelopes, packets.len());
    lemma_recorded_values(state.sent, packets, envelopes, packets.len());
    let next = state.after_transmit(now, packets);
    assert forall|d: Seq<u8>| #[trigger] next.sent.contains_key(d) implies next.awaits(d) by {
        if state.sent.contains_key(d) && sent[d] == state.sent[d] {
            assert(state.awaits(d));
        } else {
            let i = choose|i: int|
                0 <= i < packets.len() && sent[d] == (#[trigger] envelopes[i]).sequence;
            assert(channel::is_outstanding(
                c.transmitted(now).outstanding,
                envelopes[i].sequence,
            ));
        }
    }
    if let Some(sequence) = state.released_by(proof) {
        let proved = state.after_proof(proof, now);
        assert forall|d: Seq<u8>| #[trigger] proved.sent.contains_key(d) implies proved.awaits(
            d,
        ) by {
            assert(state.sent.contains_key(d));
            assert(state.awaits(d));
            delivery::law_a_proof_releases_one_sequence(c, sequence, state.sent[d], now);
        }
    }
    let held = state.after_data(data);
    assert forall|d: Seq<u8>| #[trigger] held.sent.contains_key(d) implies held.awaits(d) by {
        assert(state.awaits(d));
        if let Some(e) = state.envelope_in(data) {
            delivery::lemma_handling_keeps_outstanding(c, e);
        }
    }
}

/// What recording adds are the sequences of the envelopes recorded.
proof fn lemma_recorded_values(
    sent: Map<Seq<u8>, u16>,
    packets: Seq<PacketModel>,
    envelopes: Seq<EnvelopeModel>,
    n: nat,
)
    requires
        n <= packets.len(),
        n <= envelopes.len(),
    ensures
        forall|d: Seq<u8>| #[trigger]
            recorded(sent, packets, envelopes, n).contains_key(d) ==> (sent.contains_key(d)
                && recorded(sent, packets, envelopes, n)[d] == sent[d]) || exists|i: int|
                0 <= i < n && recorded(sent, packets, envelopes, n)[d] == (
                #[trigger] envelopes[i]).sequence,
    decreases n,
{
    if n > 0 {
        lemma_recorded_values(sent, packets, envelopes, (n - 1) as nat);
        let front = recorded(sent, packets, envelopes, (n - 1) as nat);
        let all = recorded(sent, packets, envelopes, n);
        assert forall|d: Seq<u8>| #[trigger] all.contains_key(d) implies (sent.contains_key(d)
            && all[d] == sent[d]) || exists|i: int|
            0 <= i < n && all[d] == (#[trigger] envelopes[i]).sequence by {
            if d == digest_of(packets[n - 1]) {
                assert(all[d] == envelopes[n - 1].sequence);
            } else {
                assert(front.contains_key(d));
                assert(all[d] == front[d]);
            }
        }
    }
}

/// A packet shows the IV it was sealed under: it is the front of its payload. So packets sealed
/// under different IVs are different packets, whatever they carry.
pub proof fn law_packets_show_their_iv(
    link: LinkModel,
    a: EnvelopeModel,
    b: EnvelopeModel,
    iv: Seq<u8>,
    other: Seq<u8>,
)
    requires
        iv.len() == IV_LEN,
        other.len() == IV_LEN,
    ensures
        channel_packet(link, a, iv).payload.take(16) == iv,
        iv != other ==> channel_packet(link, a, iv) != channel_packet(link, b, other),
{
    assert(channel_packet(link, a, iv).payload.take(16) =~= iv);
    assert(channel_packet(link, b, other).payload.take(16) =~= other);
}

/// What one end seals, the other end takes: a packet whose payload opens to an envelope's wire
/// form hands that envelope to the channel.
pub proof fn law_sealed_envelopes_arrive(
    state: ReliableModel,
    packet: PacketModel,
    e: EnvelopeModel,
)
    requires
        e.payload.len() <= 0xffff,
    ensures
        token::opened(state.link.keys, packet.payload) == Ok::<Seq<u8>, Error>(e.wire())
            ==> state.envelope_in(packet) == Some(e) && state.after_data(packet).buffer.channel
            == state.buffer.channel.handled(e),
{
    channel::law_envelope_round_trip(e);
}

/// Every packet put on the wire is remembered, whichever of the transmission it is: its digest
/// leads to the sequence of its envelope, unless a later packet has the same digest. What was
/// remembered before still is, where no packet has its digest.
pub proof fn law_every_packet_sent_is_remembered(
    state: ReliableModel,
    now: u64,
    packets: Seq<PacketModel>,
    i: int,
    earlier: Seq<u8>,
)
    requires
        packets.len() == state.buffer.channel.transmits(now).len(),
        0 <= i < packets.len(),
        forall|j: int|
            i < j < packets.len() ==> digest_of(#[trigger] packets[j]) != digest_of(packets[i]),
    ensures
        state.after_transmit(now, packets).sent.contains_key(digest_of(packets[i])),
        state.after_transmit(now, packets).sent[digest_of(packets[i])]
            == state.buffer.channel.transmits(now)[i].sequence,
        state.sent.contains_key(earlier) && (forall|j: int|
            0 <= j < packets.len() ==> digest_of(#[trigger] packets[j]) != earlier)
            ==> state.after_transmit(now, packets).sent.contains_key(earlier)
            && state.after_transmit(now, packets).sent[earlier] == state.sent[earlier],
{
    let list = state.buffer.channel.transmits(now);
    lemma_recorded_at(state.sent, packets, list, packets.len(), i);
    if state.sent.contains_key(earlier) && (forall|j: int|
        0 <= j < packets.len() ==> digest_of(#[trigger] packets[j]) != earlier) {
        lemma_recorded_keeps(state.sent, packets, list, packets.len(), earlier);
    }
}

proof fn lemma_recorded_at(
    sent: Map<Seq<u8>, u16>,
    packets: Seq<PacketModel>,
    envelopes: Seq<EnvelopeModel>,
    n: nat,
    i: int,
)
    requires
        0 <= i < n <= packets.len(),
        forall|j: int|
            i < j < n ==> digest_of(#[trigger] packets[j]) != digest_of(packets[i]),
    ensures
        recorded(sent, packets, envelopes, n).contains_key(digest_of(packets[i])),
        recorded(sent, packets, envelopes, n)[digest_of(packets[i])] == envelopes[i].sequence,
    decreases n,
{
    if i < n - 1 {
        lemma_recorded_at(sent, packets, envelopes, (n - 1) as nat, i);
        assert(digest_of(packets[n - 1]) != digest_of(packets[i]));
    }
}

proof fn lemma_recorded_keeps(
    sent: Map<Seq<u8>, u16>,
    packets: Seq<PacketModel>,
    envelopes: Seq<EnvelopeModel>,
    n: nat,
    digest: Seq<u8>,
)
    requires
        sent.contains_key(digest),
        n <= packets.len(),
        forall|j: int| 0 <= j < packets.len() ==> digest_of(#[trigger] packets[j]) != digest,
    ensures
        recorded(sent, packets, envelopes, n).contains_key(digest),
        recorded(sent, packets, envelopes, n)[digest] == sent[digest],
    decreases n,
{
    if n > 0 {
        lemma_recorded_keeps(sent, packets, envelopes, (n - 1) as nat, digest);
        assert(digest_of(packets[n - 1]) != digest);
    }
}

/// A receipt does what it is for: a proof packet on the link with the digest of a packet in flight
/// and the peer's signature over it takes the packet's sequence out of flight, and takes no other.
pub proof fn law_a_receipt_takes_its_packet_out_of_flight(
    state: ReliableModel,
    packet: PacketModel,
    signature: Seq<u8>,
    receipt: PacketModel,
    now: u64,
    other: u16,
)
    requires
        state.sent.contains_key(digest_of(packet)),
        channel::is_outstanding(
            state.buffer.channel.outstanding,
            state.sent[digest_of(packet)],
        ),
        delivery::distinct(state.buffer.channel.outstanding),
        digest_of(packet).len() == 32,
        signature.len() == 64,
        crypto::ed25519_verifies(state.peer.ed25519@, digest_of(packet), signature),
        receipt.packet_type == crate::packet::PacketType::Proof,
        receipt.destination == state.link.id,
        receipt.payload == digest_of(packet) + signature,
        other != state.sent[digest_of(packet)],
    ensures
        ({
            let after = state.after_proof(receipt, now);
            let sequence = state.sent[digest_of(packet)];
            &&& !channel::is_outstanding(after.buffer.channel.outstanding, sequence)
            &&& channel::is_outstanding(after.buffer.channel.outstanding, other)
                == channel::is_outstanding(state.buffer.channel.outstanding, other)
            &&& !after.sent.contains_key(digest_of(packet))
            &&& forall|d: Seq<u8>| #[trigger]
                state.sent.contains_key(d) && state.sent[d] != sequence
                    ==> after.sent.contains_key(d) && after.sent[d] == state.sent[d]
        }),
{
    assert(receipt.payload.take(32) =~= digest_of(packet));
    assert(receipt.payload.skip(32) =~= signature);
    delivery::law_a_proof_releases_one_sequence(
        state.buffer.channel,
        state.sent[digest_of(packet)],
        other,
        now,
    );
}

} // verus!
