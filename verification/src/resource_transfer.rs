//! Driving a resource transfer over a [`Link`]: the sender and receiver that run the resource
//! codec ([`crate::resource`]) over link packets.
//!
//! # Wire, by link context byte
//!
//! ```text
//! 0x02 RESOURCE_ADV   the advertisement (msgpack), sealed; (re)sent until the receiver responds
//! 0x03 RESOURCE_REQ   the receiver's request for parts / solicitation for more hashmap, sealed
//! 0x01 RESOURCE       one part: a raw slice of the sealed token, framed (not re-sealed)
//! 0x04 RESOURCE_HMU   a hashmap update for a resource with more parts than one advert carries
//! 0x05 RESOURCE_PRF   the receiver's proof of receipt, framed: resource_hash(32) || proof(32)
//! ```
//!
//! The payload is sealed into the token **once**, then split into parts, so a part is a
//! byte-slice of the already-encrypted token and rides framed; the receiver reassembles the
//! parts verbatim into the token and opens it once. Control packets (advertisement, request,
//! hashmap update) are sealed; the proof, carrying only public hashes, is framed.
//!
//! Both halves do no I/O: they take a received packet and return packets to send, and the
//! retransmit helpers re-emit on a stall. Each half decides first what to say
//! ([`ResourceSender::answer`], [`ResourceReceiver::step`]) and seals it afterwards.

use crate::advertisement;
use crate::advertisement::{Advertisement, MAPHASH_LEN};
use crate::bytes;
use crate::crypto;
use crate::error::Error;
use crate::link;
use crate::link::{
    Link, LinkModel, CTX_RESOURCE, CTX_RESOURCE_ADV, CTX_RESOURCE_HMU, CTX_RESOURCE_PRF,
    CTX_RESOURCE_REQ,
};
use crate::packet::{Packet, PacketModel};
use crate::resource;
use crate::resource::{Incoming, IncomingModel, Outgoing, OutgoingModel, RANDOM_HASH_LEN};
use crate::token;
use crate::token::IV_LEN;
use vstd::prelude::*;

verus! {

/// What a [`ResourceSender`] knows.
#[verifier::ext_equal]
pub struct SenderModel {
    pub link: LinkModel,
    pub out: OutgoingModel,
    /// The receiver has proved receipt.
    pub done: bool,
}

/// What a sender has to say to one packet: parts, and possibly a hashmap update.
#[verifier::ext_equal]
pub struct AnswerModel {
    pub parts: Seq<Seq<u8>>,
    pub hmu: Option<Seq<u8>>,
}

impl SenderModel {
    /// What the sender says to a packet: a request gets the parts it names and, if it
    /// solicits more map hashes, the next of them; anything else gets nothing.
    pub open spec fn answer(self, packet: PacketModel) -> AnswerModel {
        let nothing = AnswerModel { parts: Seq::empty(), hmu: None };
        if packet.context != CTX_RESOURCE_REQ {
            nothing
        } else {
            match token::opened(self.link.keys, packet.payload) {
                Err(_) => nothing,
                Ok(plain) => match resource::read_request(plain) {
                    None => nothing,
                    Some(r) => AnswerModel {
                        parts: resource::served(r.wanted, self.out.hashes, self.out.parts),
                        hmu: match r.last_map_hash {
                            Some(last) => Some(self.out.hmu_after(last)),
                            None => None,
                        },
                    },
                },
            }
        }
    }

    /// Whether the sender offers `data`, salted with `random_hash` and sealed into the token
    /// `sealed`: the token opens to them, its pieces are the parts, and the advertisement and the
    /// expected proof of receipt are theirs.
    pub open spec fn publishes(
        self,
        data: Seq<u8>,
        random_hash: Seq<u8>,
        sealed: Seq<u8>,
    ) -> bool {
        let pieces = bytes::chunks(sealed, resource::SDU as nat);
        let hash = crypto::sha256(data + random_hash);
        &&& random_hash.len() == RANDOM_HASH_LEN
        &&& sealed.len() == 48 + ((4 + data.len()) / 16 + 1) * 16
        &&& token::opened(self.link.keys, sealed) == Ok::<Seq<u8>, Error>(random_hash + data)
        &&& self.out.consistent()
        &&& self.out.parts == pieces
        &&& self.out.hashes == resource::map_hashes_of(pieces, random_hash)
        &&& self.out.receipt == resource::receipt(data, hash)
        &&& self.out.full.transfer_size == sealed.len()
        &&& self.out.full.data_size == data.len()
        &&& self.out.full.parts == pieces.len()
        &&& self.out.full.resource_hash == hash
        &&& self.out.full.original_hash == hash
        &&& self.out.full.random_hash == random_hash
        &&& self.out.full.flags == resource::flags_of(false)
        &&& self.out.full.i == 1
        &&& self.out.full.l == 1
        &&& self.out.full.q is None
    }

    /// Whether `out` is the answer `answer`: the parts framed, then the hashmap update sealed
    /// under the IV `v`, which the link's keys open again.
    pub open spec fn sends(self, answer: AnswerModel, v: Seq<u8>, out: Seq<PacketModel>) -> bool {
        let framed = Seq::new(
            answer.parts.len(),
            |i: int| link::on_link(self.link.id, CTX_RESOURCE, answer.parts[i]),
        );
        match answer.hmu {
            None => out == framed,
            Some(hmu) => {
                let update = link::on_link(
                    self.link.id,
                    CTX_RESOURCE_HMU,
                    token::sealed(self.link.keys, v, hmu),
                );
                &&& out == framed.push(update)
                &&& token::opened(self.link.keys, update.payload) == Ok::<Seq<u8>, Error>(hmu)
            },
        }
    }

    /// Whether a packet carries the proof that the resource was received.
    pub open spec fn proved_by(self, packet: PacketModel) -> bool {
        &&& packet.context == CTX_RESOURCE_PRF
        &&& packet.payload.len() == 64
        &&& packet.payload.skip(32) == self.out.receipt
    }

    /// What the sender knows after a packet.
    pub open spec fn after(self, packet: PacketModel) -> SenderModel {
        SenderModel { done: self.done || self.proved_by(packet), ..self }
    }
}

/// The contents of a list of packets.
pub open spec fn packet_models(list: Seq<Packet>) -> Seq<PacketModel> {
    list.map_values(|p: Packet| p@)
}

/// What a sender has to say to one packet.
pub struct Answer {
    /// Parts, to go out framed.
    pub parts: Vec<Vec<u8>>,
    /// A hashmap update, to go out sealed.
    pub hmu: Option<Vec<u8>>,
}

impl View for Answer {
    type V = AnswerModel;

    open spec fn view(&self) -> AnswerModel {
        AnswerModel {
            parts: bytes::views(self.parts@),
            hmu: match self.hmu {
                Some(h) => Some(h@),
                None => None,
            },
        }
    }
}

/// Publishes one resource over a link: advertises it, serves part requests and hashmap
/// updates, and completes when the receiver's proof of receipt arrives.
pub struct ResourceSender {
    link: Link,
    out: Outgoing,
    done: bool,
}

impl View for ResourceSender {
    type V = SenderModel;

    closed spec fn view(&self) -> SenderModel {
        SenderModel { link: self.link@, out: self.out@, done: self.done }
    }
}

impl ResourceSender {
    /// Prepare to publish `data` (uncompressed) over `link`. `random_hash` salts the resource
    /// and map hashes; `iv` seals the token (it must not repeat for the link key).
    pub fn publish(
        link: Link,
        data: &[u8],
        random_hash: [u8; RANDOM_HASH_LEN],
        iv: &[u8; IV_LEN],
    ) -> (sender: Self)
        ensures
            sender@.link == link@,
            !sender@.done,
            sender@.publishes(
                data@,
                random_hash@,
                token::sealed(link@.keys, iv@, random_hash@ + data@),
            ),
    {
        let content: Vec<u8> = resource::content(data, &random_hash);
        let sealed: Vec<u8> = link.seal(&content, iv);
        let out = Outgoing::new(data, &sealed, random_hash, false);
        ResourceSender { link, out, done: false }
    }

    /// The advertisement packet, sealed. (Re)send it until the receiver responds.
    pub fn advertisement(&self, iv: &[u8; IV_LEN]) -> (packet: Packet)
        ensures
            packet@ == link::on_link(
                self@.link.id,
                CTX_RESOURCE_ADV,
                token::sealed(self@.link.keys, iv@, self@.out.advertisement().wire()),
            ),
            token::opened(self@.link.keys, packet@.payload) == Ok::<Seq<u8>, Error>(
                self@.out.advertisement().wire(),
            ),
    {
        let wire: Vec<u8> = self.out.advertisement().pack();
        self.link.sealed_packet(CTX_RESOURCE_ADV, &wire, iv)
    }

    /// Take one inbound packet from the receiver and decide what to say to it.
    pub fn answer(&mut self, packet: &Packet) -> (answer: Answer)
        ensures
            answer@ == old(self)@.answer(packet@),
            final(self)@ == old(self)@.after(packet@),
    {
        let mut answer = Answer { parts: Vec::new(), hmu: None };
        assert(bytes::views(answer.parts@) =~= Seq::<Seq<u8>>::empty());
        if packet.context == CTX_RESOURCE_REQ {
            if let Ok(plain) = self.link.decrypt(packet) {
                if let Ok(request) = resource::parse_request(&plain) {
                    answer.parts = self.out.serve(&request);
                    if let Some(last) = request.last_map_hash {
                        answer.hmu = Some(self.out.hmu_after(&last));
                    }
                }
            }
        } else if packet.context == CTX_RESOURCE_PRF {
            if let Some((hash, proof)) = resource::parse_proof(&packet.payload) {
                let expected: [u8; 32] = self.out.expected_proof();
                assert(packet@.payload.skip(32) =~= proof@);
                if bytes::same_bytes(&proof, &expected) {
                    self.done = true;
                }
            }
        }
        assert(self@ =~= old(self)@.after(packet@));
        answer
    }

    /// Handle one inbound packet from the receiver, returning packets to send: a request
    /// yields the requested parts (and, if it solicited more hashmap, an update sealed under
    /// an IV from `iv`); a valid proof completes the transfer and yields nothing.
    pub fn on_packet<F: FnMut() -> [u8; IV_LEN]>(&mut self, packet: &Packet, iv: F) -> (out: Vec<
        Packet,
    >)
        requires
            call_requires(iv, ()),
        ensures
            final(self)@ == old(self)@.after(packet@),
            ({
                let answer = old(self)@.answer(packet@);
                &&& answer.hmu is Some ==> exists|v: [u8; IV_LEN]|
                    #![trigger call_ensures(iv, (), v)]
                    call_ensures(iv, (), v) && old(self)@.sends(answer, v@, packet_models(out@))
                &&& answer.hmu is None ==> old(self)@.sends(
                    answer,
                    Seq::empty(),
                    packet_models(out@),
                )
            }),
    {
        let mut iv = iv;
        let answer = self.answer(packet);
        let ghost model = answer@;
        let ghost id = self@.link.id;
        let ghost framed = Seq::new(
            model.parts.len(),
            |i: int| link::on_link(id, CTX_RESOURCE, model.parts[i]),
        );
        let parts = answer.parts;
        let mut out: Vec<Packet> = Vec::new();
        let mut i: usize = 0;
        assert(packet_models(out@) =~= framed.take(0));
        while i < parts.len()
            invariant
                i <= parts@.len(),
                model.parts == bytes::views(parts@),
                id == self@.link.id,
                framed == Seq::new(
                    model.parts.len(),
                    |i: int| link::on_link(id, CTX_RESOURCE, model.parts[i]),
                ),
                packet_models(out@) == framed.take(i as int),
            decreases parts@.len() - i,
        {
            let ghost before = packet_models(out@);
            let packet = self.link.framed_packet(CTX_RESOURCE, bytes::copy_all(&parts[i]));
            assert(packet@ == framed[i as int]);
            out.push(packet);
            assert(packet_models(out@) =~= before.push(framed[i as int]));
            assert(framed.take(i + 1) =~= framed.take(i as int).push(framed[i as int]));
            i += 1;
        }
        assert(framed.take(framed.len() as int) =~= framed);
        if let Some(hmu) = answer.hmu {
            let v: [u8; IV_LEN] = iv();
            let packet = self.link.sealed_packet(CTX_RESOURCE_HMU, &hmu, &v);
            let ghost sealed = packet@;
            out.push(packet);
            assert(packet_models(out@) =~= framed.push(sealed));
            assert(self@.sends(model, v@, packet_models(out@)));
        }
        out
    }

    /// Whether the receiver has proved receipt.
    pub fn is_done(&self) -> (done: bool)
        ensures
            done == self@.done,
    {
        self.done
    }
}

/// What a [`ResourceReceiver`] knows.
#[verifier::ext_equal]
pub struct ReceiverModel {
    pub link: LinkModel,
    /// The transfer in progress.
    pub inc: Option<IncomingModel>,
    /// The recovered payload.
    pub data: Option<Seq<u8>>,
}

/// What a receiver has to say to one packet.
#[verifier::ext_equal]
pub enum ReplyModel {
    Nothing,
    /// A request, to go out sealed.
    Request(Seq<u8>),
    /// A proof of receipt, to go out framed.
    Receipt(Seq<u8>),
}

/// The payload of the proof of receipt for `data`.
pub open spec fn receipt_payload(inc: IncomingModel, data: Seq<u8>) -> Seq<u8> {
    inc.hash + resource::receipt(data, inc.hash)
}

impl ReceiverModel {
    /// The request to make now: for the known parts that are missing, or for more map hashes
    /// when every known part is held and there are more.
    pub open spec fn request(self) -> ReplyModel {
        match self.inc {
            None => ReplyModel::Nothing,
            Some(inc) => if inc.missing().len() > 0 {
                ReplyModel::Request(seq![0u8] + inc.hash + bytes::joined(inc.missing()))
            } else if inc.order.len() < inc.total {
                ReplyModel::Request(
                    seq![0xff_u8] + (if inc.order.len() > 0 {
                        inc.order.last()
                    } else {
                        seq![0u8, 0u8, 0u8, 0u8]
                    }) + inc.hash,
                )
            } else {
                ReplyModel::Nothing
            },
        }
    }

    /// The payload, if the parts make a token that opens to it.
    pub open spec fn payload(self, inc: IncomingModel) -> Option<Seq<u8>> {
        match token::opened(self.link.keys, resource::token_of(inc.order, inc.parts)) {
            Err(_) => None,
            Ok(decrypted) => match inc.recovered(decrypted) {
                Err(_) => None,
                Ok(data) => Some(data),
            },
        }
    }

    /// What the receiver knows after a packet, and what it says to it.
    pub open spec fn step(self, packet: PacketModel) -> (ReceiverModel, ReplyModel) {
        let plain = token::opened(self.link.keys, packet.payload);
        if packet.context == CTX_RESOURCE_ADV {
            match plain {
                Err(_) => (self, ReplyModel::Nothing),
                Ok(wire) => match advertisement::parsed(wire) {
                    None => (self, ReplyModel::Nothing),
                    Some(adv) => if resource::begins(adv) {
                        let next = ReceiverModel { inc: Some(resource::awaiting(adv)), ..self };
                        (next, next.request())
                    } else {
                        (self, ReplyModel::Nothing)
                    },
                },
            }
        } else if packet.context == CTX_RESOURCE {
            match self.inc {
                None => (self, ReplyModel::Nothing),
                Some(inc) => {
                    let grown = inc.with_part(packet.payload);
                    let next = ReceiverModel { inc: Some(grown), ..self };
                    if !grown.complete() {
                        (next, next.request())
                    } else {
                        match next.payload(grown) {
                            None => (next, ReplyModel::Nothing),
                            Some(data) => (
                                ReceiverModel { data: Some(data), ..next },
                                ReplyModel::Receipt(receipt_payload(grown, data)),
                            ),
                        }
                    }
                },
            }
        } else if packet.context == CTX_RESOURCE_HMU {
            match plain {
                Err(_) => (self, ReplyModel::Nothing),
                Ok(wire) => match resource::read_hmu(wire) {
                    None => (self, ReplyModel::Nothing),
                    Some(hmu) => {
                        let next = ReceiverModel {
                            inc: match self.inc {
                                Some(inc) => Some(inc.with_hmu(hmu)),
                                None => None,
                            },
                            ..self
                        };
                        (next, next.request())
                    },
                },
            }
        } else {
            (self, ReplyModel::Nothing)
        }
    }

    /// What to say on a stall: the proof again once the payload is there, and the outstanding
    /// request before that.
    pub open spec fn stalled(self) -> ReplyModel {
        match self.data {
            None => self.request(),
            Some(data) => match self.inc {
                Some(inc) => ReplyModel::Receipt(receipt_payload(inc, data)),
                None => ReplyModel::Nothing,
            },
        }
    }

    /// Whether `out` is the reply `reply`, sealed where it must be under the IV `v` (and then
    /// the link's keys open it again).
    pub open spec fn sends(self, reply: ReplyModel, v: Seq<u8>, out: Seq<PacketModel>) -> bool {
        match reply {
            ReplyModel::Nothing => out == Seq::<PacketModel>::empty(),
            ReplyModel::Request(plain) => {
                let request = link::on_link(
                    self.link.id,
                    CTX_RESOURCE_REQ,
                    token::sealed(self.link.keys, v, plain),
                );
                &&& out == seq![request]
                &&& token::opened(self.link.keys, request.payload) == Ok::<Seq<u8>, Error>(plain)
            },
            ReplyModel::Receipt(payload) => out == seq![
                link::on_link(self.link.id, CTX_RESOURCE_PRF, payload),
            ],
        }
    }
}

/// What a receiver has to say to one packet.
pub enum Reply {
    Nothing,
    /// A request, to go out sealed.
    Request(Vec<u8>),
    /// A proof of receipt, to go out framed.
    Receipt(Vec<u8>),
}

impl View for Reply {
    type V = ReplyModel;

    open spec fn view(&self) -> ReplyModel {
        match self {
            Reply::Nothing => ReplyModel::Nothing,
            Reply::Request(p) => ReplyModel::Request(p@),
            Reply::Receipt(p) => ReplyModel::Receipt(p@),
        }
    }
}

/// Receives one resource over a link: on the advertisement it requests parts, collects them,
/// solicits more hashmap when needed, then reassembles, opens, verifies, and proves.
pub struct ResourceReceiver {
    link: Link,
    inc: Option<Incoming>,
    data: Option<Vec<u8>>,
}

impl View for ResourceReceiver {
    type V = ReceiverModel;

    closed spec fn view(&self) -> ReceiverModel {
        ReceiverModel {
            link: self.link@,
            inc: match self.inc {
                Some(inc) => Some(inc@),
                None => None,
            },
            data: match self.data {
                Some(d) => Some(d@),
                None => None,
            },
        }
    }
}

fn receipt_for(inc: &Incoming, data: &Vec<u8>) -> (payload: Vec<u8>)
    ensures
        payload@ == receipt_payload(inc@, data@),
{
    let mut payload: Vec<u8> = bytes::copy_all(&inc.resource_hash());
    payload.extend_from_slice(&inc.proof_of(data));
    assert(payload@ =~= receipt_payload(inc@, data@));
    payload
}

impl ResourceReceiver {
    /// A receiver awaiting an advertisement on `link`.
    pub fn new(link: Link) -> (receiver: Self)
        ensures
            receiver@ == (ReceiverModel { link: link@, inc: None, data: None }),
    {
        ResourceReceiver { link, inc: None, data: None }
    }

    /// Take one inbound packet from the sender and decide what to say to it. On the
    /// advertisement it begins the transfer and requests parts; on a part it accepts it and
    /// requests more (or proves, once complete); on a hashmap update it takes the new hashes
    /// and requests the newly-known parts.
    pub fn step(&mut self, packet: &Packet) -> (reply: Reply)
        ensures
            (final(self)@, reply@) == old(self)@.step(packet@),
    {
        if packet.context == CTX_RESOURCE_ADV {
            if let Ok(plain) = self.link.decrypt(packet) {
                if let Ok(adv) = Advertisement::parse(&plain) {
                    if let Ok(inc) = Incoming::begin(&adv) {
                        self.inc = Some(inc);
                        return self.next_requests();
                    }
                }
            }
            Reply::Nothing
        } else if packet.context == CTX_RESOURCE {
            let mut current: Option<Incoming> = None;
            std::mem::swap(&mut current, &mut self.inc);
            match current {
                None => Reply::Nothing,
                Some(mut inc) => {
                    inc.accept_part(&packet.payload);
                    let complete: bool = inc.is_complete();
                    self.inc = Some(inc);
                    if complete {
                        self.finish()
                    } else {
                        self.next_requests()
                    }
                },
            }
        } else if packet.context == CTX_RESOURCE_HMU {
            if let Ok(plain) = self.link.decrypt(packet) {
                if let Ok(hmu) = resource::parse_hmu(&plain) {
                    let mut current: Option<Incoming> = None;
                    std::mem::swap(&mut current, &mut self.inc);
                    if let Some(mut inc) = current {
                        inc.ingest_hmu(&hmu);
                        self.inc = Some(inc);
                    }
                    return self.next_requests();
                }
            }
            Reply::Nothing
        } else {
            Reply::Nothing
        }
    }

    /// The request to make now: the known-but-missing parts, or a hashmap solicitation when
    /// the known hashes are collected but more parts remain.
    fn next_requests(&self) -> (reply: Reply)
        ensures
            reply@ == self@.request(),
    {
        match &self.inc {
            None => Reply::Nothing,
            Some(inc) => {
                let missing: Vec<[u8; MAPHASH_LEN]> = inc.missing_known();
                assert(resource::hash_views(missing@).len() == missing@.len());
                if missing.len() > 0 {
                    Reply::Request(inc.request(&missing))
                } else if inc.needs_hmu() {
                    Reply::Request(inc.solicit_hmu())
                } else {
                    Reply::Nothing
                }
            },
        }
    }

    /// Reassemble, open, verify, and build the proof. Records the payload.
    fn finish(&mut self) -> (reply: Reply)
        requires
            old(self)@.inc is Some,
            old(self)@.inc->0.complete(),
        ensures
            match old(self)@.payload(old(self)@.inc->0) {
                Some(data) => {
                    &&& final(self)@ == (ReceiverModel { data: Some(data), ..old(self)@ })
                    &&& reply@ == ReplyModel::Receipt(
                        receipt_payload(old(self)@.inc->0, data),
                    )
                },
                None => final(self)@ == old(self)@ && reply@ == ReplyModel::Nothing,
            },
    {
        let mut found: Option<(Vec<u8>, Vec<u8>)> = None;
        if let Some(inc) = &self.inc {
            if let Ok(sealed) = inc.assemble_token() {
                if let Ok(decrypted) = self.link.open(&sealed) {
                    if let Ok(data) = inc.recover(&decrypted) {
                        let payload: Vec<u8> = receipt_for(inc, &data);
                        found = Some((data, payload));
                    }
                }
            }
        }
        match found {
            Some((data, payload)) => {
                self.data = Some(data);
                Reply::Receipt(payload)
            },
            None => Reply::Nothing,
        }
    }

    /// The proof again, for an already-recovered payload.
    fn reprove(&self) -> (reply: Reply)
        ensures
            reply@ == match (self@.inc, self@.data) {
                (Some(inc), Some(data)) => ReplyModel::Receipt(receipt_payload(inc, data)),
                _ => ReplyModel::Nothing,
            },
    {
        match (&self.inc, &self.data) {
            (Some(inc), Some(data)) => Reply::Receipt(receipt_for(inc, data)),
            _ => Reply::Nothing,
        }
    }

    /// The packets of a reply.
    fn send<F: FnMut() -> [u8; IV_LEN]>(&self, reply: Reply, iv: F) -> (out: Vec<Packet>)
        requires
            call_requires(iv, ()),
        ensures
            reply is Request ==> exists|v: [u8; IV_LEN]|
                #![trigger call_ensures(iv, (), v)]
                call_ensures(iv, (), v) && self@.sends(reply@, v@, packet_models(out@)),
            !(reply is Request) ==> self@.sends(reply@, Seq::empty(), packet_models(out@)),
    {
        let mut iv = iv;
        let mut out: Vec<Packet> = Vec::new();
        match reply {
            Reply::Nothing => {
                assert(packet_models(out@) =~= Seq::<PacketModel>::empty());
            },
            Reply::Request(plain) => {
                let v: [u8; IV_LEN] = iv();
                let packet = self.link.sealed_packet(CTX_RESOURCE_REQ, &plain, &v);
                let ghost model = packet@;
                out.push(packet);
                assert(packet_models(out@) =~= seq![model]);
                assert(self@.sends(reply@, v@, packet_models(out@)));
            },
            Reply::Receipt(payload) => {
                let packet = self.link.framed_packet(CTX_RESOURCE_PRF, payload);
                let ghost model = packet@;
                out.push(packet);
                assert(packet_models(out@) =~= seq![model]);
            },
        }
        out
    }

    /// Handle one inbound packet from the sender, returning packets to send. A request is
    /// sealed under an IV from `iv`.
    pub fn on_packet<F: FnMut() -> [u8; IV_LEN]>(&mut self, packet: &Packet, iv: F) -> (out: Vec<
        Packet,
    >)
        requires
            call_requires(iv, ()),
        ensures
            final(self)@ == old(self)@.step(packet@).0,
            ({
                let reply = old(self)@.step(packet@).1;
                &&& reply is Request ==> exists|v: [u8; IV_LEN]|
                    #![trigger call_ensures(iv, (), v)]
                    call_ensures(iv, (), v) && old(self)@.sends(reply, v@, packet_models(out@))
                &&& !(reply is Request) ==> old(self)@.sends(
                    reply,
                    Seq::empty(),
                    packet_models(out@),
                )
            }),
    {
        let reply = self.step(packet);
        self.send(reply, iv)
    }

    /// Re-emit the outstanding request (for loss recovery when a request or its parts were
    /// dropped), or the proof once the payload is there (in case the proof was lost). Empty
    /// before the advertisement.
    pub fn retransmit<F: FnMut() -> [u8; IV_LEN]>(&self, iv: F) -> (out: Vec<Packet>)
        requires
            call_requires(iv, ()),
        ensures
            ({
                let reply = self@.stalled();
                &&& reply is Request ==> exists|v: [u8; IV_LEN]|
                    #![trigger call_ensures(iv, (), v)]
                    call_ensures(iv, (), v) && self@.sends(reply, v@, packet_models(out@))
                &&& !(reply is Request) ==> self@.sends(
                    reply,
                    Seq::empty(),
                    packet_models(out@),
                )
            }),
    {
        let reply = if self.data.is_some() {
            self.reprove()
        } else {
            self.next_requests()
        };
        self.send(reply, iv)
    }

    /// The recovered payload, once the transfer is complete and verified.
    pub fn data(&self) -> (data: Option<&[u8]>)
        ensures
            match data {
                Some(d) => self@.data == Some(d@),
                None => self@.data is None,
            },
    {
        match &self.data {
            Some(d) => Some(d.as_slice()),
            None => None,
        }
    }

    /// Whether the payload has been fully received and verified.
    pub fn is_complete(&self) -> (complete: bool)
        ensures
            complete == (self@.data is Some),
    {
        self.data.is_some()
    }
}

/// Once proved, always proved; and nothing but the expected proof ends a transfer.
pub proof fn law_only_the_receipt_ends_a_transfer(sender: SenderModel, packet: PacketModel)
    ensures
        sender.done ==> sender.after(packet).done,
        !sender.done && sender.after(packet).done ==> sender.proved_by(packet),
        sender.after(packet).out == sender.out,
        sender.after(packet).link == sender.link,
{
}

/// The receipt that a receiver gives for the payload that was published ends the transfer.
pub proof fn law_the_receipt_is_accepted(
    sender: SenderModel,
    inc: IncomingModel,
    data: Seq<u8>,
)
    requires
        inc.hash == sender.out.full.resource_hash,
        sender.out.receipt == resource::receipt(data, sender.out.full.resource_hash),
        inc.hash.len() == 32,
        sender.out.receipt.len() == 32,
    ensures
        sender.after(
            link::on_link(sender.link.id, CTX_RESOURCE_PRF, receipt_payload(inc, data)),
        ).done,
{
    assert(receipt_payload(inc, data).skip(32) =~= sender.out.receipt);
}

/// What a receiver hands out matches the resource hash it was advertised under, and it hands
/// nothing out before every part is held.
pub proof fn law_payload_is_verified(receiver: ReceiverModel, packet: PacketModel)
    ensures
        ({
            let next = receiver.step(packet).0;
            next.data != receiver.data ==> {
                &&& next.inc is Some
                &&& next.inc->0.complete()
                &&& next.data is Some
                &&& crypto::sha256(next.data->0 + next.inc->0.random_hash) == next.inc->0.hash
            }
        }),
{
}

/// A receiver's state holds only genuine parts, packet after packet.
pub proof fn law_receiver_keeps_genuine_parts(receiver: ReceiverModel, packet: PacketModel)
    requires
        receiver.inc matches Some(inc) ==> inc.genuine(),
    ensures
        receiver.step(packet).0.inc matches Some(inc) ==> inc.genuine(),
{
    if let Some(inc) = receiver.inc {
        let hmu = match token::opened(receiver.link.keys, packet.payload) {
            Ok(wire) => match resource::read_hmu(wire) {
                Some(hmu) => hmu,
                None => arbitrary(),
            },
            Err(_) => arbitrary(),
        };
        resource::law_held_parts_stay_genuine(inc, packet.payload, hmu);
    }
}

/// A receiver asks for everything it is missing: its request reads, at the sender, as one for the
/// part under every known hash that it does not hold, and for none that it holds.
pub proof fn law_requests_name_everything_missing(receiver: ReceiverModel, i: int)
    requires
        receiver.inc matches Some(inc) && inc.hash.len() == 32 && 0 <= i < inc.order.len()
            && !inc.parts.contains_key(inc.order[i]) && (forall|j: int|
            0 <= j < inc.order.len() ==> (#[trigger] inc.order[j]).len() == 4),
    ensures
        ({
            let inc = receiver.inc->0;
            let asked = receiver.request();
            &&& asked is Request
            &&& resource::read_request(asked->Request_0) is Some
            &&& resource::read_request(asked->Request_0)->0.resource_hash == inc.hash
            &&& resource::read_request(asked->Request_0)->0.last_map_hash is None
            &&& resource::read_request(asked->Request_0)->0.wanted.contains(inc.order[i])
            &&& forall|j: int|
                0 <= j < resource::read_request(asked->Request_0)->0.wanted.len()
                    ==> !inc.parts.contains_key(
                    #[trigger] resource::read_request(asked->Request_0)->0.wanted[j],
                )
        }),
{
    let inc = receiver.inc->0;
    resource::law_everything_not_held_is_missing(inc, i);
    let missing = inc.missing();
    assert forall|j: int| 0 <= j < missing.len() implies (#[trigger] missing[j]).len() == 4 by {
        assert(inc.order.contains(missing[j]));
        let k = choose|k: int| 0 <= k < inc.order.len() && inc.order[k] == missing[j];
        assert(inc.order[k].len() == 4);
    }
    resource::law_request_round_trip(inc.hash, missing);
}

/// A sender answers a sealed request for parts with every part that it names, in the order named,
/// and with no map hashes, which it does not ask for.
pub proof fn law_requests_are_answered_in_full(
    sender: SenderModel,
    packet: PacketModel,
    hash: Seq<u8>,
    wanted: Seq<Seq<u8>>,
    k: int,
)
    requires
        packet.context == 0x03,
        hash.len() == 32,
        forall|j: int| 0 <= j < wanted.len() ==> (#[trigger] wanted[j]).len() == 4,
        forall|j: int|
            0 <= j < wanted.len() ==> sender.out.hashes.contains(#[trigger] wanted[j]),
        sender.out.hashes.len() == sender.out.parts.len(),
        token::opened(sender.link.keys, packet.payload) == Ok::<Seq<u8>, Error>(
            seq![0u8] + hash + bytes::joined(wanted),
        ),
        0 <= k < wanted.len(),
    ensures
        sender.answer(packet).parts.len() == wanted.len(),
        exists|i: int|
            0 <= i < sender.out.parts.len() && sender.answer(packet).parts[k]
                == sender.out.parts[i] && #[trigger] sender.out.hashes[i] == wanted[k],
        sender.answer(packet).hmu is None,
{
    resource::law_request_round_trip(hash, wanted);
    resource::law_every_part_asked_for_is_served(
        wanted,
        sender.out.hashes,
        sender.out.parts,
        k,
    );
}

} // verus!
