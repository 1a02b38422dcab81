//! Links: the handshake, the link id, and the packets that ride an established link.
//!
//! # The trailer
//!
//! A link request carries 67 bytes: two ephemeral public keys and then a 3-byte trailer. A
//! link proof carries 99: signature, public key, and the same trailer. The trailer is a
//! 24-bit big-endian field:
//!
//! ```text
//! bits 23..21  the AES mode   (0 = AES-128-CBC, 1 = AES-256-CBC)
//! bits 20..0   the MTU
//! ```
//!
//! # The link id
//!
//! ```text
//! link_id = trunc16(SHA256( (flags & 0x0F) || destination(16) || context(1) || payload[..64] ))
//! ```
//!
//! Hops are left out, because they change in transit, and the payload is cut to the 64 bytes
//! of keys, so the trailer, which is negotiable, does not affect the link id.

use crate::bytes;
use crate::crypto;
use crate::error::Error;
use crate::hash;
use crate::hash::AddressHash;
use crate::packet::{DestinationType, HeaderType, Packet, PacketModel, PacketType, Propagation};
use crate::rns_identity::{Identity, PrivateIdentity, KEY_LEN, SIGNATURE_LEN};
use crate::token;
use crate::token::{DerivedKeys, IV_LEN};
use vstd::prelude::*;

verus! {

/// Length of the mode/MTU trailer on link requests and proofs.
pub const TRAILER_LEN: usize = 3;

/// Bytes of key material in a link request: two 32-byte public keys.
pub const LINK_KEYS_LEN: usize = 64;

/// Bytes of a link request: the keys plus the trailer.
pub const LINK_REQUEST_LEN: usize = 67;

/// Bytes of a link proof: signature (64), public key (32), and the trailer.
pub const LINK_PROOF_LEN: usize = 99;

/// Packet context byte for a link request proof.
pub const CTX_LRPROOF: u8 = 0xff;

/// Packet context byte for the link RTT packet.
pub const CTX_LRRTT: u8 = 0xfe;

/// Packet context byte for a keepalive.
pub const CTX_KEEPALIVE: u8 = 0xfa;

/// Packet context byte for a link close.
pub const CTX_LINKCLOSE: u8 = 0xfc;

/// Packet context byte for a request over a link.
pub const CTX_REQUEST: u8 = 0x09;

/// Packet context byte for a response over a link.
pub const CTX_RESPONSE: u8 = 0x0a;

/// Packet context byte for a channel envelope.
pub const CTX_CHANNEL: u8 = 0x0e;

/// Packet context byte for one part of a resource.
pub const CTX_RESOURCE: u8 = 0x01;

/// Resource advertisement.
pub const CTX_RESOURCE_ADV: u8 = 0x02;

/// Resource part request.
pub const CTX_RESOURCE_REQ: u8 = 0x03;

/// Resource hashmap update.
pub const CTX_RESOURCE_HMU: u8 = 0x04;

/// Resource proof.
pub const CTX_RESOURCE_PRF: u8 = 0x05;

/// Resource initiator cancel.
pub const CTX_RESOURCE_ICL: u8 = 0x06;

/// Resource receiver cancel.
pub const CTX_RESOURCE_RCL: u8 = 0x07;

/// The single plaintext byte of a keepalive that asks for an answer.
pub const KEEPALIVE_REQUEST: u8 = 0xff;

/// The single plaintext byte of a keepalive that answers.
pub const KEEPALIVE_RESPONSE: u8 = 0xfe;

/// The largest MTU the 21-bit field can carry.
pub const MAX_MTU: u32 = 0x1f_ffff;

/// The symmetric cipher a link will use. Negotiated, not fixed.
#[derive(Clone, Copy, Debug, PartialEq, Eq, Structural)]
pub enum LinkMode {
    Aes128Cbc,
    Aes256Cbc,
}

impl LinkMode {
    /// The three bits on the wire.
    pub open spec fn bits(self) -> nat {
        match self {
            LinkMode::Aes128Cbc => 0,
            LinkMode::Aes256Cbc => 1,
        }
    }

    fn from_bits(bits: u8) -> (mode: Result<Self, Error>)
        ensures
            match mode {
                Ok(m) => m.bits() == bits as nat,
                Err(e) => e == Error::BadLinkMode && bits > 1,
            },
    {
        match bits {
            0 => Ok(LinkMode::Aes128Cbc),
            1 => Ok(LinkMode::Aes256Cbc),
            _ => Err(Error::BadLinkMode),
        }
    }

    fn to_bits(self) -> (bits: u32)
        ensures
            bits as nat == self.bits(),
    {
        match self {
            LinkMode::Aes128Cbc => 0,
            LinkMode::Aes256Cbc => 1,
        }
    }
}

/// The 3-byte trailer on a link request or proof: a cipher mode and an MTU.
#[derive(Clone, Copy, Debug, PartialEq, Eq, Structural)]
pub struct LinkTrailer {
    pub mode: LinkMode,
    pub mtu: u32,
}

/// The trailer that three bytes carry: the mode in the top three bits, the MTU in the rest.
pub open spec fn trailer_of(raw: Seq<u8>) -> Result<LinkTrailer, Error> {
    let value: nat = bytes::be_value(raw);
    let mtu: u32 = (value % 0x20_0000) as u32;
    if value / 0x20_0000 == 0 {
        Ok(LinkTrailer { mode: LinkMode::Aes128Cbc, mtu })
    } else if value / 0x20_0000 == 1 {
        Ok(LinkTrailer { mode: LinkMode::Aes256Cbc, mtu })
    } else {
        Err(Error::BadLinkMode)
    }
}

impl LinkTrailer {
    /// The three bytes on the wire. An MTU too large for its field loses its high bits.
    pub open spec fn wire(self) -> Seq<u8> {
        bytes::be_bytes(self.mode.bits() * 0x20_0000 + self.mtu as nat % 0x20_0000, 3)
    }

    /// Decode the trailer.
    pub fn decode(raw: &[u8; TRAILER_LEN]) -> (trailer: Result<Self, Error>)
        ensures
            trailer == trailer_of(raw@),
    {
        let value: u64 = bytes::read_be(raw);
        proof {
            bytes::lemma_be_value_bound(raw@);
            bytes::lemma_byte_spans();
        }
        match LinkMode::from_bits((value / 0x20_0000) as u8) {
            Ok(mode) => Ok(LinkTrailer { mode, mtu: (value % 0x20_0000) as u32 }),
            Err(e) => Err(e),
        }
    }

    /// Encode the trailer.
    pub fn encode(&self) -> (raw: [u8; TRAILER_LEN])
        ensures
            raw@ == self.wire(),
    {
        let value: u32 = self.mode.to_bits() * 0x20_0000 + self.mtu % 0x20_0000;
        let mut out: Vec<u8> = Vec::new();
        bytes::push_be(&mut out, value as u64, TRAILER_LEN);
        proof {
            bytes::lemma_be_bytes_len(value as nat, 3);
        }
        assert(out@ =~= self.wire());
        let raw: [u8; TRAILER_LEN] = bytes::array_at::<TRAILER_LEN>(&out, 0);
        assert(raw@ =~= out@);
        raw
    }
}

/// A trailer decodes to what was encoded, its MTU cut to the field's width.
pub proof fn law_trailer_round_trip(t: LinkTrailer)
    ensures
        trailer_of(t.wire()) == Ok::<LinkTrailer, Error>(
            (LinkTrailer { mode: t.mode, mtu: (t.mtu as nat % 0x20_0000) as u32 }),
        ),
        t.mtu <= MAX_MTU ==> trailer_of(t.wire()) == Ok::<LinkTrailer, Error>(t),
        t.wire().len() == TRAILER_LEN,
{
    let value: nat = t.mode.bits() * 0x20_0000 + t.mtu as nat % 0x20_0000;
    bytes::lemma_byte_spans();
    bytes::lemma_be_round_trip(value, 3);
    bytes::lemma_be_bytes_len(value, 3);
}

/// The bytes a link id is the hash of.
pub open spec fn link_id_preimage(request: PacketModel) -> Seq<u8> {
    seq![request.stable_flags() as u8] + request.destination@ + seq![request.context]
        + request.payload.take(64)
}

/// The link id implied by a link-request packet.
///
/// [`Error::Truncated`] if the payload is too short to hold the key material.
pub fn link_id(request: &Packet) -> (id: Result<AddressHash, Error>)
    ensures
        match id {
            Ok(h) => request.payload@.len() >= LINK_KEYS_LEN && h@ == hash::address_of(
                link_id_preimage(request@),
            ),
            Err(e) => request.payload@.len() < LINK_KEYS_LEN && e == Error::Truncated,
        },
{
    if request.payload.len() < LINK_KEYS_LEN {
        return Err(Error::Truncated);
    }
    let mut preimage: Vec<u8> = Vec::new();
    preimage.push(request.stable_flags());
    preimage.extend_from_slice(request.destination.as_slice());
    preimage.push(request.context);
    preimage.extend_from_slice(vstd::slice::slice_subrange(&request.payload, 0, LINK_KEYS_LEN));
    assert(preimage@ =~= link_id_preimage(request@));
    Ok(AddressHash::of(&preimage))
}

/// The link id depends on the keys alone among what a request carries and on nothing that
/// changes in transit: not on the trailer, nor on hops, header type, or transport.
pub proof fn law_link_id_ignores_trailer_and_route(a: PacketModel, b: PacketModel)
    requires
        a.destination_type == b.destination_type,
        a.packet_type == b.packet_type,
        a.destination == b.destination,
        a.context == b.context,
        a.payload.take(64) == b.payload.take(64),
    ensures
        link_id_preimage(a) == link_id_preimage(b),
{
}

/// A packet that starts out with every flag down and no hops.
pub open spec fn fresh_packet(
    destination_type: DestinationType,
    packet_type: PacketType,
    destination: AddressHash,
    context: u8,
    payload: Seq<u8>,
) -> PacketModel {
    PacketModel {
        ifac: false,
        header_type: HeaderType::Type1,
        context_flag: false,
        propagation: Propagation::Broadcast,
        destination_type,
        packet_type,
        hops: 0,
        transport: None,
        destination,
        context,
        payload,
    }
}

/// A data packet on a link.
pub open spec fn on_link(id: AddressHash, context: u8, payload: Seq<u8>) -> PacketModel {
    fresh_packet(DestinationType::Link, PacketType::Data, id, context, payload)
}

/// A proof packet on a link.
pub open spec fn proof_on_link(id: AddressHash, context: u8, payload: Seq<u8>) -> PacketModel {
    fresh_packet(DestinationType::Link, PacketType::Proof, id, context, payload)
}

fn fresh(
    destination_type: DestinationType,
    packet_type: PacketType,
    destination: AddressHash,
    context: u8,
    payload: Vec<u8>,
) -> (packet: Packet)
    ensures
        packet@ == fresh_packet(destination_type, packet_type, destination, context, payload@),
{
    Packet {
        ifac: false,
        header_type: HeaderType::Type1,
        context_flag: false,
        propagation: Propagation::Broadcast,
        destination_type,
        packet_type,
        hops: 0,
        transport: None,
        destination,
        context,
        payload,
    }
}

/// Build a data packet on a link.
fn link_packet(context: u8, link_id: AddressHash, payload: Vec<u8>) -> (packet: Packet)
    ensures
        packet@ == on_link(link_id, context, payload@),
{
    fresh(DestinationType::Link, PacketType::Data, link_id, context, payload)
}

/// An established link, as far as it decides what its packets are.
#[verifier::ext_equal]
pub struct LinkModel {
    pub id: AddressHash,
    /// The 64 bytes of key material.
    pub keys: Seq<u8>,
    pub mode: LinkMode,
    pub mtu: u32,
}

/// A link that was asked for and not yet proved.
#[verifier::ext_equal]
pub struct PendingModel {
    /// The ephemeral X25519 secret.
    pub secret: Seq<u8>,
    /// The identity that has to sign the proof.
    pub peer: Identity,
    pub link_id: AddressHash,
    pub requested: LinkTrailer,
}

/// The payload of a link request: the ephemeral public keys and the requested trailer.
pub open spec fn request_payload(
    secret: Seq<u8>,
    seed: Seq<u8>,
    requested: LinkTrailer,
) -> Seq<u8> {
    crypto::x25519_public(secret) + crypto::ed25519_public(seed) + requested.wire()
}

/// What a link proof's signature covers.
pub open spec fn proof_message(
    id: Seq<u8>,
    ephemeral: Seq<u8>,
    identity: Seq<u8>,
    trailer: Seq<u8>,
) -> Seq<u8> {
    id + ephemeral + identity + trailer
}

/// The keys of the link `id` between an X25519 secret and an X25519 public key.
pub open spec fn link_keys(id: Seq<u8>, secret: Seq<u8>, public: Seq<u8>) -> Seq<u8> {
    crypto::hkdf_sha256(id, crypto::x25519_product(secret, public))
}

/// What a proof makes of a pending link.
///
/// The checks are made in order: a proof packet, for this link, long enough, signed by the
/// peer over the link id, the ephemeral key, the peer's signing key and the trailer. The
/// proof's trailer is then authoritative; without one, what was requested stands.
pub open spec fn proved(pending: PendingModel, proof: PacketModel) -> Result<LinkModel, Error> {
    let signature = proof.payload.take(64);
    let ephemeral = proof.payload.subrange(64, 96);
    let trailer = proof.payload.skip(96);
    let agreed = if trailer.len() >= 3 {
        trailer_of(trailer.take(3))
    } else {
        Ok(pending.requested)
    };
    if proof.packet_type != PacketType::Proof {
        Err(Error::NotAProof)
    } else if proof.destination != pending.link_id {
        Err(Error::LinkMismatch)
    } else if proof.payload.len() < 96 {
        Err(Error::Truncated)
    } else if !crypto::ed25519_verifies(
        pending.peer.ed25519@,
        proof_message(pending.link_id@, ephemeral, pending.peer.ed25519@, trailer),
        signature,
    ) {
        Err(Error::BadSignature)
    } else {
        match agreed {
            Ok(t) => Ok(
                LinkModel {
                    id: pending.link_id,
                    keys: link_keys(pending.link_id@, pending.secret, ephemeral),
                    mode: t.mode,
                    mtu: t.mtu,
                },
            ),
            Err(e) => Err(e),
        }
    }
}

/// Whether `pending` is the other half of a link request that names `peer`: the request has
/// its ephemeral key and gives its link id.
pub open spec fn asked_for(pending: PendingModel, request: PacketModel) -> bool {
    &&& request.payload.len() >= LINK_KEYS_LEN
    &&& pending.link_id@ == hash::address_of(link_id_preimage(request))
    &&& pending.secret.len() == 32
    &&& request.payload.take(32) == crypto::x25519_public(pending.secret)
}

/// An outbound link the initiator has requested but the peer has not yet proved.
///
/// Holds the ephemeral secret so the shared key can be derived once the proof arrives. A
/// `PendingLink` becomes a [`Link`] only through [`prove`](PendingLink::prove), which
/// verifies the peer's signature first.
pub struct PendingLink {
    ephemeral: PrivateIdentity,
    peer: Identity,
    link_id: AddressHash,
    requested: LinkTrailer,
}

impl View for PendingLink {
    type V = PendingModel;

    closed spec fn view(&self) -> PendingModel {
        PendingModel {
            secret: self.ephemeral.secret(),
            peer: self.peer,
            link_id: self.link_id,
            requested: self.requested,
        }
    }
}

impl PendingLink {
    /// Start a link to `peer` at `destination`.
    ///
    /// `ephemeral_seed` is a fresh 64-byte keypair seed (`x25519_secret(32) ||
    /// ed25519_seed(32)`), generated per attempt by the caller. Returns the pending link and
    /// the request packet to send.
    pub fn open(
        destination: AddressHash,
        peer: Identity,
        ephemeral_seed: &[u8; 64],
        requested: LinkTrailer,
    ) -> (opened: (Self, Packet))
        ensures
            opened.1@ == fresh_packet(
                DestinationType::Single,
                PacketType::LinkRequest,
                destination,
                0,
                request_payload(ephemeral_seed@.take(32), ephemeral_seed@.skip(32), requested),
            ),
            opened.0@.secret == ephemeral_seed@.take(32),
            opened.0@.peer == peer,
            opened.0@.requested == requested,
            opened.0@.link_id@ == hash::address_of(link_id_preimage(opened.1@)),
            opened.0@.link_id == hash::address_from(
                hash::address_of(link_id_preimage(opened.1@)),
            ),
            asked_for(opened.0@, opened.1@),
            opened.1@.payload.len() == LINK_REQUEST_LEN,
    {
        let ephemeral = PrivateIdentity::from_secret_bytes(ephemeral_seed);
        let mut payload: Vec<u8> = ephemeral.public().to_public_bytes();
        payload.extend_from_slice(&requested.encode());
        proof {
            law_trailer_round_trip(requested);
            assert(payload@ =~= request_payload(
                ephemeral_seed@.take(32),
                ephemeral_seed@.skip(32),
                requested,
            ));
        }
        let x_public: &[u8; KEY_LEN] = ephemeral.public().x25519_bytes();
        assert(x_public@ == crypto::x25519_public(ephemeral.secret()));
        assert(payload@.take(32) =~= x_public@);
        let request = fresh(
            DestinationType::Single,
            PacketType::LinkRequest,
            destination,
            0,
            payload,
        );
        let mut preimage: Vec<u8> = Vec::new();
        preimage.push(request.stable_flags());
        preimage.extend_from_slice(request.destination.as_slice());
        preimage.push(request.context);
        preimage.extend_from_slice(
            vstd::slice::slice_subrange(&request.payload, 0, LINK_KEYS_LEN),
        );
        assert(preimage@ =~= link_id_preimage(request@));
        let link_id = AddressHash::of(&preimage);
        proof {
            hash::lemma_address_from(link_id);
        }
        (PendingLink { ephemeral, peer, link_id, requested }, request)
    }

    /// The link id this attempt will have. Inbound proofs are addressed to it.
    pub fn link_id(&self) -> (id: AddressHash)
        ensures
            id == self@.link_id,
    {
        self.link_id
    }

    /// Validate a proof and, if it checks out, produce the established [`Link`].
    ///
    /// The proof is `signature(64) || peer_ephemeral_x25519(32) || trailer(3)`. The
    /// signature covers `link_id || peer_ephemeral_x25519 || peer_identity_ed25519 ||
    /// trailer`, which binds the ephemeral key to the destination's long-term identity, so a
    /// third party cannot substitute its own ephemeral key.
    pub fn prove(&self, proof: &Packet) -> (link: Result<Link, Error>)
        ensures
            match link {
                Ok(l) => proved(self@, proof@) == Ok::<LinkModel, Error>(l@),
                Err(e) => proved(self@, proof@) == Err::<LinkModel, Error>(e),
            },
    {
        if proof.packet_type != PacketType::Proof {
            return Err(Error::NotAProof);
        }
        if !proof.destination.same(&self.link_id) {
            return Err(Error::LinkMismatch);
        }
        if proof.payload.len() < SIGNATURE_LEN + KEY_LEN {
            return Err(Error::Truncated);
        }
        let signature: [u8; SIGNATURE_LEN] = bytes::array_at::<SIGNATURE_LEN>(&proof.payload, 0);
        let ephemeral: [u8; KEY_LEN] = bytes::array_at::<KEY_LEN>(&proof.payload, SIGNATURE_LEN);
        let trailer: &[u8] = vstd::slice::slice_subrange(
            &proof.payload,
            SIGNATURE_LEN + KEY_LEN,
            proof.payload.len(),
        );
        assert(signature@ =~= proof@.payload.take(64));
        assert(ephemeral@ =~= proof@.payload.subrange(64, 96));
        assert(trailer@ =~= proof@.payload.skip(96));

        let mut signed: Vec<u8> = Vec::new();
        signed.extend_from_slice(self.link_id.as_slice());
        signed.extend_from_slice(&ephemeral);
        signed.extend_from_slice(self.peer.ed25519_bytes());
        signed.extend_from_slice(trailer);
        assert(signed@ =~= proof_message(
            self.link_id@,
            ephemeral@,
            self.peer.ed25519@,
            trailer@,
        ));
        if !self.peer.verify(&signed, &signature) {
            return Err(Error::BadSignature);
        }
        let agreed = if trailer.len() >= TRAILER_LEN {
            let raw: [u8; TRAILER_LEN] = bytes::array_at::<TRAILER_LEN>(trailer, 0);
            assert(raw@ =~= trailer@.take(3));
            match LinkTrailer::decode(&raw) {
                Ok(t) => t,
                Err(e) => {
                    return Err(e);
                },
            }
        } else {
            self.requested
        };
        let shared: [u8; 32] = self.ephemeral.diffie_hellman(&ephemeral);
        let keys = DerivedKeys::derive(&shared, self.link_id);
        Ok(Link { id: self.link_id, keys, mode: agreed.mode, mtu: agreed.mtu })
    }
}

/// The payload of a link proof.
pub open spec fn proof_payload(
    id: Seq<u8>,
    seed: Seq<u8>,
    secret: Seq<u8>,
    offered: LinkTrailer,
) -> Seq<u8> {
    let ephemeral = crypto::x25519_public(secret);
    crypto::ed25519_signature(
        seed,
        proof_message(id, ephemeral, crypto::ed25519_public(seed), offered.wire()),
    ) + ephemeral + offered.wire()
}

/// The link that accepting a request makes.
pub open spec fn accepted_link(
    request: PacketModel,
    secret: Seq<u8>,
    offered: LinkTrailer,
) -> LinkModel {
    let id = hash::address_of(link_id_preimage(request));
    LinkModel {
        id: hash::address_from(id),
        keys: link_keys(id, secret, request.payload.take(32)),
        mode: offered.mode,
        mtu: offered.mtu,
    }
}

/// Accept an inbound link request and produce the proof.
///
/// This is the responder mirror of [`PendingLink`]. The destination signs the proof with its
/// long-term identity, so the initiator, which learned that identity from an announce, can
/// bind the ephemeral key to it, and contributes a fresh ephemeral X25519 key for the
/// exchange. Returns the established [`Link`] and the proof packet to send back.
///
/// `ephemeral_seed` is a fresh 64-byte keypair seed supplied by the caller; only its X25519
/// half is used here. `offered` is the mode and MTU to advertise.
///
/// Both ends agree: every pending link that asked for this link of this destination is
/// proved by the proof, and then has the same id and the same keys.
pub fn accept(
    request: &Packet,
    destination: &PrivateIdentity,
    ephemeral_seed: &[u8; 64],
    offered: LinkTrailer,
) -> (accepted: Result<(Link, Packet), Error>)
    ensures
        match accepted {
            Ok((link, proof)) => {
                let secret = ephemeral_seed@.take(32);
                &&& request@.packet_type == PacketType::LinkRequest
                &&& request@.payload.len() >= LINK_KEYS_LEN
                &&& link@.id@ == hash::address_of(link_id_preimage(request@))
                &&& link@ == accepted_link(request@, secret, offered)
                &&& proof@ == proof_on_link(
                    link@.id,
                    CTX_LRPROOF,
                    proof_payload(link@.id@, destination.seed(), secret, offered),
                )
                &&& forall|pending: PendingModel|
                    #[trigger] asked_for(pending, request@) && pending.peer.ed25519@
                        == crypto::ed25519_public(destination.seed()) ==> proved(pending, proof@)
                        == Ok::<LinkModel, Error>(
                        (LinkModel { mtu: (offered.mtu as nat % 0x20_0000) as u32, ..link@ }),
                    )
            },
            Err(e) => if request@.packet_type != PacketType::LinkRequest {
                e == Error::NotALinkRequest
            } else {
                request@.payload.len() < LINK_KEYS_LEN && e == Error::Truncated
            },
        },
{
    if request.packet_type != PacketType::LinkRequest {
        return Err(Error::NotALinkRequest);
    }
    if request.payload.len() < LINK_KEYS_LEN {
        return Err(Error::Truncated);
    }
    let id = match link_id(request) {
        Ok(id) => id,
        Err(e) => {
            return Err(e);
        },
    };
    let peer_ephemeral: [u8; KEY_LEN] = bytes::array_at::<KEY_LEN>(&request.payload, 0);
    assert(peer_ephemeral@ =~= request@.payload.take(32));

    let ephemeral = PrivateIdentity::from_secret_bytes(ephemeral_seed);
    let our_ephemeral: [u8; KEY_LEN] = *ephemeral.public().x25519_bytes();
    let trailer: [u8; TRAILER_LEN] = offered.encode();
    let our_ed25519: [u8; KEY_LEN] = *destination.public().ed25519_bytes();

    let mut signed: Vec<u8> = Vec::new();
    signed.extend_from_slice(id.as_slice());
    signed.extend_from_slice(&our_ephemeral);
    signed.extend_from_slice(&our_ed25519);
    signed.extend_from_slice(&trailer);
    let ghost message = proof_message(id@, our_ephemeral@, our_ed25519@, trailer@);
    assert(signed@ =~= message);
    let signature: [u8; SIGNATURE_LEN] = destination.sign(&signed);

    let mut payload: Vec<u8> = Vec::new();
    payload.extend_from_slice(&signature);
    payload.extend_from_slice(&our_ephemeral);
    payload.extend_from_slice(&trailer);
    assert(payload@ =~= proof_payload(id@, destination.seed(), ephemeral.secret(), offered));
    let proof = fresh(DestinationType::Link, PacketType::Proof, id, CTX_LRPROOF, payload);

    let shared: [u8; 32] = ephemeral.diffie_hellman(&peer_ephemeral);
    let keys = DerivedKeys::derive(&shared, id);
    let link = Link { id, keys, mode: offered.mode, mtu: offered.mtu };
    proof {
        hash::lemma_address_from(id);
        let p = proof@;
        assert(p.payload.take(64) =~= signature@);
        assert(p.payload.subrange(64, 96) =~= our_ephemeral@);
        assert(p.payload.skip(96) =~= trailer@);
        assert(trailer@.take(3) =~= trailer@);
        law_trailer_round_trip(offered);
        assert forall|pending: PendingModel|
            #[trigger] asked_for(pending, request@) && pending.peer.ed25519@
                == crypto::ed25519_public(destination.seed()) implies proved(pending, p) == Ok::<
            LinkModel,
            Error,
        >((LinkModel { mtu: (offered.mtu as nat % 0x20_0000) as u32, ..link@ })) by {
            hash::lemma_address_hash_ext(pending.link_id, id);
            assert(shared@ == crypto::x25519_product(pending.secret, our_ephemeral@));
        }
    }
    Ok((link, proof))
}

/// What an inbound link-layer packet is, once matched to a link by its id.
#[derive(Debug, PartialEq, Eq)]
pub enum Inbound {
    /// Application data, already decrypted.
    Data(Vec<u8>),
    /// The RTT packet that follows a proof. Its contents are not load-bearing.
    Rtt,
    /// A keepalive request. Answer it with [`Link::keepalive_packet`] carrying
    /// [`KEEPALIVE_RESPONSE`].
    KeepAliveRequest,
    /// A keepalive response to one we sent.
    KeepAliveResponse,
    /// The peer tore the link down.
    Close,
    /// A request, already decrypted. The payload is a packed request.
    Request(Vec<u8>),
    /// A response, already decrypted. The payload is a packed response.
    Response(Vec<u8>),
    /// Addressed to this link but not a shape we recognise.
    Unknown,
}

/// What an [`Inbound`] is, with its payload as a sequence.
#[verifier::ext_equal]
pub enum InboundModel {
    Data(Seq<u8>),
    Rtt,
    KeepAliveRequest,
    KeepAliveResponse,
    Close,
    Request(Seq<u8>),
    Response(Seq<u8>),
    Unknown,
}

impl View for Inbound {
    type V = InboundModel;

    open spec fn view(&self) -> InboundModel {
        match self {
            Inbound::Data(d) => InboundModel::Data(d@),
            Inbound::Rtt => InboundModel::Rtt,
            Inbound::KeepAliveRequest => InboundModel::KeepAliveRequest,
            Inbound::KeepAliveResponse => InboundModel::KeepAliveResponse,
            Inbound::Close => InboundModel::Close,
            Inbound::Request(d) => InboundModel::Request(d@),
            Inbound::Response(d) => InboundModel::Response(d@),
            Inbound::Unknown => InboundModel::Unknown,
        }
    }
}

/// What a packet means to a link: nothing if it is addressed elsewhere, and otherwise what
/// its context byte says, with the sealed contexts decrypted.
pub open spec fn received(link: LinkModel, packet: PacketModel) -> Option<InboundModel> {
    let plain = token::opened(link.keys, packet.payload);
    if packet.destination != link.id {
        None
    } else if packet.context == 0 {
        Some(
            match plain {
                Ok(d) => InboundModel::Data(d),
                Err(_) => InboundModel::Unknown,
            },
        )
    } else if packet.context == CTX_LRRTT {
        Some(InboundModel::Rtt)
    } else if packet.context == CTX_REQUEST {
        Some(
            match plain {
                Ok(d) => InboundModel::Request(d),
                Err(_) => InboundModel::Unknown,
            },
        )
    } else if packet.context == CTX_RESPONSE {
        Some(
            match plain {
                Ok(d) => InboundModel::Response(d),
                Err(_) => InboundModel::Unknown,
            },
        )
    } else if packet.context == CTX_KEEPALIVE {
        if packet.payload.len() > 0 && packet.payload[0] == KEEPALIVE_REQUEST {
            Some(InboundModel::KeepAliveRequest)
        } else if packet.payload.len() > 0 && packet.payload[0] == KEEPALIVE_RESPONSE {
            Some(InboundModel::KeepAliveResponse)
        } else {
            Some(InboundModel::Unknown)
        }
    } else if packet.context == CTX_LINKCLOSE {
        Some(InboundModel::Close)
    } else {
        Some(InboundModel::Unknown)
    }
}

/// The digest of the packet that `proof` proves the receipt of: `proof` has to be a proof
/// packet on this link with `digest(32) || signature(64)`, the signature being `peer`'s over
/// the digest.
pub open spec fn proven_digest(
    link: LinkModel,
    proof: PacketModel,
    peer: Identity,
) -> Option<Seq<u8>> {
    let digest = proof.payload.take(32);
    if proof.packet_type == PacketType::Proof && proof.destination == link.id
        && proof.payload.len() == 96 && crypto::ed25519_verifies(
        peer.ed25519@,
        digest,
        proof.payload.skip(32),
    ) {
        Some(digest)
    } else {
        None
    }
}

/// An established link: a shared key and the negotiated parameters.
///
/// The data channel is the token with the link's static key. There is no per-packet key
/// exchange, because the forward secrecy already lives in the ephemeral exchange that
/// established the link.
pub struct Link {
    id: AddressHash,
    keys: DerivedKeys,
    mode: LinkMode,
    mtu: u32,
}

impl View for Link {
    type V = LinkModel;

    closed spec fn view(&self) -> LinkModel {
        LinkModel { id: self.id, keys: self.keys@, mode: self.mode, mtu: self.mtu }
    }
}

impl Clone for Link {
    fn clone(&self) -> (copy: Self)
        ensures
            copy@ == self@,
    {
        Link { id: self.id, keys: self.keys.clone(), mode: self.mode, mtu: self.mtu }
    }
}

impl Link {
    /// The link id.
    pub fn id(&self) -> (id: AddressHash)
        ensures
            id == self@.id,
    {
        self.id
    }

    /// The negotiated cipher.
    pub fn mode(&self) -> (mode: LinkMode)
        ensures
            mode == self@.mode,
    {
        self.mode
    }

    /// The negotiated MTU.
    pub fn mtu(&self) -> (mtu: u32)
        ensures
            mtu == self@.mtu,
    {
        self.mtu
    }

    /// Encrypt application bytes into a link data packet. A link with the same id and keys
    /// receives them as data.
    ///
    /// `iv` is caller-supplied to keep this reproducible; it must be fresh and unpredictable
    /// per packet in production.
    pub fn data_packet(&self, plaintext: &[u8], iv: &[u8; IV_LEN]) -> (packet: Packet)
        ensures
            packet@ == on_link(self@.id, 0, token::sealed(self@.keys, iv@, plaintext@)),
            token::opened(self@.keys, packet@.payload) == Ok::<Seq<u8>, Error>(plaintext@),
            received(self@, packet@) == Some(InboundModel::Data(plaintext@)),
    {
        link_packet(0x00, self.id, self.keys.encrypt(plaintext, iv))
    }

    /// Decrypt a link data packet's payload.
    pub fn decrypt(&self, packet: &Packet) -> (plain: Result<Vec<u8>, Error>)
        ensures
            match plain {
                Ok(p) => token::opened(self@.keys, packet@.payload) == Ok::<Seq<u8>, Error>(p@),
                Err(e) => token::opened(self@.keys, packet@.payload) == Err::<Seq<u8>, Error>(e),
            },
    {
        self.keys.decrypt(&packet.payload)
    }

    /// Seal a whole blob with the link keys into one token (`IV || ciphertext || HMAC`).
    /// Opening it with the same keys gives the blob back.
    ///
    /// Resources encrypt the payload as a single token, then split *that* into parts, so the
    /// resource layer needs blob crypto rather than per-packet crypto.
    pub fn seal(&self, plaintext: &[u8], iv: &[u8; IV_LEN]) -> (sealed: Vec<u8>)
        ensures
            sealed@ == token::sealed(self@.keys, iv@, plaintext@),
            token::opened(self@.keys, sealed@) == Ok::<Seq<u8>, Error>(plaintext@),
            sealed@.len() == 48 + (plaintext@.len() / 16 + 1) * 16,
    {
        self.keys.encrypt(plaintext, iv)
    }

    /// Open a whole blob sealed with [`seal`](Self::seal).
    pub fn open(&self, sealed: &[u8]) -> (plain: Result<Vec<u8>, Error>)
        ensures
            match plain {
                Ok(p) => token::opened(self@.keys, sealed@) == Ok::<Seq<u8>, Error>(p@),
                Err(e) => token::opened(self@.keys, sealed@) == Err::<Seq<u8>, Error>(e),
            },
    {
        self.keys.decrypt(sealed)
    }

    /// A link packet with an arbitrary context and an already-encrypted payload.
    ///
    /// Resource parts carry raw slices of a pre-sealed token, so they are not encrypted
    /// again.
    pub fn framed_packet(&self, context: u8, payload: Vec<u8>) -> (packet: Packet)
        ensures
            packet@ == on_link(self@.id, context, payload@),
    {
        link_packet(context, self.id, payload)
    }

    /// A link packet whose plaintext is sealed with the link keys under `context`.
    pub fn sealed_packet(&self, context: u8, plaintext: &[u8], iv: &[u8; IV_LEN]) -> (packet:
        Packet)
        ensures
            packet@ == on_link(self@.id, context, token::sealed(self@.keys, iv@, plaintext@)),
            token::opened(self@.keys, packet@.payload) == Ok::<Seq<u8>, Error>(plaintext@),
    {
        link_packet(context, self.id, self.keys.encrypt(plaintext, iv))
    }

    /// A resource proof packet: a proof on this link, context [`CTX_RESOURCE_PRF`], payload
    /// `resource_hash(32) || proof(32)`, sent unencrypted.
    pub fn resource_proof_packet(&self, resource_hash: &[u8; 32], proof: &[u8; 32]) -> (packet:
        Packet)
        ensures
            packet@ == proof_on_link(self@.id, CTX_RESOURCE_PRF, resource_hash@ + proof@),
    {
        let mut payload: Vec<u8> = Vec::new();
        payload.extend_from_slice(resource_hash);
        payload.extend_from_slice(proof);
        assert(payload@ =~= resource_hash@ + proof@);
        fresh(DestinationType::Link, PacketType::Proof, self.id, CTX_RESOURCE_PRF, payload)
    }

    /// Classify an inbound packet addressed to this link.
    ///
    /// `None` if the packet is not for this link at all. Otherwise it dispatches on the
    /// context byte: data, requests and responses are decrypted, keepalives and closes are
    /// recognised by their shape.
    pub fn receive(&self, packet: &Packet) -> (inbound: Option<Inbound>)
        ensures
            match inbound {
                Some(i) => received(self@, packet@) == Some(i@),
                None => received(self@, packet@) is None,
            },
    {
        if !packet.destination.same(&self.id) {
            return None;
        }
        if packet.context == 0x00 {
            match self.decrypt(packet) {
                Ok(data) => Some(Inbound::Data(data)),
                Err(_) => Some(Inbound::Unknown),
            }
        } else if packet.context == CTX_LRRTT {
            Some(Inbound::Rtt)
        } else if packet.context == CTX_REQUEST {
            match self.decrypt(packet) {
                Ok(data) => Some(Inbound::Request(data)),
                Err(_) => Some(Inbound::Unknown),
            }
        } else if packet.context == CTX_RESPONSE {
            match self.decrypt(packet) {
                Ok(data) => Some(Inbound::Response(data)),
                Err(_) => Some(Inbound::Unknown),
            }
        } else if packet.context == CTX_KEEPALIVE {
            if packet.payload.len() > 0 && packet.payload[0] == KEEPALIVE_REQUEST {
                Some(Inbound::KeepAliveRequest)
            } else if packet.payload.len() > 0 && packet.payload[0] == KEEPALIVE_RESPONSE {
                Some(Inbound::KeepAliveResponse)
            } else {
                Some(Inbound::Unknown)
            }
        } else if packet.context == CTX_LINKCLOSE {
            Some(Inbound::Close)
        } else {
            Some(Inbound::Unknown)
        }
    }

    /// The RTT packet the initiator sends after a proof, which moves the link to active on
    /// the peer. `rtt_seconds` is a 32-bit float in big-endian bytes, which go out as a
    /// msgpack float; the exact value is not load-bearing.
    pub fn rtt_packet(&self, rtt_seconds: &[u8; 4], iv: &[u8; IV_LEN]) -> (packet: Packet)
        ensures
            packet@ == on_link(
                self@.id,
                CTX_LRRTT,
                token::sealed(self@.keys, iv@, seq![0xca_u8] + rtt_seconds@),
            ),
            received(self@, packet@) == Some(InboundModel::Rtt),
    {
        let mut plain: Vec<u8> = Vec::new();
        plain.push(0xca);
        plain.extend_from_slice(rtt_seconds);
        assert(plain@ =~= seq![0xca_u8] + rtt_seconds@);
        link_packet(CTX_LRRTT, self.id, self.keys.encrypt(&plain, iv))
    }

    /// Encrypt an already-packed request into a link request packet.
    pub fn request_packet(&self, packed: &[u8], iv: &[u8; IV_LEN]) -> (packet: Packet)
        ensures
            packet@ == on_link(self@.id, CTX_REQUEST, token::sealed(self@.keys, iv@, packed@)),
            received(self@, packet@) == Some(InboundModel::Request(packed@)),
    {
        link_packet(CTX_REQUEST, self.id, self.keys.encrypt(packed, iv))
    }

    /// Encrypt an already-packed response into a link response packet.
    pub fn response_packet(&self, packed: &[u8], iv: &[u8; IV_LEN]) -> (packet: Packet)
        ensures
            packet@ == on_link(self@.id, CTX_RESPONSE, token::sealed(self@.keys, iv@, packed@)),
            received(self@, packet@) == Some(InboundModel::Response(packed@)),
    {
        link_packet(CTX_RESPONSE, self.id, self.keys.encrypt(packed, iv))
    }

    /// A keepalive. The peer answers a [`KEEPALIVE_REQUEST`] with a [`KEEPALIVE_RESPONSE`].
    /// Keepalive bytes are not encrypted; they ride the link by its id alone.
    pub fn keepalive_packet(&self, sentinel: u8) -> (packet: Packet)
        ensures
            packet@ == on_link(self@.id, CTX_KEEPALIVE, seq![sentinel]),
    {
        let mut payload: Vec<u8> = Vec::new();
        payload.push(sentinel);
        assert(payload@ =~= seq![sentinel]);
        link_packet(CTX_KEEPALIVE, self.id, payload)
    }

    /// Tear the link down.
    pub fn close_packet(&self) -> (packet: Packet)
        ensures
            packet@ == on_link(self@.id, CTX_LINKCLOSE, self@.id@),
            received(self@, packet@) == Some(InboundModel::Close),
    {
        link_packet(CTX_LINKCLOSE, self.id, bytes::copy_all(self.id.as_slice()))
    }

    /// The proof of receipt for `packet`, signed by `prover`: the packet's digest and a
    /// signature over it. It proves receipt to every peer that knows `prover`'s public half.
    pub fn data_proof(&self, packet: &Packet, prover: &PrivateIdentity) -> (proof: Packet)
        ensures
            ({
                let digest = crypto::sha256(packet@.identifying_bytes());
                &&& proof@ == proof_on_link(
                    self@.id,
                    0,
                    digest + crypto::ed25519_signature(prover.seed(), digest),
                )
                &&& forall|peer: Identity|
                    peer.ed25519@ == crypto::ed25519_public(prover.seed())
                        ==> #[trigger] proven_digest(self@, proof@, peer) == Some(digest)
            }),
    {
        let digest: [u8; 32] = packet.full_hash();
        let signature: [u8; SIGNATURE_LEN] = prover.sign(&digest);
        let mut payload: Vec<u8> = Vec::new();
        payload.extend_from_slice(&digest);
        payload.extend_from_slice(&signature);
        assert(payload@ =~= digest@ + signature@);
        assert(payload@.take(32) =~= digest@);
        assert(payload@.skip(32) =~= signature@);
        fresh(DestinationType::Link, PacketType::Proof, self.id, 0x00, payload)
    }

    /// The digest of the packet that `proof` proves the receipt of, if it is a valid proof
    /// of receipt from `peer` on this link.
    pub fn verify_data_proof(&self, proof: &Packet, peer: &Identity) -> (digest: Option<[u8; 32]>)
        ensures
            match digest {
                Some(d) => proven_digest(self@, proof@, *peer) == Some(d@),
                None => proven_digest(self@, proof@, *peer) is None,
            },
    {
        if proof.packet_type != PacketType::Proof {
            return None;
        }
        if !proof.destination.same(&self.id) {
            return None;
        }
        if proof.payload.len() != 32 + SIGNATURE_LEN {
            return None;
        }
        let digest: [u8; 32] = bytes::array_at::<32>(&proof.payload, 0);
        let signature: [u8; SIGNATURE_LEN] = bytes::array_at::<SIGNATURE_LEN>(&proof.payload, 32);
        assert(digest@ =~= proof@.payload.take(32));
        assert(signature@ =~= proof@.payload.skip(32));
        if peer.verify(&digest, &signature) {
            Some(digest)
        } else {
            None
        }
    }
}

/// What a link makes of a packet rests on its id and its keys alone, so the two ends of a
/// link receive alike.
pub proof fn law_both_ends_receive_alike(a: LinkModel, b: LinkModel, packet: PacketModel)
    requires
        a.id == b.id,
        a.keys == b.keys,
    ensures
        received(a, packet) == received(b, packet),
{
}

/// Only a proof that the peer signed establishes a pending link, and it establishes the link
/// that was asked for, with keys from the ephemeral key that the signature covers.
pub proof fn law_only_a_signed_proof_establishes(pending: PendingModel, proof: PacketModel)
    ensures
        proved(pending, proof) matches Ok(link) ==> {
            &&& link.id == pending.link_id
            &&& proof.packet_type == PacketType::Proof
            &&& proof.destination == pending.link_id
            &&& crypto::ed25519_verifies(
                pending.peer.ed25519@,
                proof_message(
                    pending.link_id@,
                    proof.payload.subrange(64, 96),
                    pending.peer.ed25519@,
                    proof.payload.skip(96),
                ),
                proof.payload.take(64),
            )
            &&& link.keys == link_keys(
                pending.link_id@,
                pending.secret,
                proof.payload.subrange(64, 96),
            )
        },
{
}

/// A keepalive is received as what its sentinel says.
pub proof fn law_keepalives_are_recognised(link: LinkModel)
    ensures
        received(link, on_link(link.id, CTX_KEEPALIVE, seq![KEEPALIVE_REQUEST])) == Some(
            InboundModel::KeepAliveRequest,
        ),
        received(link, on_link(link.id, CTX_KEEPALIVE, seq![KEEPALIVE_RESPONSE])) == Some(
            InboundModel::KeepAliveResponse,
        ),
{
}

/// A link id stands for one request: two requests with the same bytes under the hash are for the
/// same destination, with the same keys.
pub proof fn law_link_ids_stand_for_one_request(a: PacketModel, b: PacketModel)
    requires
        a.payload.len() >= 64,
        b.payload.len() >= 64,
        link_id_preimage(a) == link_id_preimage(b),
    ensures
        a.destination == b.destination,
        a.context == b.context,
        a.packet_type == b.packet_type,
        a.destination_type == b.destination_type,
        a.payload.take(64) == b.payload.take(64),
{
    let x = link_id_preimage(a);
    let y = link_id_preimage(b);
    assert(x[0] == a.stable_flags() as u8 && y[0] == b.stable_flags() as u8);
    assert(a.destination_type.bits() == b.destination_type.bits());
    assert(a.packet_type.bits() == b.packet_type.bits());
    assert(x.subrange(1, 17) =~= a.destination@);
    assert(y.subrange(1, 17) =~= b.destination@);
    hash::lemma_address_hash_ext(a.destination, b.destination);
    assert(x[17] == a.context && y[17] == b.context);
    assert(x.skip(18) =~= a.payload.take(64));
    assert(y.skip(18) =~= b.payload.take(64));
}

/// A proof is believed on the peer's signature over all of it and nothing less: the link id, the
/// ephemeral key, the peer's own key and everything behind the key in the proof.
pub proof fn law_a_proof_is_signed_whole(pending: PendingModel, proof: PacketModel)
    requires
        proved(pending, proof) is Ok,
    ensures
        proof.payload.len() >= 96,
        crypto::ed25519_verifies(
            pending.peer.ed25519@,
            pending.link_id@ + proof.payload.subrange(64, 96) + pending.peer.ed25519@
                + proof.payload.skip(96),
            proof.payload.take(64),
        ),
        proved(pending, proof)->Ok_0.keys == crypto::hkdf_sha256(
            pending.link_id@,
            crypto::x25519_product(pending.secret, proof.payload.subrange(64, 96)),
        ),
        proof.payload.len() < 99 ==> proved(pending, proof)->Ok_0.mtu == pending.requested.mtu
            && proved(pending, proof)->Ok_0.mode == pending.requested.mode,
{
}

/// A proof that is signed whole, with no trailer or a good one, establishes the link: nothing else
/// about it can stand in the way.
pub proof fn law_a_signed_proof_is_enough(
    pending: PendingModel,
    proof: PacketModel,
    trailer: LinkTrailer,
)
    requires
        proof.packet_type == PacketType::Proof,
        proof.destination == pending.link_id,
        proof.payload.len() == 96 || proof.payload.skip(96) == trailer.wire(),
        proof.payload.len() >= 96,
        crypto::ed25519_verifies(
            pending.peer.ed25519@,
            pending.link_id@ + proof.payload.subrange(64, 96) + pending.peer.ed25519@
                + proof.payload.skip(96),
            proof.payload.take(64),
        ),
    ensures
        proved(pending, proof) is Ok,
        proved(pending, proof)->Ok_0.id == pending.link_id,
{
    law_trailer_round_trip(trailer);
    if proof.payload.len() != 96 {
        bytes::lemma_be_bytes_len(
            trailer.mode.bits() * 0x20_0000 + trailer.mtu as nat % 0x20_0000,
            3,
        );
        assert(trailer.wire().take(3) =~= trailer.wire());
    }
}

/// What comes in on a link is what its context says: data, requests and responses to the last byte
/// of what was sealed, and no other context is taken for one.
pub proof fn law_sealed_traffic_is_read_whole(
    link: LinkModel,
    packet: PacketModel,
    plain: Seq<u8>,
)
    requires
        packet.destination == link.id,
        token::opened(link.keys, packet.payload) == Ok::<Seq<u8>, Error>(plain),
    ensures
        packet.context == 0x00 <==> received(link, packet) == Some(InboundModel::Data(plain)),
        packet.context == 0x09 <==> received(link, packet) == Some(InboundModel::Request(plain)),
        packet.context == 0x0a <==> received(link, packet) == Some(InboundModel::Response(plain)),
        packet.context == 0xfc <==> received(link, packet) == Some(InboundModel::Close),
        packet.context == 0xfe <==> received(link, packet) == Some(InboundModel::Rtt),
        received(link, PacketModel { hops: 0, ..packet }) == received(link, packet),
{
}

/// A receipt counts only on its own link, whole, and with the peer's signature over the digest it
/// names.
pub proof fn law_only_signed_receipts_count(link: LinkModel, proof: PacketModel, peer: Identity)
    ensures
        proven_digest(link, proof, peer) matches Some(d) ==> {
            &&& proof.packet_type == PacketType::Proof
            &&& proof.destination == link.id
            &&& proof.payload.len() == 96
            &&& d == proof.payload.subrange(0, 32)
            &&& crypto::ed25519_verifies(peer.ed25519@, d, proof.payload.subrange(32, 96))
        },
{
    if proven_digest(link, proof, peer) is Some {
        assert(proof.payload.take(32) =~= proof.payload.subrange(0, 32));
        assert(proof.payload.skip(32) =~= proof.payload.subrange(32, 96));
    }
}

/// Every trailer with a known mode is read, whatever its MTU: the mode is in the top three bits of
/// its first byte, and the other modes are refused.
pub proof fn law_known_modes_are_read(raw: Seq<u8>)
    requires
        raw.len() == 3,
    ensures
        match trailer_of(raw) {
            Ok(t) => {
                &&& raw[0] < 64
                &&& t.mtu == raw[0] % 32 * 0x1_0000 + raw[1] * 0x100 + raw[2]
                &&& (t.mode == LinkMode::Aes256Cbc) == (raw[0] >= 32)
            },
            Err(e) => raw[0] >= 64 && e == Error::BadLinkMode,
        },
{
    reveal_with_fuel(bytes::be_value, 4);
    let two = raw.drop_last();
    let one = two.drop_last();
    assert(one.drop_last() =~= Seq::<u8>::empty());
    let value = raw[0] as int * 0x1_0000 + raw[1] as int * 0x100 + raw[2] as int;
    assert(bytes::be_value(raw) == value);
    assert(value / 0x20_0000 == raw[0] as int / 32);
    assert(value % 0x20_0000 == raw[0] as int % 32 * 0x1_0000 + raw[1] as int * 0x100
        + raw[2] as int);
}

/// A proof is refused for the first thing that is wrong with it, and for nothing else: its type,
/// the link it is for, its length, its signature.
pub proof fn law_proofs_are_refused_for_the_first_fault(pending: PendingModel, proof: PacketModel)
    ensures
        ({
            let right = proof.packet_type == PacketType::Proof && proof.destination
                == pending.link_id;
            let valid = crypto::ed25519_verifies(
                pending.peer.ed25519@,
                pending.link_id@ + proof.payload.subrange(64, 96) + pending.peer.ed25519@
                    + proof.payload.skip(96),
                proof.payload.take(64),
            );
            let found = proved(pending, proof);
            &&& proof.packet_type != PacketType::Proof ==> found == Err::<LinkModel, Error>(
                Error::NotAProof,
            )
            &&& proof.packet_type == PacketType::Proof && proof.destination != pending.link_id
                ==> found == Err::<LinkModel, Error>(Error::LinkMismatch)
            &&& right && proof.payload.len() < 96 ==> found == Err::<LinkModel, Error>(
                Error::Truncated,
            )
            &&& right && proof.payload.len() >= 96 && !valid ==> found == Err::<LinkModel, Error>(
                Error::BadSignature,
            )
        }),
{
}

/// A request carries the two keys and the trailer, and nothing else.
pub proof fn law_requests_carry_keys_and_trailer(
    secret: Seq<u8>,
    seed: Seq<u8>,
    requested: LinkTrailer,
)
    requires
        crypto::x25519_public(secret).len() == 32,
        crypto::ed25519_public(seed).len() == 32,
    ensures
        ({
            let p = request_payload(secret, seed, requested);
            &&& p.len() == 67
            &&& p.subrange(0, 32) == crypto::x25519_public(secret)
            &&& p.subrange(32, 64) == crypto::ed25519_public(seed)
            &&& p.subrange(64, 67) == requested.wire()
        }),
{
    let p = request_payload(secret, seed, requested);
    bytes::lemma_be_bytes_len(
        requested.mode.bits() * 0x20_0000 + requested.mtu as nat % 0x20_0000,
        3,
    );
    assert(p.subrange(0, 32) =~= crypto::x25519_public(secret));
    assert(p.subrange(32, 64) =~= crypto::ed25519_public(seed));
    assert(p.subrange(64, 67) =~= requested.wire());
}

/// What a link sends is addressed to the link, whole and at the start of its way.
pub proof fn law_link_packets_are_addressed_to_the_link(
    id: AddressHash,
    context: u8,
    payload: Seq<u8>,
)
    ensures
        ({
            let data = on_link(id, context, payload);
            let proof = proof_on_link(id, context, payload);
            &&& data.destination == id && proof.destination == id
            &&& data.destination_type == DestinationType::Link && proof.destination_type
                == DestinationType::Link
            &&& data.packet_type == PacketType::Data && proof.packet_type == PacketType::Proof
            &&& data.context == context && proof.context == context
            &&& data.payload == payload && proof.payload == payload
            &&& data.hops == 0 && proof.hops == 0
            &&& data.well_formed() && proof.well_formed()
            &&& data.transport is None && proof.transport is None
        }),
{
}

} // verus!
