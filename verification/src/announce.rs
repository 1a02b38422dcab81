//! Announces: how a destination makes itself known.
//!
//! ```text
//! public keys(64) name hash(10) randomness(10) [ratchet(32)] signature(64) app data
//! ```
//!
//! The context flag of the packet says whether there is a ratchet. The signature covers the
//! destination hash and everything else but itself, so an [`Announce`] only exists once its
//! signature has verified and its destination is the one that its keys and name give.

use crate::bytes;
use crate::crypto;
use crate::destination;
use crate::error::Error;
use crate::hash::{AddressHash, NameHash};
use crate::packet::{DestinationType, HeaderType, Packet, PacketModel, PacketType, Propagation};
use crate::rns_identity::{Identity, PrivateIdentity, SIGNATURE_LEN};
use vstd::prelude::*;

verus! {

/// Length of the randomness in an announce.
pub const RAND_HASH_LEN: usize = 10;

/// Length of a ratchet public key.
pub const RATCHET_LEN: usize = 32;

/// A validated announce.
#[derive(Debug, PartialEq, Eq)]
pub struct Announce {
    pub destination: AddressHash,
    pub identity: Identity,
    pub name_hash: NameHash,
    pub rand_hash: [u8; RAND_HASH_LEN],
    /// The destination's current ratchet public key, if it advertises ratchets.
    pub ratchet: Option<[u8; RATCHET_LEN]>,
    pub app_data: Vec<u8>,
}

/// What an [`Announce`] is, with its app data as a sequence.
#[verifier::ext_equal]
pub struct AnnounceModel {
    pub destination: AddressHash,
    pub identity: Identity,
    pub name_hash: NameHash,
    pub rand_hash: [u8; RAND_HASH_LEN],
    pub ratchet: Option<[u8; RATCHET_LEN]>,
    pub app_data: Seq<u8>,
}

impl View for Announce {
    type V = AnnounceModel;

    open spec fn view(&self) -> AnnounceModel {
        AnnounceModel {
            destination: self.destination,
            identity: self.identity,
            name_hash: self.name_hash,
            rand_hash: self.rand_hash,
            ratchet: self.ratchet,
            app_data: self.app_data@,
        }
    }
}

/// The bytes of a ratchet, if there is one.
pub open spec fn ratchet_bytes(ratchet: Option<[u8; RATCHET_LEN]>) -> Seq<u8> {
    match ratchet {
        Some(r) => r@,
        None => Seq::empty(),
    }
}

impl AnnounceModel {
    /// What comes before the signature.
    pub open spec fn head(self) -> Seq<u8> {
        self.identity@ + self.name_hash@ + self.rand_hash@ + ratchet_bytes(self.ratchet)
    }

    /// What the signature covers.
    pub open spec fn message(self) -> Seq<u8> {
        self.destination@ + self.head() + self.app_data
    }

    /// The payload with `signature` in it.
    pub open spec fn payload(self, signature: Seq<u8>) -> Seq<u8> {
        self.head() + signature + self.app_data
    }

    /// The destination is the one that the keys and the name give.
    pub open spec fn own_destination(self) -> bool {
        self.destination@ == destination::single_destination(self.name_hash@, self.identity@)
    }
}

/// Where the signature starts.
pub open spec fn signature_at(ratcheted: bool) -> int {
    if ratcheted {
        116
    } else {
        84
    }
}

/// Whether `p` announces `a`: the packet is an announce to `a`'s destination whose payload
/// spells `a`, whose signature verifies, and whose destination is `a`'s own.
pub open spec fn announces(p: PacketModel, a: AnnounceModel) -> bool {
    let at = signature_at(p.context_flag);
    let signature = p.payload.subrange(at, at + 64);
    &&& p.packet_type == PacketType::Announce
    &&& p.payload.len() >= at + 64
    &&& (a.ratchet is Some) == p.context_flag
    &&& a.destination == p.destination
    &&& p.payload == a.payload(signature)
    &&& crypto::ed25519_verifies(a.identity.ed25519@, a.message(), signature)
    &&& a.own_destination()
}

/// What a packet announces, if anything.
pub open spec fn announced(p: PacketModel) -> Option<AnnounceModel> {
    if exists|a: AnnounceModel| announces(p, a) {
        Some(choose|a: AnnounceModel| announces(p, a))
    } else {
        None
    }
}

/// A packet announces one thing only.
pub proof fn law_an_announce_is_unambiguous(p: PacketModel, a: AnnounceModel, b: AnnounceModel)
    requires
        announces(p, a),
        announces(p, b),
    ensures
        a == b,
{
    lemma_announced(p, a, b);
}

/// What keeps a packet from being an announce.
pub open spec fn refusal(p: PacketModel) -> Error {
    if p.packet_type != PacketType::Announce {
        Error::NotAnAnnounce
    } else if p.payload.len() < signature_at(p.context_flag) + 64 {
        Error::Truncated
    } else if !signed(p) {
        Error::BadSignature
    } else {
        Error::DestinationMismatch
    }
}

/// Whether the signature of an announce packet verifies under the keys it carries.
pub open spec fn signed(p: PacketModel) -> bool {
    let at = signature_at(p.context_flag);
    crypto::ed25519_verifies(
        p.payload.subrange(32, 64),
        p.destination@ + p.payload.take(at) + p.payload.skip(at + 64),
        p.payload.subrange(at, at + 64),
    )
}

impl Announce {
    /// Validate an announce packet. The errors are found in this order:
    /// [`Error::NotAnAnnounce`] for another packet type, [`Error::Truncated`],
    /// [`Error::BadSignature`], and [`Error::DestinationMismatch`] for a destination that the
    /// announced keys and name do not give.
    pub fn decode(packet: &Packet) -> (announce: Result<Announce, Error>)
        ensures
            match announce {
                Ok(a) => announces(packet@, a@) && announced(packet@) == Some(a@),
                Err(e) => e == refusal(packet@) && announced(packet@) is None,
            },
    {
        if packet.packet_type != PacketType::Announce {
            return Err(Error::NotAnAnnounce);
        }
        let payload: &Vec<u8> = &packet.payload;
        let at: usize = if packet.context_flag {
            84 + RATCHET_LEN
        } else {
            84
        };
        if payload.len() < at + SIGNATURE_LEN {
            return Err(Error::Truncated);
        }
        let identity = Identity {
            x25519: bytes::array_at::<32>(payload, 0),
            ed25519: bytes::array_at::<32>(payload, 32),
        };
        let name_hash = NameHash(bytes::array_at::<10>(payload, 64));
        let rand_hash: [u8; RAND_HASH_LEN] = bytes::array_at::<RAND_HASH_LEN>(payload, 74);
        let ratchet: Option<[u8; RATCHET_LEN]> = if packet.context_flag {
            Some(bytes::array_at::<RATCHET_LEN>(payload, 84))
        } else {
            None
        };
        let signature: [u8; SIGNATURE_LEN] = bytes::array_at::<SIGNATURE_LEN>(payload, at);
        let app_data: Vec<u8> = bytes::copy_range(payload, at + SIGNATURE_LEN, payload.len());
        let mut message: Vec<u8> = bytes::copy_all(packet.destination.as_slice());
        message.extend_from_slice(vstd::slice::slice_subrange(payload, 0, at));
        message.extend_from_slice(&app_data);
        let announce = Announce {
            destination: packet.destination,
            identity,
            name_hash,
            rand_hash,
            ratchet,
            app_data,
        };
        proof {
            let p = packet@.payload;
            assert(announce@.head() =~= p.take(at as int));
            assert(announce@.app_data =~= p.skip(at + 64));
            assert(message@ =~= announce@.message());
            assert(message@ =~= packet@.destination@ + p.take(at as int) + p.skip(at + 64));
            assert(p =~= announce@.payload(signature@));
            assert(identity.ed25519@ =~= p.subrange(32, 64));
            assert(signature@ =~= p.subrange(at as int, at + 64));
            assert forall|a: AnnounceModel| #[trigger] announces(packet@, a) implies a
                == announce@ by {
                lemma_announced(packet@, a, announce@);
            }
        }
        if !identity.verify(&message, &signature) {
            return Err(Error::BadSignature);
        }
        let own = destination::destination_hash_of(&name_hash, &identity);
        if !own.same(&packet.destination) {
            return Err(Error::DestinationMismatch);
        }
        Ok(announce)
    }
}

/// What a packet announces is what its payload spells.
proof fn lemma_announced(p: PacketModel, a: AnnounceModel, b: AnnounceModel)
    requires
        announces(p, a),
        (b.ratchet is Some) == p.context_flag,
        b.destination == p.destination,
        p.payload == b.payload(
            p.payload.subrange(signature_at(p.context_flag), signature_at(p.context_flag) + 64),
        ),
    ensures
        a == b,
{
    let w = p.payload;
    let at = signature_at(p.context_flag);
    assert(a.identity@ =~= w.subrange(0, 64));
    assert(b.identity@ =~= w.subrange(0, 64));
    crate::rns_identity::lemma_identity_ext(a.identity, b.identity);
    assert(a.name_hash.0@ =~= w.subrange(64, 74));
    assert(b.name_hash.0@ =~= w.subrange(64, 74));
    assert(a.name_hash.0 =~= b.name_hash.0);
    assert(a.rand_hash@ =~= w.subrange(74, 84));
    assert(b.rand_hash@ =~= w.subrange(74, 84));
    assert(a.rand_hash =~= b.rand_hash);
    if p.context_flag {
        assert(a.ratchet->0@ =~= w.subrange(84, 116));
        assert(b.ratchet->0@ =~= w.subrange(84, 116));
        assert(a.ratchet->0 =~= b.ratchet->0);
    }
    assert(a.app_data =~= w.skip(at + 64));
    assert(b.app_data =~= w.skip(at + 64));
}

/// The announce packet for `a`, signed with the key of `seed`.
pub open spec fn announce_packet(seed: Seq<u8>, a: AnnounceModel) -> PacketModel {
    PacketModel {
        ifac: false,
        header_type: HeaderType::Type1,
        context_flag: a.ratchet is Some,
        propagation: Propagation::Broadcast,
        destination_type: DestinationType::Single,
        packet_type: PacketType::Announce,
        hops: 0,
        transport: None,
        destination: a.destination,
        context: 0,
        payload: a.payload(crypto::ed25519_signature(seed, a.message())),
    }
}

/// Build and sign an announce packet. Decoding it gives the announce back.
pub fn build(
    identity: &PrivateIdentity,
    name_hash: NameHash,
    rand_hash: &[u8; RAND_HASH_LEN],
    ratchet: Option<[u8; RATCHET_LEN]>,
    app_data: &[u8],
) -> (packet: Packet)
    ensures
        ({
            let a = AnnounceModel {
                destination: packet@.destination,
                identity: identity.public_identity(),
                name_hash,
                rand_hash: *rand_hash,
                ratchet,
                app_data: app_data@,
            };
            &&& packet@ == announce_packet(identity.seed(), a)
            &&& a.own_destination()
            &&& announces(packet@, a)
        }),
{
    let public: Identity = *identity.public();
    let destination = destination::destination_hash_of(&name_hash, &public);
    let mut head: Vec<u8> = public.to_public_bytes();
    head.extend_from_slice(name_hash.as_slice());
    head.extend_from_slice(rand_hash);
    if let Some(r) = ratchet {
        head.extend_from_slice(&r);
    }
    let mut message: Vec<u8> = bytes::copy_all(destination.as_slice());
    message.extend_from_slice(&head);
    message.extend_from_slice(app_data);
    let signature: [u8; SIGNATURE_LEN] = identity.sign(&message);
    let ghost a = AnnounceModel {
        destination,
        identity: public,
        name_hash,
        rand_hash: *rand_hash,
        ratchet,
        app_data: app_data@,
    };
    assert(head@ =~= a.head());
    assert(message@ =~= a.message());
    let mut payload: Vec<u8> = head;
    payload.extend_from_slice(&signature);
    payload.extend_from_slice(app_data);
    assert(payload@ =~= a.payload(signature@));
    let packet = Packet {
        ifac: false,
        header_type: HeaderType::Type1,
        context_flag: ratchet.is_some(),
        propagation: Propagation::Broadcast,
        destination_type: DestinationType::Single,
        packet_type: PacketType::Announce,
        hops: 0,
        transport: None,
        destination,
        context: 0,
        payload,
    };
    proof {
        let at = signature_at(packet@.context_flag);
        assert(packet@.payload.subrange(at, at + 64) =~= signature@);
    }
    packet
}

/// A genuine announce is signed whole and says what its payload says: the signature, by the key
/// announced, covers the destination and every other byte; the keys, the name, the randomness and
/// the app data are those bytes; and the destination is the hash of the name and the keys.
pub proof fn law_a_genuine_announce_is_signed_whole(p: PacketModel, a: AnnounceModel)
    requires
        announces(p, a),
    ensures
        ({
            let at: int = if p.context_flag {
                116
            } else {
                84
            };
            let w = p.payload;
            &&& p.packet_type == PacketType::Announce
            &&& w.len() >= at + 64
            &&& crypto::ed25519_verifies(
                w.subrange(32, 64),
                p.destination@ + w.take(at) + w.skip(at + 64),
                w.subrange(at, at + 64),
            )
            &&& a.identity@ == w.subrange(0, 64)
            &&& a.name_hash@ == w.subrange(64, 74)
            &&& a.rand_hash@ == w.subrange(74, 84)
            &&& a.app_data == w.skip(at + 64)
            &&& p.context_flag ==> a.ratchet is Some && a.ratchet->0@ == w.subrange(84, 116)
            &&& !p.context_flag ==> a.ratchet is None
            &&& p.destination@ == crate::hash::address_of(
                w.subrange(64, 74) + crate::hash::address_of(w.subrange(0, 64)),
            )
        }),
{
    let w = p.payload;
    let at = signature_at(p.context_flag);
    let signature = w.subrange(at, at + 64);
    assert(a.head().len() == at);
    assert(a.identity@ =~= w.subrange(0, 64));
    assert(a.identity.ed25519@ =~= w.subrange(32, 64));
    assert(a.name_hash@ =~= w.subrange(64, 74));
    assert(a.rand_hash@ =~= w.subrange(74, 84));
    assert(a.app_data =~= w.skip(at + 64));
    assert(a.head() =~= w.take(at));
    assert(a.message() =~= p.destination@ + w.take(at) + w.skip(at + 64));
    if p.context_flag {
        assert(a.ratchet->0@ =~= w.subrange(84, 116));
    }
}

/// A packet is refused as an announce for the first thing that is wrong with it, and for nothing
/// else: its type, its length, its signature, and last the destination.
pub proof fn law_refusals_name_the_first_fault(p: PacketModel)
    ensures
        ({
            let at: int = if p.context_flag {
                116
            } else {
                84
            };
            let w = p.payload;
            let valid = crypto::ed25519_verifies(
                w.subrange(32, 64),
                p.destination@ + w.take(at) + w.skip(at + 64),
                w.subrange(at, at + 64),
            );
            &&& p.packet_type != PacketType::Announce <==> refusal(p) == Error::NotAnAnnounce
            &&& p.packet_type == PacketType::Announce && w.len() < at + 64 <==> refusal(p)
                == Error::Truncated
            &&& p.packet_type == PacketType::Announce && w.len() >= at + 64 && !valid <==> refusal(
                p,
            ) == Error::BadSignature
        }),
{
}

} // verus!
