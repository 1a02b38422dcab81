//! The packet codec.
//!
//! ```text
//! flags(1) hops(1) [transport(16)] destination(16) context(1) payload
//! ```
//!
//! The flag byte is, from the top bit down: interface authentication, header type, context
//! flag, propagation, destination type (two bits), packet type (two bits). The transport
//! field is there exactly when the header type is the second one.

use crate::bytes;
use crate::crypto;
use crate::error::Error;
use crate::hash;
use crate::hash::AddressHash;
use vstd::prelude::*;

verus! {

/// The largest packet, in bytes.
pub const MTU: usize = 500;

/// The largest plaintext that one encrypted packet carries.
pub const ENCRYPTED_MDU: usize = 383;

/// Bytes of a first-type header: flags, hops, destination, context.
pub const HEADER_1_LEN: usize = 19;

/// Bytes of a second-type header, which adds the transport field.
pub const HEADER_2_LEN: usize = 35;

/// Whether the header has a transport field.
#[derive(Clone, Copy, Debug, PartialEq, Eq, Structural)]
pub enum HeaderType {
    Type1,
    Type2,
}

/// How a packet spreads.
#[derive(Clone, Copy, Debug, PartialEq, Eq, Structural)]
pub enum Propagation {
    Broadcast,
    Transport,
}

/// What kind of destination a packet is for.
#[derive(Clone, Copy, Debug, PartialEq, Eq, Structural)]
pub enum DestinationType {
    Single,
    Group,
    Plain,
    Link,
}

/// What a packet is.
#[derive(Clone, Copy, Debug, PartialEq, Eq, Structural)]
pub enum PacketType {
    Data,
    Announce,
    LinkRequest,
    Proof,
}

impl DestinationType {
    /// The two bits on the wire.
    pub open spec fn bits(self) -> nat {
        match self {
            DestinationType::Single => 0,
            DestinationType::Group => 1,
            DestinationType::Plain => 2,
            DestinationType::Link => 3,
        }
    }

    fn to_bits(self) -> (bits: u8)
        ensures
            bits as nat == self.bits(),
    {
        match self {
            DestinationType::Single => 0,
            DestinationType::Group => 1,
            DestinationType::Plain => 2,
            DestinationType::Link => 3,
        }
    }

    fn from_bits(bits: u8) -> (t: Self)
        requires
            bits < 4,
        ensures
            t.bits() == bits as nat,
    {
        if bits == 0 {
            DestinationType::Single
        } else if bits == 1 {
            DestinationType::Group
        } else if bits == 2 {
            DestinationType::Plain
        } else {
            DestinationType::Link
        }
    }
}

impl PacketType {
    /// The two bits on the wire.
    pub open spec fn bits(self) -> nat {
        match self {
            PacketType::Data => 0,
            PacketType::Announce => 1,
            PacketType::LinkRequest => 2,
            PacketType::Proof => 3,
        }
    }

    fn to_bits(self) -> (bits: u8)
        ensures
            bits as nat == self.bits(),
    {
        match self {
            PacketType::Data => 0,
            PacketType::Announce => 1,
            PacketType::LinkRequest => 2,
            PacketType::Proof => 3,
        }
    }

    fn from_bits(bits: u8) -> (t: Self)
        requires
            bits < 4,
        ensures
            t.bits() == bits as nat,
    {
        if bits == 0 {
            PacketType::Data
        } else if bits == 1 {
            PacketType::Announce
        } else if bits == 2 {
            PacketType::LinkRequest
        } else {
            PacketType::Proof
        }
    }
}

/// One packet.
#[derive(Debug, PartialEq, Eq)]
pub struct Packet {
    pub ifac: bool,
    pub header_type: HeaderType,
    pub context_flag: bool,
    pub propagation: Propagation,
    pub destination_type: DestinationType,
    pub packet_type: PacketType,
    /// How many transport nodes the packet has passed.
    pub hops: u8,
    /// The transport node the packet is addressed through, on a second-type header.
    pub transport: Option<AddressHash>,
    pub destination: AddressHash,
    pub context: u8,
    pub payload: Vec<u8>,
}

/// What a [`Packet`] is, with its payload as a sequence.
#[verifier::ext_equal]
pub struct PacketModel {
    pub ifac: bool,
    pub header_type: HeaderType,
    pub context_flag: bool,
    pub propagation: Propagation,
    pub destination_type: DestinationType,
    pub packet_type: PacketType,
    pub hops: u8,
    pub transport: Option<AddressHash>,
    pub destination: AddressHash,
    pub context: u8,
    pub payload: Seq<u8>,
}

impl View for Packet {
    type V = PacketModel;

    open spec fn view(&self) -> PacketModel {
        PacketModel {
            ifac: self.ifac,
            header_type: self.header_type,
            context_flag: self.context_flag,
            propagation: self.propagation,
            destination_type: self.destination_type,
            packet_type: self.packet_type,
            hops: self.hops,
            transport: self.transport,
            destination: self.destination,
            context: self.context,
            payload: self.payload@,
        }
    }
}

impl Clone for Packet {
    fn clone(&self) -> (copy: Self)
        ensures
            copy@ == self@,
    {
        Packet {
            ifac: self.ifac,
            header_type: self.header_type,
            context_flag: self.context_flag,
            propagation: self.propagation,
            destination_type: self.destination_type,
            packet_type: self.packet_type,
            hops: self.hops,
            transport: self.transport,
            destination: self.destination,
            context: self.context,
            payload: bytes::copy_all(&self.payload),
        }
    }
}

/// 1 for true, 0 for false.
pub open spec fn bit(b: bool) -> nat {
    if b {
        1
    } else {
        0
    }
}

impl PacketModel {
    /// The transport field is there exactly on a second-type header.
    pub open spec fn well_formed(self) -> bool {
        (self.header_type is Type2) == (self.transport is Some)
    }

    /// The low half of the flag byte: the part that does not change in transit.
    pub open spec fn stable_flags(self) -> nat {
        4 * self.destination_type.bits() + self.packet_type.bits()
    }

    /// The flag byte.
    pub open spec fn flags(self) -> nat {
        128 * bit(self.ifac) + 64 * bit(self.header_type is Type2) + 32 * bit(self.context_flag)
            + 16 * bit(self.propagation is Transport) + self.stable_flags()
    }

    /// The transport field as it goes on the wire.
    pub open spec fn transport_field(self) -> Seq<u8> {
        match self.transport {
            Some(t) if self.header_type is Type2 => t@,
            None if self.header_type is Type2 => Seq::new(16, |i: int| 0u8),
            _ => Seq::empty(),
        }
    }

    /// The packet on the wire.
    pub open spec fn wire(self) -> Seq<u8> {
        seq![self.flags() as u8, self.hops] + self.transport_field() + self.destination@
            + seq![self.context] + self.payload
    }

    /// The bytes a packet is identified by: what does not change in transit.
    pub open spec fn identifying_bytes(self) -> Seq<u8> {
        seq![self.stable_flags() as u8] + self.destination@ + seq![self.context] + self.payload
    }
}

/// The header type that a flag byte announces.
pub open spec fn header_type_of(flags: u8) -> HeaderType {
    if flags as nat / 64 % 2 == 1 {
        HeaderType::Type2
    } else {
        HeaderType::Type1
    }
}

/// Whether `p` is the packet that `wire` carries.
pub open spec fn decodes_to(wire: Seq<u8>, p: PacketModel) -> bool {
    let header: int = if p.header_type is Type2 {
        HEADER_2_LEN as int
    } else {
        HEADER_1_LEN as int
    };
    &&& wire.len() >= header
    &&& p.well_formed()
    &&& p.wire() == wire
}

/// Whether `wire` is too short for the header that its flag byte announces.
pub open spec fn cut_short(wire: Seq<u8>) -> bool {
    ||| wire.len() < HEADER_1_LEN
    ||| header_type_of(wire[0]) is Type2 && wire.len() < HEADER_2_LEN
}

/// A flag byte is the sum of its fields.
proof fn lemma_flag_fields(flags: u8)
    by (bit_vector)
    ensures
        flags / 128 <= 1,
        flags == 128 * (flags / 128) + 64 * (flags / 64 % 2) + 32 * (flags / 32 % 2) + 16 * (flags
            / 16 % 2) + 4 * (flags / 4 % 4) + flags % 4,
{
}

impl Packet {
    /// The low half of the flag byte.
    pub fn stable_flags(&self) -> (flags: u8)
        ensures
            flags as nat == self@.stable_flags(),
            flags < 16,
    {
        4 * self.destination_type.to_bits() + self.packet_type.to_bits()
    }

    /// The packet as it goes on the wire.
    pub fn encode(&self) -> (out: Vec<u8>)
        ensures
            out@ == self@.wire(),
    {
        let mut flags: u8 = self.stable_flags();
        if let Propagation::Transport = self.propagation {
            flags = flags + 16;
        }
        if self.context_flag {
            flags = flags + 32;
        }
        if let HeaderType::Type2 = self.header_type {
            flags = flags + 64;
        }
        if self.ifac {
            flags = flags + 128;
        }
        let mut out: Vec<u8> = Vec::new();
        out.push(flags);
        out.push(self.hops);
        if let HeaderType::Type2 = self.header_type {
            match self.transport {
                Some(t) => out.extend_from_slice(t.as_slice()),
                None => out.extend_from_slice(&[0u8; 16]),
            }
        }
        out.extend_from_slice(self.destination.as_slice());
        out.push(self.context);
        out.extend_from_slice(&self.payload);
        assert(out@ =~= self@.wire());
        out
    }

    /// Read a packet off the wire.
    pub fn decode(wire: &[u8]) -> (packet: Result<Packet, Error>)
        ensures
            match packet {
                Ok(p) => decodes_to(wire@, p@),
                Err(e) => e == Error::Truncated && cut_short(wire@),
            },
            packet is Err <==> cut_short(wire@),
    {
        if wire.len() < HEADER_1_LEN {
            return Err(Error::Truncated);
        }
        let flags: u8 = wire[0];
        let second: bool = flags / 64 % 2 == 1;
        let header_type = if second {
            HeaderType::Type2
        } else {
            HeaderType::Type1
        };
        if second && wire.len() < HEADER_2_LEN {
            return Err(Error::Truncated);
        }
        let at: usize = if second {
            18
        } else {
            2
        };
        let transport = if second {
            Some(AddressHash(bytes::array_at::<16>(wire, 2)))
        } else {
            None
        };
        let packet = Packet {
            ifac: flags / 128 == 1,
            header_type,
            context_flag: flags / 32 % 2 == 1,
            propagation: if flags / 16 % 2 == 1 {
                Propagation::Transport
            } else {
                Propagation::Broadcast
            },
            destination_type: DestinationType::from_bits(flags / 4 % 4),
            packet_type: PacketType::from_bits(flags % 4),
            hops: wire[1],
            transport,
            destination: AddressHash(bytes::array_at::<16>(wire, at)),
            context: wire[at + 16],
            payload: bytes::copy_range(wire, at + 17, wire.len()),
        };
        proof {
            lemma_flag_fields(flags);
            assert(packet@.flags() == flags as nat);
            assert(packet@.transport_field() =~= wire@.subrange(2, at as int));
            assert(packet@.wire() =~= wire@);
        }
        Ok(packet)
    }

    /// The SHA-256 digest that identifies the packet, whatever route it took.
    pub fn full_hash(&self) -> (digest: [u8; 32])
        ensures
            digest@ == crypto::sha256(self@.identifying_bytes()),
    {
        let part = self.identifying_part();
        hash::full_hash(&part)
    }

    /// The truncated form of [`full_hash`](Self::full_hash).
    pub fn hash(&self) -> (digest: AddressHash)
        ensures
            digest@ == hash::address_of(self@.identifying_bytes()),
    {
        let part = self.identifying_part();
        AddressHash::of(&part)
    }

    fn identifying_part(&self) -> (part: Vec<u8>)
        ensures
            part@ == self@.identifying_bytes(),
    {
        let mut part: Vec<u8> = Vec::new();
        part.push(self.stable_flags());
        part.extend_from_slice(self.destination.as_slice());
        part.push(self.context);
        part.extend_from_slice(&self.payload);
        assert(part@ =~= self@.identifying_bytes());
        part
    }
}

/// A well-formed packet is the only one that its wire form decodes to.
pub proof fn law_packet_round_trip(p: PacketModel, q: PacketModel)
    requires
        p.well_formed(),
        decodes_to(p.wire(), q),
    ensures
        q == p,
{
    let w = p.wire();
    assert(w[0] == p.flags() as u8 && w[0] == q.flags() as u8);
    assert(w[1] == p.hops && w[1] == q.hops);
    assert(p.header_type == q.header_type);
    assert(p.destination_type.bits() == q.destination_type.bits());
    assert(p.packet_type.bits() == q.packet_type.bits());
    let at: int = if p.header_type is Type2 {
        18
    } else {
        2
    };
    assert(p.destination@ =~= w.subrange(at, at + 16));
    assert(q.destination@ =~= w.subrange(at, at + 16));
    hash::lemma_address_hash_ext(p.destination, q.destination);
    assert(w[at + 16] == p.context && w[at + 16] == q.context);
    assert(p.payload =~= w.subrange(at + 17, w.len() as int));
    assert(q.payload =~= w.subrange(at + 17, w.len() as int));
    if let (Some(t), Some(u)) = (p.transport, q.transport) {
        assert(t@ =~= w.subrange(2, 18));
        assert(u@ =~= w.subrange(2, 18));
        hash::lemma_address_hash_ext(t, u);
    }
}

/// Every packet decodes from its own wire form: encoding never gives bytes that are cut
/// short.
pub proof fn law_wire_form_decodes(p: PacketModel)
    requires
        p.well_formed(),
    ensures
        decodes_to(p.wire(), p),
        !cut_short(p.wire()),
{
}

/// What a packet is identified by does not depend on its route: hops, header type,
/// transport, and the other flags that change in transit leave it alone.
pub proof fn law_identity_ignores_the_route(p: PacketModel, q: PacketModel)
    requires
        p.destination_type == q.destination_type,
        p.packet_type == q.packet_type,
        p.destination == q.destination,
        p.context == q.context,
        p.payload == q.payload,
    ensures
        p.identifying_bytes() == q.identifying_bytes(),
{
}

/// Two packets that differ in anything but their route are told apart by what they are identified
/// by: every byte of the payload, the context, the destination and both types count.
pub proof fn law_identity_tells_packets_apart(p: PacketModel, q: PacketModel)
    requires
        p.identifying_bytes() == q.identifying_bytes(),
    ensures
        p.destination_type == q.destination_type,
        p.packet_type == q.packet_type,
        p.destination == q.destination,
        p.context == q.context,
        p.payload == q.payload,
{
    let a = p.identifying_bytes();
    let b = q.identifying_bytes();
    assert(a[0] == p.stable_flags() as u8 && b[0] == q.stable_flags() as u8);
    assert(p.destination_type.bits() == q.destination_type.bits());
    assert(p.packet_type.bits() == q.packet_type.bits());
    assert(a.subrange(1, 17) =~= p.destination@);
    assert(b.subrange(1, 17) =~= q.destination@);
    crate::hash::lemma_address_hash_ext(p.destination, q.destination);
    assert(a[17] == p.context && b[17] == q.context);
    assert(a.skip(18) =~= p.payload);
    assert(b.skip(18) =~= q.payload);
}

/// The fields of a packet stand where every receiver looks for them: the flags, the hops, the
/// transport node where there is one, the destination, the context, and the payload to its last
/// byte.
pub proof fn law_fields_have_their_places(p: PacketModel)
    requires
        p.well_formed(),
    ensures
        ({
            let w = p.wire();
            let at: int = if p.header_type is Type2 {
                18
            } else {
                2
            };
            &&& w.len() == at + 17 + p.payload.len()
            &&& (w[0] / 128 == 1) == p.ifac
            &&& (w[0] / 64 % 2 == 1) == (p.header_type is Type2)
            &&& (w[0] / 32 % 2 == 1) == p.context_flag
            &&& (w[0] / 16 % 2 == 1) == (p.propagation is Transport)
            &&& w[0] / 4 % 4 == match p.destination_type {
                DestinationType::Single => 0int,
                DestinationType::Group => 1,
                DestinationType::Plain => 2,
                DestinationType::Link => 3,
            }
            &&& w[0] % 4 == match p.packet_type {
                PacketType::Data => 0int,
                PacketType::Announce => 1,
                PacketType::LinkRequest => 2,
                PacketType::Proof => 3,
            }
            &&& w[1] == p.hops
            &&& p.transport matches Some(t) ==> w.subrange(2, 18) == t@
            &&& w.subrange(at, at + 16) == p.destination@
            &&& w[at + 16] == p.context
            &&& w.skip(at + 17) == p.payload
        }),
{
    let w = p.wire();
    let at: int = if p.header_type is Type2 {
        18
    } else {
        2
    };
    if let Some(t) = p.transport {
        assert(w.subrange(2, 18) =~= t@);
    }
    assert(w.subrange(at, at + 16) =~= p.destination@);
    assert(w.skip(at + 17) =~= p.payload);
    assert(w[0] == p.flags() as u8);
}

} // verus!
