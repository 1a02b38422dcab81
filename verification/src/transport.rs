//! The radio packet of the LoRa mesh: a 16-byte header in the clear and a payload under the
//! channel's counter-mode cipher.
//!
//! ```text
//! [destination u32 LE] [source u32 LE] [packet id u32 LE] [flags] [channel hash] [next hop] [relay]
//! ```
//!
//! The flags hold the hop limit (bits 0..3), want-ack (bit 3), via-MQTT (bit 4) and the hop limit
//! that the packet started with (bits 5..8).

use crate::bytes;
use crate::crypto;
use vstd::prelude::*;
use vstd::slice::slice_subrange;
use vstd::string::*;

verus! {

/// The destination that addresses every node.
pub const BROADCAST_DESTINATION: u32 = 0xffff_ffff;

/// Bytes of the header.
pub const HEADER_LEN: usize = 16;

/// Largest frame that the radio carries: its length field is one byte.
pub const MAX_FRAME: usize = 255;

/// Largest hop count that the flags can hold.
pub const MAX_HOP: u8 = 7;

/// Why a packet could not be encoded or decoded.
#[derive(Debug, Clone, Copy, PartialEq, Eq, Structural)]
pub enum TransportError {
    /// Shorter than a header.
    Truncated,
    /// Longer than the radio carries.
    TooLong,
    /// A hop count that the flags cannot hold.
    HopsOutOfRange,
}

impl TransportError {
    /// The text of the error.
    pub open spec fn text(self) -> Seq<char> {
        match self {
            TransportError::Truncated => "frame is shorter than its header"@,
            TransportError::TooLong => "frame is longer than the radio carries"@,
            TransportError::HopsOutOfRange => "hop count does not fit the header"@,
        }
    }

    pub fn to_string(&self) -> (text: String)
        ensures
            text@ == self.text(),
    {
        match self {
            TransportError::Truncated => "frame is shorter than its header".to_owned(),
            TransportError::TooLong => "frame is longer than the radio carries".to_owned(),
            TransportError::HopsOutOfRange => "hop count does not fit the header".to_owned(),
        }
    }
}

/// The key of a channel.
#[derive(Debug, Clone, Copy, PartialEq, Eq)]
pub enum ChannelKey {
    Aes128([u8; 16]),
    Aes256([u8; 32]),
}

/// The clear part of a packet.
#[derive(Debug, Clone, Copy, PartialEq, Eq, Structural)]
pub struct Header {
    pub destination: u32,
    pub source: u32,
    pub packet_id: u32,
    pub hop_limit: u8,
    pub want_ack: bool,
    pub via_mqtt: bool,
    pub hop_start: u8,
    pub channel_hash: u8,
    pub next_hop: u8,
    pub relay_node: u8,
}

/// One radio packet.
#[derive(Debug, PartialEq, Eq)]
pub struct Packet {
    pub header: Header,
    pub payload: Vec<u8>,
}

impl Header {
    /// Whether both hop counts fit.
    pub open spec fn hops_fit(self) -> bool {
        self.hop_limit <= MAX_HOP && self.hop_start <= MAX_HOP
    }

    /// The flags byte.
    pub open spec fn flags(self) -> int {
        self.hop_limit + (if self.want_ack {
            8int
        } else {
            0
        }) + (if self.via_mqtt {
            16int
        } else {
            0
        }) + 32 * self.hop_start
    }

    /// The 16 header bytes.
    pub open spec fn wire(self) -> Seq<u8> {
        bytes::le_bytes(self.destination as nat, 4) + bytes::le_bytes(self.source as nat, 4)
            + bytes::le_bytes(self.packet_id as nat, 4) + seq![
            self.flags() as u8,
            self.channel_hash,
            self.next_hop,
            self.relay_node,
        ]
    }

    /// The initial counter block of the cipher: the packet id in eight bytes, the source in
    /// four, and a block count of zero.
    pub open spec fn counter(self) -> Seq<u8> {
        bytes::le_bytes(self.packet_id as nat, 8) + bytes::le_bytes(self.source as nat, 4)
            + bytes::le_bytes(0, 4)
    }

    fn counter_block(&self) -> (counter: [u8; 16])
        ensures
            counter@ == self.counter(),
    {
        let mut block: Vec<u8> = Vec::new();
        bytes::push_le(&mut block, self.packet_id as u64, 8);
        bytes::push_le(&mut block, self.source as u64, 4);
        bytes::push_le(&mut block, 0, 4);
        proof {
            bytes::lemma_le_bytes_len(self.packet_id as nat, 8);
            bytes::lemma_le_bytes_len(self.source as nat, 4);
            bytes::lemma_le_bytes_len(0, 4);
            assert(block@ =~= self.counter());
        }
        let counter: [u8; 16] = bytes::array_at::<16>(block.as_slice(), 0);
        assert(counter@ =~= self.counter());
        counter
    }
}

/// `data` under the keystream of `key` for the packet with `header`.
pub open spec fn ciphered(key: ChannelKey, header: Header, data: Seq<u8>) -> Seq<u8> {
    match key {
        ChannelKey::Aes128(k) => crypto::aes128_ctr_applied(k@, header.counter(), data),
        ChannelKey::Aes256(k) => crypto::aes256_ctr_applied(k@, header.counter(), data),
    }
}

/// The header that 16 bytes spell.
pub open spec fn header_of(s: Seq<u8>) -> Header {
    Header {
        destination: bytes::le_value(s.subrange(0, 4)) as u32,
        source: bytes::le_value(s.subrange(4, 8)) as u32,
        packet_id: bytes::le_value(s.subrange(8, 12)) as u32,
        hop_limit: s[12] % 8,
        want_ack: s[12] / 8 % 2 == 1,
        via_mqtt: s[12] / 16 % 2 == 1,
        hop_start: s[12] / 32,
        channel_hash: s[13],
        next_hop: s[14],
        relay_node: s[15],
    }
}

fn read_u32(s: &[u8], at: usize) -> (v: u32)
    requires
        at + 4 <= s@.len(),
    ensures
        v == bytes::le_value(s@.subrange(at as int, at + 4)) as u32,
{
    let _len: usize = s.len();
    let field = slice_subrange(s, at, at + 4);
    let v: u64 = bytes::read_le(field);
    proof {
        bytes::lemma_be_value_bound(field@.reverse());
        bytes::lemma_byte_spans();
    }
    v as u32
}

impl Packet {
    /// Encode the packet. The hop counts must fit the flags and the whole must fit one radio
    /// frame.
    pub fn encode(&self) -> (frame: Result<Vec<u8>, TransportError>)
        ensures
            match frame {
                Ok(f) => self.header.hops_fit() && f@ == self.header.wire() + self.payload@
                    && f@.len() <= MAX_FRAME,
                Err(TransportError::HopsOutOfRange) => !self.header.hops_fit(),
                Err(TransportError::TooLong) => self.header.hops_fit() && HEADER_LEN
                    + self.payload@.len() > MAX_FRAME,
                Err(TransportError::Truncated) => false,
            },
    {
        let h: Header = self.header;
        if h.hop_limit > MAX_HOP || h.hop_start > MAX_HOP {
            return Err(TransportError::HopsOutOfRange);
        }
        if self.payload.len() > MAX_FRAME - HEADER_LEN {
            return Err(TransportError::TooLong);
        }
        let flags: u8 = h.hop_limit + (if h.want_ack {
            8u8
        } else {
            0
        }) + (if h.via_mqtt {
            16u8
        } else {
            0
        }) + 32 * h.hop_start;
        let mut frame: Vec<u8> = Vec::new();
        bytes::push_le(&mut frame, h.destination as u64, 4);
        bytes::push_le(&mut frame, h.source as u64, 4);
        bytes::push_le(&mut frame, h.packet_id as u64, 4);
        frame.push(flags);
        frame.push(h.channel_hash);
        frame.push(h.next_hop);
        frame.push(h.relay_node);
        assert(frame@ =~= h.wire());
        frame.extend_from_slice(self.payload.as_slice());
        proof {
            bytes::lemma_le_bytes_len(h.destination as nat, 4);
            bytes::lemma_le_bytes_len(h.source as nat, 4);
            bytes::lemma_le_bytes_len(h.packet_id as nat, 4);
            assert(frame@ =~= h.wire() + self.payload@);
        }
        Ok(frame)
    }

    /// Decode one radio frame.
    pub fn decode(frame: &[u8]) -> (packet: Result<Packet, TransportError>)
        ensures
            match packet {
                Ok(p) => HEADER_LEN <= frame@.len() <= MAX_FRAME && p.header == header_of(frame@)
                    && p.payload@ == frame@.skip(HEADER_LEN as int),
                Err(TransportError::Truncated) => frame@.len() < HEADER_LEN,
                Err(TransportError::TooLong) => frame@.len() > MAX_FRAME,
                Err(TransportError::HopsOutOfRange) => false,
            },
    {
        let len: usize = frame.len();
        if len < HEADER_LEN {
            return Err(TransportError::Truncated);
        }
        if len > MAX_FRAME {
            return Err(TransportError::TooLong);
        }
        let flags: u8 = frame[12];
        let header = Header {
            destination: read_u32(frame, 0),
            source: read_u32(frame, 4),
            packet_id: read_u32(frame, 8),
            hop_limit: flags % 8,
            want_ack: flags / 8 % 2 == 1,
            via_mqtt: flags / 16 % 2 == 1,
            hop_start: flags / 32,
            channel_hash: frame[13],
            next_hop: frame[14],
            relay_node: frame[15],
        };
        let payload = bytes::copy_range(frame, HEADER_LEN, len);
        assert(payload@ =~= frame@.skip(16));
        Ok(Packet { header, payload })
    }

    /// Put the payload under the channel's keystream. Doing so twice gives the payload back.
    pub fn apply_channel_cipher(&mut self, key: &ChannelKey)
        ensures
            final(self).header == old(self).header,
            final(self).payload@ == ciphered(*key, old(self).header, old(self).payload@),
            final(self).payload@.len() == old(self).payload@.len(),
            ciphered(*key, old(self).header, final(self).payload@) == old(self).payload@,
    {
        let counter: [u8; 16] = self.header.counter_block();
        self.payload = match key {
            ChannelKey::Aes128(k) => crypto::aes128_ctr_apply(k, &counter, self.payload.as_slice()),
            ChannelKey::Aes256(k) => crypto::aes256_ctr_apply(k, &counter, self.payload.as_slice()),
        };
    }
}

/// A header whose hop counts fit is read back from its bytes, whatever follows them.
pub proof fn law_headers_round_trip(header: Header, payload: Seq<u8>)
    requires
        header.hops_fit(),
    ensures
        header.wire().len() == HEADER_LEN,
        header_of(header.wire() + payload) == header,
        (header.wire() + payload).skip(HEADER_LEN as int) == payload,
{
    let s = header.wire() + payload;
    bytes::lemma_le_bytes_len(header.destination as nat, 4);
    bytes::lemma_le_bytes_len(header.source as nat, 4);
    bytes::lemma_le_bytes_len(header.packet_id as nat, 4);
    bytes::lemma_byte_spans();
    bytes::lemma_le_round_trip(header.destination as nat, 4);
    bytes::lemma_le_round_trip(header.source as nat, 4);
    bytes::lemma_le_round_trip(header.packet_id as nat, 4);
    assert(s.subrange(0, 4) =~= bytes::le_bytes(header.destination as nat, 4));
    assert(s.subrange(4, 8) =~= bytes::le_bytes(header.source as nat, 4));
    assert(s.subrange(8, 12) =~= bytes::le_bytes(header.packet_id as nat, 4));
    assert(s.skip(16) =~= payload);
    let flags = header.flags();
    assert(s[12] == flags as u8);
    assert(0 <= flags < 256);
}

/// The hop counts of a decoded header always fit, so it can be encoded again.
pub proof fn law_decoded_hops_fit(frame: Seq<u8>)
    requires
        frame.len() >= HEADER_LEN,
    ensures
        header_of(frame).hops_fit(),
{
}

/// The header's fields stand where every receiver looks for them.
pub proof fn law_header_fields_have_their_places(header: Header)
    requires
        header.hop_limit <= 7,
        header.hop_start <= 7,
    ensures
        ({
            let s = header.wire();
            &&& s.len() == 16
            &&& bytes::le_value(s.subrange(0, 4)) == header.destination
            &&& bytes::le_value(s.subrange(4, 8)) == header.source
            &&& bytes::le_value(s.subrange(8, 12)) == header.packet_id
            &&& s[12] % 8 == header.hop_limit
            &&& (s[12] / 8 % 2 == 1) == header.want_ack
            &&& (s[12] / 16 % 2 == 1) == header.via_mqtt
            &&& s[12] / 32 == header.hop_start
            &&& s[13] == header.channel_hash
            &&& s[14] == header.next_hop
            &&& s[15] == header.relay_node
        }),
{
    law_headers_round_trip(header, Seq::empty());
    let s = header.wire();
    assert(s + Seq::<u8>::empty() =~= s);
    bytes::lemma_le_bytes_len(header.destination as nat, 4);
    bytes::lemma_le_bytes_len(header.source as nat, 4);
    bytes::lemma_le_bytes_len(header.packet_id as nat, 4);
    bytes::lemma_byte_spans();
    bytes::lemma_le_round_trip(header.destination as nat, 4);
    bytes::lemma_le_round_trip(header.source as nat, 4);
    bytes::lemma_le_round_trip(header.packet_id as nat, 4);
    assert(s.subrange(0, 4) =~= bytes::le_bytes(header.destination as nat, 4));
    assert(s.subrange(4, 8) =~= bytes::le_bytes(header.source as nat, 4));
    assert(s.subrange(8, 12) =~= bytes::le_bytes(header.packet_id as nat, 4));
}

/// No two packets share a keystream: the counter starts at a block of its own for each packet id
/// and source, with the last four bytes left to count in.
pub proof fn law_counters_tell_packets_apart(a: Header, b: Header)
    ensures
        a.counter().len() == 16,
        forall|i: int| 12 <= i < 16 ==> #[trigger] a.counter()[i] == 0,
        a.counter() == b.counter() <==> a.packet_id == b.packet_id && a.source == b.source,
{
    lemma_counter(a);
    lemma_counter(b);
}

proof fn lemma_counter(h: Header)
    ensures
        h.counter().len() == 16,
        bytes::le_value(h.counter().subrange(0, 8)) == h.packet_id,
        bytes::le_value(h.counter().subrange(8, 12)) == h.source,
        forall|i: int| 12 <= i < 16 ==> #[trigger] h.counter()[i] == 0,
{
    let s = h.counter();
    bytes::lemma_le_bytes_len(h.packet_id as nat, 8);
    bytes::lemma_le_bytes_len(h.source as nat, 4);
    bytes::lemma_le_bytes_len(0, 4);
    bytes::lemma_byte_spans();
    bytes::lemma_le_round_trip(h.packet_id as nat, 8);
    bytes::lemma_le_round_trip(h.source as nat, 4);
    assert(s.subrange(0, 8) =~= bytes::le_bytes(h.packet_id as nat, 8));
    assert(s.subrange(8, 12) =~= bytes::le_bytes(h.source as nat, 4));
    let z = bytes::le_bytes(0, 4);
    reveal_with_fuel(bytes::be_bytes, 5);
    assert forall|i: int| 12 <= i < 16 implies #[trigger] s[i] == 0 by {
        assert(s[i] == z[i - 12]);
    }
}

/// The whole payload goes under the keystream of the channel's key, from the counter block that is
/// the packet id in eight bytes, the source in four, and four noughts.
pub proof fn law_the_whole_payload_is_ciphered(key: ChannelKey, header: Header, data: Seq<u8>)
    ensures
        ({
            let block = bytes::le_bytes(header.packet_id as nat, 8) + bytes::le_bytes(
                header.source as nat,
                4,
            ) + seq![0u8, 0u8, 0u8, 0u8];
            ciphered(key, header, data) == match key {
                ChannelKey::Aes128(k) => crypto::aes128_ctr_applied(k@, block, data),
                ChannelKey::Aes256(k) => crypto::aes256_ctr_applied(k@, block, data),
            }
        }),
{
    lemma_counter(header);
    let block = bytes::le_bytes(header.packet_id as nat, 8) + bytes::le_bytes(
        header.source as nat,
        4,
    ) + seq![0u8, 0u8, 0u8, 0u8];
    let s = header.counter();
    bytes::lemma_le_bytes_len(header.packet_id as nat, 8);
    bytes::lemma_le_bytes_len(header.source as nat, 4);
    assert forall|i: int| 0 <= i < 16 implies s[i] == block[i] by {
        if i >= 12 {
            assert(s[i] == 0);
        }
    }
    assert(s =~= block);
}

} // verus!
