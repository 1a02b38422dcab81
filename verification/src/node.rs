//! Small protocol-facing composition of transport and application layers.

use crate::application;
use crate::application::{ApplicationEnvelope, ApplicationError, TEXT_PORT};
use crate::transport;
use crate::transport::{ChannelKey, Header, Packet, TransportError};
use vstd::prelude::*;
use vstd::string::*;
use vstd::utf8;

verus! {

/// One configured encrypted channel.
#[derive(Clone, Copy, Debug, PartialEq, Eq)]
pub struct Channel {
    pub hash: u8,
    pub key: ChannelKey,
}

/// A text message received from one radio packet.
#[derive(Debug, PartialEq, Eq)]
pub struct ReceivedText {
    pub header: Header,
    pub text: String,
}

/// What a received text message says.
#[verifier::ext_equal]
pub struct ReceivedModel {
    pub header: Header,
    pub text: Seq<char>,
}

impl View for ReceivedText {
    type V = ReceivedModel;

    open spec fn view(&self) -> ReceivedModel {
        ReceivedModel { header: self.header, text: self.text@ }
    }
}

impl Clone for ReceivedText {
    fn clone(&self) -> (copy: Self)
        ensures
            copy@ == self@,
    {
        ReceivedText { header: self.header, text: self.text.clone() }
    }
}

/// Why a text packet could not be sealed or opened.
#[derive(Debug, Clone, Copy, PartialEq, Eq, Structural)]
pub enum NodeError {
    Transport(TransportError),
    Application(ApplicationError),
}

impl NodeError {
    /// The text of the error.
    pub open spec fn text(self) -> Seq<char> {
        match self {
            NodeError::Transport(error) => "transport: "@ + error.text(),
            NodeError::Application(error) => "application: "@ + error.text(),
        }
    }

    pub fn to_string(&self) -> (text: String)
        ensures
            text@ == self.text(),
    {
        match self {
            NodeError::Transport(error) => "transport: ".to_owned().concat(
                error.to_string().as_str(),
            ),
            NodeError::Application(error) => "application: ".to_owned().concat(
                error.to_string().as_str(),
            ),
        }
    }
}

impl Channel {
    /// The header that goes on the air: the channel hash is this channel's.
    pub open spec fn on_air(self, header: Header) -> Header {
        Header { channel_hash: self.hash, ..header }
    }

    /// The text that the decrypted `payload` of a packet with `header` carries, if it is text.
    pub open spec fn read(self, header: Header, payload: Seq<u8>) -> Result<
        Option<ReceivedModel>,
        NodeError,
    > {
        match application::fields(payload, application::blank()) {
            None => Err(NodeError::Application(ApplicationError::Malformed)),
            Some(envelope) => if envelope.port != TEXT_PORT {
                Ok(None)
            } else if !utf8::valid_utf8(envelope.payload) {
                Err(NodeError::Application(ApplicationError::NotText))
            } else {
                Ok(Some(ReceivedModel { header, text: utf8::decode_utf8(envelope.payload) }))
            },
        }
    }

    /// What a frame holds for this channel.
    pub open spec fn opened(self, frame: Seq<u8>) -> Result<Option<ReceivedModel>, NodeError> {
        if frame.len() < transport::HEADER_LEN {
            Err(NodeError::Transport(TransportError::Truncated))
        } else if frame.len() > transport::MAX_FRAME {
            Err(NodeError::Transport(TransportError::TooLong))
        } else {
            let header = transport::header_of(frame);
            if header.channel_hash != self.hash {
                Ok(None)
            } else {
                self.read(
                    header,
                    transport::ciphered(
                        self.key,
                        header,
                        frame.skip(transport::HEADER_LEN as int),
                    ),
                )
            }
        }
    }

    /// Construct, encrypt, and encode one text radio packet.
    ///
    /// The caller owns source identity and packet-id allocation. `channel_hash` is taken from
    /// this channel so the header and cipher configuration cannot drift apart. The frame opens
    /// to the same text.
    pub fn seal_text(&self, header: Header, text: &str) -> (frame: Result<Vec<u8>, NodeError>)
        ensures
            match frame {
                Ok(f) => {
                    let on_air = self.on_air(header);
                    &&& header.hops_fit()
                    &&& f@ == on_air.wire() + transport::ciphered(
                        self.key,
                        on_air,
                        application::text_wire(text@),
                    )
                    &&& f@.len() == transport::HEADER_LEN + application::text_wire(text@).len()
                    &&& f@.len() <= transport::MAX_FRAME
                    &&& self.opened(f@) == Ok::<_, NodeError>(
                        Some(ReceivedModel { header: on_air, text: text@ }),
                    )
                },
                Err(e) => {
                    ||| e == NodeError::Transport(TransportError::HopsOutOfRange)
                        && !header.hops_fit()
                    ||| e == NodeError::Transport(TransportError::TooLong) && header.hops_fit()
                        && transport::HEADER_LEN + application::text_wire(text@).len()
                        > transport::MAX_FRAME
                },
            },
    {
        let mut header: Header = header;
        header.channel_hash = self.hash;
        let ghost plain = application::text_wire(text@);
        let mut packet = Packet { header, payload: application::encode_text(text) };
        packet.apply_channel_cipher(&self.key);
        match packet.encode() {
            Ok(frame) => {
                proof {
                    transport::law_headers_round_trip(header, packet.payload@);
                    assert(utf8::encode_utf8(text@).len() <= plain.len());
                    application::law_text_round_trips(text@);
                }
                Ok(frame)
            },
            Err(e) => Err(NodeError::Transport(e)),
        }
    }

    /// Decode a text packet for this channel.
    ///
    /// `Ok(None)` means the channel hash or application port does not match. Channel packets
    /// carry no authenticated integrity check, so a malformed decrypted envelope remains an
    /// error rather than proof of a hostile peer.
    pub fn open_text(&self, frame: &[u8]) -> (received: Result<Option<ReceivedText>, NodeError>)
        ensures
            match received {
                Ok(Some(r)) => self.opened(frame@) == Ok::<_, NodeError>(Some(r@)),
                Ok(None) => self.opened(frame@) == Ok::<_, NodeError>(None::<ReceivedModel>),
                Err(e) => self.opened(frame@) == Err::<Option<ReceivedModel>, _>(e),
            },
    {
        let mut packet = match Packet::decode(frame) {
            Ok(packet) => packet,
            Err(e) => {
                return Err(NodeError::Transport(e));
            },
        };
        if packet.header.channel_hash != self.hash {
            return Ok(None);
        }
        packet.apply_channel_cipher(&self.key);
        self.read_text(packet.header, packet.payload.as_slice())
    }

    /// The text that a decrypted payload carries, if it is text.
    pub fn read_text(&self, header: Header, payload: &[u8]) -> (received: Result<
        Option<ReceivedText>,
        NodeError,
    >)
        ensures
            match received {
                Ok(Some(r)) => self.read(header, payload@) == Ok::<_, NodeError>(Some(r@)),
                Ok(None) => self.read(header, payload@) == Ok::<_, NodeError>(
                    None::<ReceivedModel>,
                ),
                Err(e) => self.read(header, payload@) == Err::<Option<ReceivedModel>, _>(e),
            },
    {
        let envelope = match ApplicationEnvelope::decode(payload) {
            Ok(envelope) => envelope,
            Err(e) => {
                return Err(NodeError::Application(e));
            },
        };
        if envelope.port != TEXT_PORT {
            return Ok(None);
        }
        match envelope.text() {
            Ok(text) => Ok(Some(ReceivedText { header, text })),
            Err(e) => Err(NodeError::Application(e)),
        }
    }
}

/// A frame for another channel is ignored before anything is decrypted: whatever its payload
/// holds, it opens to nothing.
pub proof fn law_other_channels_are_ignored(channel: Channel, frame: Seq<u8>)
    requires
        transport::HEADER_LEN <= frame.len() <= transport::MAX_FRAME,
        frame[13] != channel.hash,
    ensures
        channel.opened(frame) == Ok::<_, NodeError>(None::<ReceivedModel>),
{
}

/// A packet for another port of this channel is no text, whatever the port and whatever it
/// carries: it is passed over without an error.
pub proof fn law_other_ports_are_passed_over(
    channel: Channel,
    header: Header,
    port: u32,
    payload: Seq<u8>,
)
    requires
        port != 1,
        payload.len() <= u64::MAX,
    ensures
        channel.read(
            header,
            seq![0x08u8] + application::varint_wire(port as nat) + (seq![0x12u8]
                + application::varint_wire(payload.len()) + payload + Seq::<u8>::empty()),
        ) == Ok::<_, NodeError>(None::<ReceivedModel>),
{
    let rest = seq![0x12u8] + application::varint_wire(payload.len()) + payload
        + Seq::<u8>::empty();
    application::law_any_port_is_read(port, rest, application::blank());
    application::law_the_whole_payload_is_read(
        payload,
        Seq::empty(),
        application::EnvelopeModel { port, ..application::blank() },
    );
}

/// Text is read to its last character, with the header it came under.
pub proof fn law_text_is_read_whole(channel: Channel, header: Header, text: Seq<char>)
    requires
        utf8::encode_utf8(text).len() <= u64::MAX,
    ensures
        channel.read(header, application::text_wire(text)) == Ok::<_, NodeError>(
            Some(ReceivedModel { header, text }),
        ),
{
    application::law_text_round_trips(text);
}

/// A text packet whose bytes are no text is an error, and so is an envelope that cannot be read.
pub proof fn law_what_is_not_text_is_an_error(channel: Channel, header: Header, payload: Seq<u8>)
    requires
        payload.len() <= u64::MAX,
        !utf8::valid_utf8(payload),
    ensures
        channel.read(
            header,
            seq![0x08u8] + application::varint_wire(1) + (seq![0x12u8]
                + application::varint_wire(payload.len()) + payload + Seq::<u8>::empty()),
        ) == Err::<Option<ReceivedModel>, _>(NodeError::Application(ApplicationError::NotText)),
        channel.read(header, seq![0x08u8]) == Err::<Option<ReceivedModel>, _>(
            NodeError::Application(ApplicationError::Malformed),
        ),
{
    let rest = seq![0x12u8] + application::varint_wire(payload.len()) + payload
        + Seq::<u8>::empty();
    application::law_any_port_is_read(1, rest, application::blank());
    application::law_the_whole_payload_is_read(
        payload,
        Seq::empty(),
        application::EnvelopeModel { port: 1, ..application::blank() },
    );
    reveal_with_fuel(application::varint, 2);
    let s = seq![0x08u8];
    assert(s.skip(1) =~= Seq::<u8>::empty());
    assert(application::number(s) == Some((8nat, s.skip(1))));
    assert(application::after_field(s, application::blank()) is None);
}

} // verus!
