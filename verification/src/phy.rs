//! The direct-PHY radio's USB protocol: what a USB packet from the host asks of the radio, and
//! how the radio's answers and received frames are written back.
//!
//! The host sends text requests (`status`, `sync`) and binary commands: transmit
//! (`[tx] [len u16 LE] [frame]`) and configure (a fixed-length command). A command may arrive in
//! several USB packets and is collected until it is whole. The command and event codes belong to
//! the profile that both ends share.

use crate::bytes;
use vstd::prelude::*;

verus! {

/// Largest frame that the radio carries.
pub const MAX_RADIO_FRAME: usize = 255;

/// Largest USB packet.
pub const USB_PACKET: usize = 64;

/// Room for the longest command: three header bytes and a frame.
pub const COMMAND_ROOM: usize = 258;

/// The sync word of the mesh, in its one-byte form.
pub const MESHTASTIC_SYNC_WORD: u8 = 0x2b;

/// The command and event codes of a profile.
#[derive(Debug, Clone, Copy, PartialEq, Eq, Structural)]
pub struct Codes {
    /// Command: transmit a frame.
    pub cmd_tx: u8,
    /// Command: configure the radio.
    pub cmd_config: u8,
    /// Bytes of a configure command.
    pub config_len: usize,
    /// Event: a transmit was carried out or refused.
    pub event_tx: u8,
    /// Event: a configure was carried out or refused.
    pub event_config: u8,
    /// Event: a frame was received.
    pub event_rx: u8,
}

/// LoRa spreading factors.
#[derive(Debug, Clone, Copy, PartialEq, Eq, Structural)]
pub enum SpreadingFactor {
    Sf5,
    Sf6,
    Sf7,
    Sf8,
    Sf9,
    Sf10,
    Sf11,
    Sf12,
}

/// LoRa bandwidths, by their whole kilohertz.
#[derive(Debug, Clone, Copy, PartialEq, Eq, Structural)]
pub enum Bandwidth {
    Khz7,
    Khz10,
    Khz15,
    Khz20,
    Khz31,
    Khz41,
    Khz62,
    Khz125,
    Khz250,
    Khz500,
}

/// LoRa coding rates, `4/n`.
#[derive(Debug, Clone, Copy, PartialEq, Eq, Structural)]
pub enum CodingRate {
    Cr5,
    Cr6,
    Cr7,
    Cr8,
}

impl SpreadingFactor {
    /// The factor's number.
    pub open spec fn number(self) -> u8 {
        match self {
            SpreadingFactor::Sf5 => 5,
            SpreadingFactor::Sf6 => 6,
            SpreadingFactor::Sf7 => 7,
            SpreadingFactor::Sf8 => 8,
            SpreadingFactor::Sf9 => 9,
            SpreadingFactor::Sf10 => 10,
            SpreadingFactor::Sf11 => 11,
            SpreadingFactor::Sf12 => 12,
        }
    }
}

impl Bandwidth {
    /// The bandwidth in Hz.
    pub open spec fn hertz(self) -> u32 {
        match self {
            Bandwidth::Khz7 => 7_810,
            Bandwidth::Khz10 => 10_420,
            Bandwidth::Khz15 => 15_630,
            Bandwidth::Khz20 => 20_830,
            Bandwidth::Khz31 => 31_250,
            Bandwidth::Khz41 => 41_670,
            Bandwidth::Khz62 => 62_500,
            Bandwidth::Khz125 => 125_000,
            Bandwidth::Khz250 => 250_000,
            Bandwidth::Khz500 => 500_000,
        }
    }
}

impl CodingRate {
    /// The denominator.
    pub open spec fn denominator(self) -> u8 {
        match self {
            CodingRate::Cr5 => 5,
            CodingRate::Cr6 => 6,
            CodingRate::Cr7 => 7,
            CodingRate::Cr8 => 8,
        }
    }
}

/// The spreading factor of a number, if the radio has it: 5 to 12.
pub fn spreading_factor(value: u8) -> (factor: Option<SpreadingFactor>)
    ensures
        match factor {
            Some(f) => f.number() == value,
            None => !(5 <= value <= 12),
        },
{
    match value {
        5 => Some(SpreadingFactor::Sf5),
        6 => Some(SpreadingFactor::Sf6),
        7 => Some(SpreadingFactor::Sf7),
        8 => Some(SpreadingFactor::Sf8),
        9 => Some(SpreadingFactor::Sf9),
        10 => Some(SpreadingFactor::Sf10),
        11 => Some(SpreadingFactor::Sf11),
        12 => Some(SpreadingFactor::Sf12),
        _ => None,
    }
}

/// Whether the radio has a bandwidth of so many hertz.
pub open spec fn has_bandwidth(value: u32) -> bool {
    ||| value == 7_810
    ||| value == 10_420
    ||| value == 15_630
    ||| value == 20_830
    ||| value == 31_250
    ||| value == 41_670
    ||| value == 62_500
    ||| value == 125_000
    ||| value == 250_000
    ||| value == 500_000
}

/// The bandwidth of so many hertz, if the radio has it.
pub fn bandwidth(value: u32) -> (width: Option<Bandwidth>)
    ensures
        match width {
            Some(w) => has_bandwidth(value) && w.hertz() == value,
            None => !has_bandwidth(value),
        },
{
    match value {
        7_810 => Some(Bandwidth::Khz7),
        10_420 => Some(Bandwidth::Khz10),
        15_630 => Some(Bandwidth::Khz15),
        20_830 => Some(Bandwidth::Khz20),
        31_250 => Some(Bandwidth::Khz31),
        41_670 => Some(Bandwidth::Khz41),
        62_500 => Some(Bandwidth::Khz62),
        125_000 => Some(Bandwidth::Khz125),
        250_000 => Some(Bandwidth::Khz250),
        500_000 => Some(Bandwidth::Khz500),
        _ => None,
    }
}

/// The coding rate of a denominator, if the radio has it: 5 to 8.
pub fn coding_rate(value: u8) -> (rate: Option<CodingRate>)
    ensures
        match rate {
            Some(r) => r.denominator() == value,
            None => !(5 <= value <= 8),
        },
{
    match value {
        5 => Some(CodingRate::Cr5),
        6 => Some(CodingRate::Cr6),
        7 => Some(CodingRate::Cr7),
        8 => Some(CodingRate::Cr8),
        _ => None,
    }
}

/// The radio's two sync registers for a one-byte sync word: each nibble in the high half of a
/// register, with a low half of 4.
pub fn sx126x_sync_word(word: u8) -> (registers: [u8; 2])
    ensures
        registers@ == seq![
            (word / 16 * 16 + 4) as u8,
            (word % 16 * 16 + 4) as u8,
        ],
{
    let registers: [u8; 2] = [word / 16 * 16 + 4, word % 16 * 16 + 4];
    assert(registers@ =~= seq![(word / 16 * 16 + 4) as u8, (word % 16 * 16 + 4) as u8]);
    registers
}

/// `status`, with either line ending.
pub open spec fn asks_status(packet: Seq<u8>) -> bool {
    ||| packet == seq![0x73u8, 0x74, 0x61, 0x74, 0x75, 0x73, 0x0a]
    ||| packet == seq![0x73u8, 0x74, 0x61, 0x74, 0x75, 0x73, 0x0d, 0x0a]
}

/// `sync`, with either line ending.
pub open spec fn asks_sync(packet: Seq<u8>) -> bool {
    ||| packet == seq![0x73u8, 0x79, 0x6e, 0x63, 0x0a]
    ||| packet == seq![0x73u8, 0x79, 0x6e, 0x63, 0x0d, 0x0a]
}

/// Whether a packet asks for the status.
pub fn is_status(packet: &[u8]) -> (asks: bool)
    ensures
        asks == asks_status(packet@),
{
    let lf: [u8; 7] = [0x73, 0x74, 0x61, 0x74, 0x75, 0x73, 0x0a];
    let crlf: [u8; 8] = [0x73, 0x74, 0x61, 0x74, 0x75, 0x73, 0x0d, 0x0a];
    assert(lf@ =~= seq![0x73u8, 0x74, 0x61, 0x74, 0x75, 0x73, 0x0a]);
    assert(crlf@ =~= seq![0x73u8, 0x74, 0x61, 0x74, 0x75, 0x73, 0x0d, 0x0a]);
    bytes::same_bytes(packet, &lf) || bytes::same_bytes(packet, &crlf)
}

/// Whether a packet asks for the sync word.
pub fn is_sync(packet: &[u8]) -> (asks: bool)
    ensures
        asks == asks_sync(packet@),
{
    let lf: [u8; 5] = [0x73, 0x79, 0x6e, 0x63, 0x0a];
    let crlf: [u8; 6] = [0x73, 0x79, 0x6e, 0x63, 0x0d, 0x0a];
    assert(lf@ =~= seq![0x73u8, 0x79, 0x6e, 0x63, 0x0a]);
    assert(crlf@ =~= seq![0x73u8, 0x79, 0x6e, 0x63, 0x0d, 0x0a]);
    bytes::same_bytes(packet, &lf) || bytes::same_bytes(packet, &crlf)
}

/// What a USB packet asks for.
pub enum Request {
    /// Say that the radio is online.
    Status,
    /// Say which sync word is in force.
    Sync,
    /// Nothing yet: a command is not whole.
    Wait,
    /// A command longer than there is room for was dropped.
    Overflow,
    /// A command that the profile does not know was dropped.
    Unknown,
    /// A whole configure command.
    Configure(Vec<u8>),
    /// A frame to transmit.
    Transmit(Vec<u8>),
}

/// The mathematical content of a request.
#[verifier::ext_equal]
pub enum RequestModel {
    Status,
    Sync,
    Wait,
    Overflow,
    Unknown,
    Configure(Seq<u8>),
    Transmit(Seq<u8>),
}

impl View for Request {
    type V = RequestModel;

    open spec fn view(&self) -> RequestModel {
        match self {
            Request::Status => RequestModel::Status,
            Request::Sync => RequestModel::Sync,
            Request::Wait => RequestModel::Wait,
            Request::Overflow => RequestModel::Overflow,
            Request::Unknown => RequestModel::Unknown,
            Request::Configure(command) => RequestModel::Configure(command@),
            Request::Transmit(frame) => RequestModel::Transmit(frame@),
        }
    }
}

/// The frame length that a transmit command declares.
pub open spec fn declared(command: Seq<u8>) -> nat {
    bytes::le_value(command.subrange(1, 3))
}

/// What the bytes collected so far amount to: the request, and what stays collected. A transmit
/// command must bring its three header bytes in one packet.
pub open spec fn collected(codes: Codes, held: Seq<u8>) -> (Seq<u8>, RequestModel) {
    if held.len() == 0 {
        (held, RequestModel::Wait)
    } else if held[0] == codes.cmd_tx && held.len() >= 3 {
        if held.len() < 3 + declared(held) {
            (held, RequestModel::Wait)
        } else {
            (Seq::empty(), RequestModel::Transmit(held.subrange(3, 3 + declared(held) as int)))
        }
    } else if held[0] == codes.cmd_config {
        if held.len() < codes.config_len {
            (held, RequestModel::Wait)
        } else {
            (Seq::empty(), RequestModel::Configure(held.take(codes.config_len as int)))
        }
    } else {
        (Seq::empty(), RequestModel::Unknown)
    }
}

/// What a packet asks for on top of the bytes held, and what is held then.
pub open spec fn asked(codes: Codes, held: Seq<u8>, packet: Seq<u8>) -> (Seq<u8>, RequestModel) {
    if asks_status(packet) {
        (held, RequestModel::Status)
    } else if asks_sync(packet) {
        (held, RequestModel::Sync)
    } else if held.len() + packet.len() > COMMAND_ROOM {
        (Seq::empty(), RequestModel::Overflow)
    } else {
        collected(codes, held + packet)
    }
}

/// The command bytes collected from one USB connection.
pub struct Commands {
    codes: Codes,
    held: Vec<u8>,
}

impl View for Commands {
    type V = Seq<u8>;

    closed spec fn view(&self) -> Seq<u8> {
        self.held@
    }
}

impl Commands {
    /// The profile in use.
    pub closed spec fn codes(&self) -> Codes {
        self.codes
    }

    #[verifier::type_invariant]
    closed spec fn well_formed(&self) -> bool {
        self.held@.len() <= COMMAND_ROOM
    }

    /// Nothing collected: a fresh connection.
    pub fn new(codes: Codes) -> (commands: Self)
        ensures
            commands@ == Seq::<u8>::empty(),
            commands.codes() == codes,
    {
        Commands { codes, held: Vec::new() }
    }

    /// Take in one USB packet and say what it asks for.
    pub fn take(&mut self, packet: &[u8]) -> (request: Request)
        ensures
            (final(self)@, request@) == asked(old(self).codes(), old(self)@, packet@),
            final(self).codes() == old(self).codes(),
    {
        proof {
            use_type_invariant(&*self);
        }
        if is_status(packet) {
            return Request::Status;
        }
        if is_sync(packet) {
            return Request::Sync;
        }
        let mut held: Vec<u8> = Vec::new();
        if packet.len() > COMMAND_ROOM - self.held.len() {
            self.held = held;
            return Request::Overflow;
        }
        std::mem::swap(&mut held, &mut self.held);
        held.extend_from_slice(packet);
        assert(held@ =~= old(self)@ + packet@);
        let len: usize = held.len();
        if len == 0 {
            return Request::Wait;
        }
        if held[0] == self.codes.cmd_tx && len >= 3 {
            let field = vstd::slice::slice_subrange(held.as_slice(), 1, 3);
            let declared_len: u64 = bytes::read_le(field);
            proof {
                bytes::lemma_be_value_bound(field@.reverse());
                bytes::lemma_byte_spans();
            }
            let size: usize = declared_len as usize;
            if len < 3 + size {
                self.held = held;
                return Request::Wait;
            }
            return Request::Transmit(bytes::copy_range(held.as_slice(), 3, 3 + size));
        }
        if held[0] == self.codes.cmd_config {
            if len < self.codes.config_len {
                self.held = held;
                return Request::Wait;
            }
            let command = bytes::copy_range(held.as_slice(), 0, self.codes.config_len);
            assert(command@ =~= held@.take(self.codes.config_len as int));
            return Request::Configure(command);
        }
        Request::Unknown
    }
}

/// The two's-complement form of a signed number in two bytes.
pub open spec fn signed_wire(v: i16) -> Seq<u8> {
    bytes::le_bytes(
        if v >= 0 {
            v as nat
        } else {
            (0x1_0000 + v) as nat
        },
        2,
    )
}

fn push_signed(out: &mut Vec<u8>, v: i16)
    ensures
        final(out)@ == old(out)@ + signed_wire(v),
{
    let bits: u64 = if v >= 0 {
        v as u64
    } else {
        (0x1_0000 + v as i64) as u64
    };
    bytes::push_le(out, bits, 2);
}

/// The event for a received frame: its length, signal strength and signal-to-noise ratio, then
/// the frame.
pub fn rx_event(codes: &Codes, frame: &[u8], rssi: i16, snr: i16) -> (event: Vec<u8>)
    requires
        frame@.len() <= MAX_RADIO_FRAME,
    ensures
        event@ == seq![codes.event_rx] + bytes::le_bytes(frame@.len(), 2) + signed_wire(rssi)
            + signed_wire(snr) + frame@,
{
    let mut event: Vec<u8> = Vec::new();
    event.push(codes.event_rx);
    bytes::push_le(&mut event, frame.len() as u64, 2);
    push_signed(&mut event, rssi);
    push_signed(&mut event, snr);
    event.extend_from_slice(frame);
    assert(event@ =~= seq![codes.event_rx] + bytes::le_bytes(frame@.len(), 2) + signed_wire(rssi)
        + signed_wire(snr) + frame@);
    event
}

/// Why a transmit command was refused.
#[derive(Debug, Clone, Copy, PartialEq, Eq, Structural)]
pub enum TxRefusal {
    /// The radio failed to send.
    Radio,
    /// The command outgrew the room for it.
    Overflow,
    /// The command is not known.
    Unknown,
}

/// The result byte of a transmit event.
pub open spec fn tx_code(refusal: Option<TxRefusal>) -> u8 {
    match refusal {
        None => 0,
        Some(TxRefusal::Radio) => 1,
        Some(TxRefusal::Overflow) => 2,
        Some(TxRefusal::Unknown) => 3,
    }
}

/// The event that answers a transmit command: a result byte and the length that was to be sent
/// (zero where no frame was taken).
pub fn tx_event(codes: &Codes, refusal: Option<TxRefusal>, sent_len: u16) -> (event: Vec<u8>)
    ensures
        event@ == seq![codes.event_tx, tx_code(refusal)] + bytes::le_bytes(sent_len as nat, 2),
{
    let code: u8 = match refusal {
        None => 0,
        Some(TxRefusal::Radio) => 1,
        Some(TxRefusal::Overflow) => 2,
        Some(TxRefusal::Unknown) => 3,
    };
    let mut event: Vec<u8> = Vec::new();
    event.push(codes.event_tx);
    event.push(code);
    bytes::push_le(&mut event, sent_len as u64, 2);
    assert(event@ =~= seq![codes.event_tx, tx_code(refusal)] + bytes::le_bytes(
        sent_len as nat,
        2,
    ));
    event
}

/// How far a configure command got.
#[derive(Debug, Clone, Copy, PartialEq, Eq, Structural)]
pub enum ConfigOutcome {
    /// The radio runs the new profile.
    Applied,
    /// The command did not decode.
    Undecodable,
    /// The radio has no such settings.
    Unsupported,
    /// The radio did not take the sync word.
    Radio,
}

/// The result byte of a configure event.
pub open spec fn config_code(outcome: ConfigOutcome) -> u8 {
    match outcome {
        ConfigOutcome::Applied => 0,
        ConfigOutcome::Undecodable => 1,
        ConfigOutcome::Unsupported => 2,
        ConfigOutcome::Radio => 3,
    }
}

/// The event that answers a configure command.
pub fn config_event(codes: &Codes, outcome: ConfigOutcome) -> (event: Vec<u8>)
    ensures
        event@ == seq![codes.event_config, config_code(outcome)],
{
    let code: u8 = match outcome {
        ConfigOutcome::Applied => 0,
        ConfigOutcome::Undecodable => 1,
        ConfigOutcome::Unsupported => 2,
        ConfigOutcome::Radio => 3,
    };
    let mut event: Vec<u8> = Vec::new();
    event.push(codes.event_config);
    event.push(code);
    assert(event@ =~= seq![codes.event_config, config_code(outcome)]);
    event
}

/// What a configure command carries.
#[derive(Debug, Clone, Copy, PartialEq, Eq, Structural)]
pub struct Profile {
    pub frequency_hz: u32,
    pub spreading_factor: u8,
    pub bandwidth_hz: u32,
    pub coding_rate_denominator: u8,
    pub preamble_symbols: u16,
    pub explicit_header: bool,
    pub crc: bool,
    pub invert_iq: bool,
    pub sync_word: u8,
    pub tx_power_dbm: i8,
}

impl Profile {
    /// The radio settings of a profile, if the radio has all three.
    pub fn settings(&self) -> (settings: Option<(SpreadingFactor, Bandwidth, CodingRate)>)
        ensures
            match settings {
                Some((sf, bw, cr)) => sf.number() == self.spreading_factor && bw.hertz()
                    == self.bandwidth_hz && cr.denominator() == self.coding_rate_denominator,
                None => !(5 <= self.spreading_factor <= 12 && has_bandwidth(self.bandwidth_hz)
                    && 5 <= self.coding_rate_denominator <= 8),
            },
    {
        match (
            spreading_factor(self.spreading_factor),
            bandwidth(self.bandwidth_hz),
            coding_rate(self.coding_rate_denominator),
        ) {
            (Some(sf), Some(bw), Some(cr)) => Some((sf, bw, cr)),
            _ => None,
        }
    }
}

/// A frame handed to the radio always fits it: there is no room to collect a longer one.
pub proof fn law_frames_fit_the_radio(codes: Codes, held: Seq<u8>, packet: Seq<u8>)
    ensures
        asked(codes, held, packet).1 matches RequestModel::Transmit(frame) ==> frame.len()
            <= MAX_RADIO_FRAME,
{
}

/// A command may come in several packets: once its header is in, what it amounts to depends only
/// on the bytes, not on how they were cut. Text requests aside, two packets ask what one with all
/// their bytes would.
pub proof fn law_packets_may_be_split(codes: Codes, held: Seq<u8>, a: Seq<u8>, b: Seq<u8>)
    requires
        !asks_status(a),
        !asks_sync(a),
        !asks_status(b),
        !asks_sync(b),
        !asks_status(a + b),
        !asks_sync(a + b),
        asked(codes, held, a).1 is Wait,
    ensures
        asked(codes, asked(codes, held, a).0, b) == asked(codes, held, a + b),
{
    let first = asked(codes, held, a).0;
    assert(first =~= held + a);
    assert(first + b =~= held + (a + b));
}

/// Nothing is held beyond the room for one command.
pub proof fn law_held_bytes_are_bounded(codes: Codes, held: Seq<u8>, packet: Seq<u8>)
    requires
        held.len() <= COMMAND_ROOM,
    ensures
        asked(codes, held, packet).0.len() <= COMMAND_ROOM,
{
}

/// A transmit command is carried out whole: the frame handed to the radio is every byte that the
/// command declares, of any length that the radio takes, and nothing stays held.
pub proof fn law_transmit_commands_carry_the_whole_frame(
    codes: Codes,
    frame: Seq<u8>,
    after: Seq<u8>,
)
    requires
        3 + frame.len() + after.len() <= 258,
        ({
            let packet = seq![codes.cmd_tx] + bytes::le_bytes(frame.len(), 2) + frame + after;
            !asks_status(packet) && !asks_sync(packet)
        }),
    ensures
        ({
            let packet = seq![codes.cmd_tx] + bytes::le_bytes(frame.len(), 2) + frame + after;
            asked(codes, Seq::empty(), packet) == (
                Seq::<u8>::empty(),
                RequestModel::Transmit(frame),
            )
        }),
{
    let packet = seq![codes.cmd_tx] + bytes::le_bytes(frame.len(), 2) + frame + after;
    bytes::lemma_byte_spans();
    bytes::lemma_le_bytes_len(frame.len(), 2);
    bytes::lemma_le_round_trip(frame.len(), 2);
    assert(Seq::<u8>::empty() + packet =~= packet);
    assert(packet.subrange(1, 3) =~= bytes::le_bytes(frame.len(), 2));
    assert(packet.subrange(3, 3 + frame.len() as int) =~= frame);
}

/// A configure command is carried out whole, once as many bytes are in as the profile has; until
/// then they are held.
pub proof fn law_configure_commands_are_carried_whole(codes: Codes, command: Seq<u8>)
    requires
        0 < command.len() <= 258,
        command[0] == codes.cmd_config,
        codes.cmd_config != codes.cmd_tx,
        !asks_status(command),
        !asks_sync(command),
    ensures
        command.len() == codes.config_len ==> asked(codes, Seq::empty(), command) == (
            Seq::<u8>::empty(),
            RequestModel::Configure(command),
        ),
        command.len() < codes.config_len ==> asked(codes, Seq::empty(), command) == (
            command,
            RequestModel::Wait,
        ),
{
    assert(Seq::<u8>::empty() + command =~= command);
    assert(command.take(command.len() as int) =~= command);
}

/// A signed number goes out in two's complement: what two bytes spell is the number, or the number
/// and 65536 where it is negative.
pub proof fn law_signed_numbers_are_spelled_in_twos_complement(v: i16)
    ensures
        signed_wire(v).len() == 2,
        v >= 0 ==> bytes::le_value(signed_wire(v)) == v,
        v < 0 ==> bytes::le_value(signed_wire(v)) == 0x1_0000 + v,
{
    let raw = if v >= 0 {
        v as nat
    } else {
        (0x1_0000 + v) as nat
    };
    bytes::lemma_byte_spans();
    bytes::lemma_le_bytes_len(raw, 2);
    bytes::lemma_le_round_trip(raw, 2);
}

} // verus!
