//! The `Modem` trait: the seam every radio backend plugs into, beneath the endpoint and the mesh
//! modules.
//!
//! It is sans-io and sync (poll-based): the framing layer is a pure state machine and only the
//! pump task touches sockets and the clock. A modem never blocks, sleeps, or `await`s: a pump
//! enqueues frames and drains events, and owns timing, scheduling, and the duty-cycle gate
//! ([`crate::airtime`]). The trait is object-safe, so a set of heterogeneous radios (an RNode
//! over serial, a direct SX126x over SPI, a deterministic simulator) can be held as
//! `Box<dyn Modem>`.
//!
//! A LoRa PHY frame maxes out well below the 500-byte packet MTU (a one-byte length field caps it
//! near 255, and an RNode or link cap may be lower), so a single packet will not always fit one
//! transmission. [`Modem::max_frame_len`] is where the pump learns the cap so it can fragment or
//! advertise a reduced MTU to the endpoint.

use crate::bytes;
use crate::lora;
use crate::lora::LoRaParams;
use crate::text;
use crate::text::decimal;
use core::time::Duration;
use vstd::prelude::*;
use vstd::string::*;

verus! {

/// One event a modem surfaces when polled.
#[derive(Debug)]
pub enum ModemEvent {
    /// A frame was demodulated, with its link-quality metrics. The SNR is in quarters of a
    /// decibel, the step in which LoRa radios measure it.
    Received { frame: Vec<u8>, rssi_dbm: i16, snr_quarter_db: i16 },
    /// The in-flight transmission finished; `airtime` is what it actually occupied.
    TxDone { airtime: Duration },
    /// Carrier or preamble detected: half-duplex, so the caller must hold off transmitting.
    ChannelBusy,
    /// The channel returned to idle.
    ChannelClear,
}

impl Clone for ModemEvent {
    fn clone(&self) -> (copy: Self)
        ensures
            match (*self, copy) {
                (
                    ModemEvent::Received { frame, rssi_dbm, snr_quarter_db },
                    ModemEvent::Received { frame: f, rssi_dbm: r, snr_quarter_db: s },
                ) => f@ == frame@ && r == rssi_dbm && s == snr_quarter_db,
                (ModemEvent::TxDone { airtime }, ModemEvent::TxDone { airtime: a }) => a == airtime,
                (ModemEvent::ChannelBusy, ModemEvent::ChannelBusy) => true,
                (ModemEvent::ChannelClear, ModemEvent::ChannelClear) => true,
                _ => false,
            },
    {
        match self {
            ModemEvent::Received { frame, rssi_dbm, snr_quarter_db } => ModemEvent::Received {
                frame: bytes::copy_all(frame.as_slice()),
                rssi_dbm: *rssi_dbm,
                snr_quarter_db: *snr_quarter_db,
            },
            ModemEvent::TxDone { airtime } => ModemEvent::TxDone { airtime: *airtime },
            ModemEvent::ChannelBusy => ModemEvent::ChannelBusy,
            ModemEvent::ChannelClear => ModemEvent::ChannelClear,
        }
    }
}

/// A modem error.
#[derive(Debug)]
pub enum ModemError {
    /// Half-duplex conflict or a full transmit queue: retry once the channel clears.
    Busy,
    /// The frame exceeds the PHY (or negotiated) limit. The pump must fragment below `max`.
    TooLong { max: usize },
    /// A parameter set the hardware cannot honor (an invalid SF/BW combination, an out-of-band
    /// frequency).
    Unsupported,
    /// An underlying serial/SPI transport fault, in its own words.
    Transport(String),
}

impl ModemError {
    /// The text of the error.
    pub open spec fn text(self) -> Seq<char> {
        match self {
            ModemError::Busy => "modem busy"@,
            ModemError::TooLong { max } => "frame exceeds max length "@ + text::decimal_text(
                max as nat,
            ),
            ModemError::Unsupported => "unsupported parameters"@,
            ModemError::Transport(fault) => "transport error: "@ + fault@,
        }
    }

    pub fn to_string(&self) -> (text: String)
        ensures
            text@ == self.text(),
    {
        match self {
            ModemError::Busy => "modem busy".to_owned(),
            ModemError::TooLong { max } => "frame exceeds max length ".to_owned().concat(
                decimal(*max as u64).as_str(),
            ),
            ModemError::Unsupported => "unsupported parameters".to_owned(),
            ModemError::Transport(fault) => "transport error: ".to_owned().concat(fault.as_str()),
        }
    }
}

/// A LoRa modem: sans-io, sync, object-safe. The caller drives it — enqueue a frame, poll for
/// events — and owns the clock, so airtime and duty-cycle enforcement live in the pump.
pub trait Modem {
    /// The PHY parameters currently in force: for airtime accounting, duty-cycle keying, and
    /// channel identity. `LoRaParams` is `Copy`, so this returns by value.
    fn params(&self) -> LoRaParams;

    /// Retune or change modulation (a channel hop, an ADR step). Applies to subsequent
    /// transmissions and to reception.
    fn set_params(&mut self, params: LoRaParams) -> Result<(), ModemError>;

    /// The largest PHY frame this modem accepts. The pump fragments packets to fit.
    fn max_frame_len(&self) -> usize;

    /// Queue one frame for transmission. Non-blocking: returns the airtime it will occupy
    /// ([`admitted`]), so the pump can debit a regional duty-cycle budget and schedule before
    /// committing the air. `Err(Busy)` if half-duplex or the queue is full; `Err(TooLong)` past
    /// [`max_frame_len`](Modem::max_frame_len).
    fn enqueue(&mut self, frame: &[u8]) -> Result<Duration, ModemError>;

    /// Drain one pending event, or `None` if none is ready. The pump calls this after a
    /// hardware interrupt, on a timer, or in a loop; the modem never blocks.
    fn poll(&mut self) -> Option<ModemEvent>;
}

/// Whether a frame of `len` bytes may be queued, and the airtime that it will occupy: what
/// [`Modem::enqueue`] answers for a modem with these parameters and this limit. A frame past the
/// limit is refused before the queue is looked at.
pub fn admitted(params: &LoRaParams, max: usize, busy: bool, len: usize) -> (airtime: Result<
    Duration,
    ModemError,
>)
    requires
        len <= max && !busy ==> {
            &&& params.in_domain()
            &&& params.symbols_den() > 0
            &&& params.symbols(len as nat) <= u32::MAX
            &&& lora::duration_holds(params.airtime_nanos(len as nat))
        },
    ensures
        match airtime {
            Ok(time) => len <= max && !busy && time == lora::duration_of_nanos(
                params.airtime_nanos(len as nat),
            ),
            Err(ModemError::TooLong { max: limit }) => len > max && limit == max,
            Err(ModemError::Busy) => len <= max && busy,
            Err(_) => false,
        },
{
    if len > max {
        Err(ModemError::TooLong { max })
    } else if busy {
        Err(ModemError::Busy)
    } else {
        Ok(params.time_on_air(len))
    }
}

} // verus!
