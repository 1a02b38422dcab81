//! A reliable, in-order message layer over a link.
//!
//! Raw link data packets are best-effort: over LoRa or serial they drop, reorder, and delay,
//! and a stream that returns `Ok` for bytes that never arrive is lying to its caller. This is
//! the layer that makes the stream honest on any medium: sequence numbers, a send window,
//! retransmission of unproven packets, and receiver-side reordering.
//!
//! - A message is an [`Envelope`] — `[msgtype u16][sequence u16][length u16][payload]`,
//!   big-endian.
//! - The sequence is windowed **16-bit** (mod [`SEQ_MODULUS`]).
//! - **Acknowledgement is the link packet proof, not an ack message.** Each envelope packet is
//!   proof-requesting; an unproven sequence is retransmitted.
//!
//! [`Channel`] holds no sockets and no clock. The caller (a link driver) drives it:
//! [`poll_transmit`](Channel::poll_transmit) with the current time yields the envelopes to put
//! on the wire (new data within the window, plus retransmits past their timeout);
//! [`handle`](Channel::handle) feeds received envelopes back in; and
//! [`on_proof`](Channel::on_proof) releases an outstanding sequence when its packet's proof
//! arrives.

use crate::bytes;
use std::collections::{BTreeMap, VecDeque};
use vstd::prelude::*;

verus! {

broadcast use vstd::std_specs::btree::group_btree_axioms;

/// The sequence space: sequences are 16-bit and wrap at this modulus. Comparisons use wrapping
/// distance with a half-modulus split to tell "ahead" (a future packet to buffer) from
/// "behind" (an old duplicate).
pub const SEQ_MODULUS: u32 = 65536;

/// Where a dynamic window starts. The window bounds unacknowledged envelopes in flight; it
/// grows on sustained proofs and shrinks on retransmit, bounded by the RTT tier. It is a
/// *local* send-rate policy, never on the wire.
pub const WINDOW_INITIAL: u32 = 2;

/// The window never shrinks below this.
pub const WINDOW_MIN: u32 = 2;

/// The window never grows above this (the fast-tier ceiling).
pub const WINDOW_MAX: u32 = 48;

/// How far the window drops on a retransmit.
pub const WINDOW_FLEXIBILITY: u32 = 4;

/// The window ceiling of the slow tier.
pub const WINDOW_MAX_SLOW: u32 = 5;

/// The window ceiling of the medium tier.
pub const WINDOW_MAX_MEDIUM: u32 = 12;

/// The window ceiling of the fast tier.
pub const WINDOW_MAX_FAST: u32 = 48;

/// The shrink floor of the slow tier.
pub const WINDOW_MIN_LIMIT_SLOW: u32 = 2;

/// The shrink floor of the medium tier.
pub const WINDOW_MIN_LIMIT_MEDIUM: u32 = 5;

/// The shrink floor of the fast tier.
pub const WINDOW_MIN_LIMIT_FAST: u32 = 16;

/// The longest round trip of the fast tier, in the caller's tick unit (read as milliseconds).
pub const RTT_FAST: u64 = 180;

/// The longest round trip of the medium tier.
pub const RTT_MEDIUM: u64 = 750;

/// The longest round trip of the slow tier.
pub const RTT_SLOW: u64 = 1450;

/// Consecutive proofs (no retransmit) before the window steps up one.
pub const FAST_RATE_THRESHOLD: u32 = 10;

/// Ticks without a proof before an outstanding envelope is retransmitted. "Tick" is whatever
/// unit the caller passes to [`Channel::poll_transmit`].
pub const DEFAULT_RETX_TIMEOUT: u64 = 4;

/// The message-type tag for opaque stream bytes.
pub const STREAM_MSGTYPE: u16 = 0xF900;

/// Default per-message chunk: sized to sit inside a link data packet with margin.
pub const DEFAULT_CHUNK: usize = 384;

/// One channel message on the wire: `[msgtype u16][sequence u16][length u16][payload]`,
/// big-endian.
#[derive(Debug, PartialEq, Eq)]
pub struct Envelope {
    /// Registered message type (identifies the message class on the wire).
    pub msgtype: u16,
    /// Windowed 16-bit sequence number.
    pub sequence: u16,
    /// Message payload.
    pub payload: Vec<u8>,
}

/// What an [`Envelope`] is, with its payload as a sequence.
#[verifier::ext_equal]
pub struct EnvelopeModel {
    pub msgtype: u16,
    pub sequence: u16,
    pub payload: Seq<u8>,
}

impl View for Envelope {
    type V = EnvelopeModel;

    open spec fn view(&self) -> EnvelopeModel {
        EnvelopeModel { msgtype: self.msgtype, sequence: self.sequence, payload: self.payload@ }
    }
}

impl Clone for Envelope {
    fn clone(&self) -> (copy: Self)
        ensures
            copy@ == self@,
    {
        Envelope {
            msgtype: self.msgtype,
            sequence: self.sequence,
            payload: bytes::copy_all(&self.payload),
        }
    }
}

impl EnvelopeModel {
    /// The envelope on the wire. A length beyond 16 bits loses its high bits.
    pub open spec fn wire(self) -> Seq<u8> {
        bytes::be_bytes(self.msgtype as nat, 2) + bytes::be_bytes(self.sequence as nat, 2)
            + bytes::be_bytes(self.payload.len(), 2) + self.payload
    }
}

/// The envelope that `wire` carries, if the declared length is the length that is there.
pub open spec fn decoded_envelope(wire: Seq<u8>) -> Option<EnvelopeModel> {
    if wire.len() >= 6 && bytes::be_value(wire.subrange(4, 6)) == wire.len() - 6 {
        Some(
            EnvelopeModel {
                msgtype: bytes::be_value(wire.subrange(0, 2)) as u16,
                sequence: bytes::be_value(wire.subrange(2, 4)) as u16,
                payload: wire.skip(6),
            },
        )
    } else {
        None
    }
}

impl Envelope {
    /// Encode to the wire layout.
    pub fn encode(&self) -> (wire: Vec<u8>)
        ensures
            wire@ == self@.wire(),
    {
        let mut wire: Vec<u8> = Vec::new();
        bytes::push_be(&mut wire, self.msgtype as u64, 2);
        bytes::push_be(&mut wire, self.sequence as u64, 2);
        bytes::push_be(&mut wire, self.payload.len() as u64, 2);
        wire.extend_from_slice(&self.payload);
        assert(wire@ =~= self@.wire());
        wire
    }

    /// Decode from the wire layout, or `None` if malformed / the declared length does not
    /// match.
    pub fn decode(wire: &[u8]) -> (envelope: Option<Envelope>)
        ensures
            match envelope {
                Some(e) => decoded_envelope(wire@) == Some(e@),
                None => decoded_envelope(wire@) is None,
            },
    {
        if wire.len() < 6 {
            return None;
        }
        let msgtype: u64 = bytes::read_be(vstd::slice::slice_subrange(wire, 0, 2));
        let sequence: u64 = bytes::read_be(vstd::slice::slice_subrange(wire, 2, 4));
        let length: u64 = bytes::read_be(vstd::slice::slice_subrange(wire, 4, 6));
        proof {
            bytes::lemma_byte_spans();
            bytes::lemma_be_value_bound(wire@.subrange(0, 2));
            bytes::lemma_be_value_bound(wire@.subrange(2, 4));
        }
        if length != (wire.len() - 6) as u64 {
            return None;
        }
        let payload: Vec<u8> = bytes::copy_range(wire, 6, wire.len());
        assert(payload@ =~= wire@.skip(6));
        Some(Envelope { msgtype: msgtype as u16, sequence: sequence as u16, payload })
    }
}

/// An envelope decodes to what was encoded, if its payload's length fits 16 bits.
pub proof fn law_envelope_round_trip(e: EnvelopeModel)
    requires
        e.payload.len() <= 0xffff,
    ensures
        decoded_envelope(e.wire()) == Some(e),
{
    let w = e.wire();
    bytes::lemma_byte_spans();
    bytes::lemma_be_bytes_len(e.msgtype as nat, 2);
    bytes::lemma_be_bytes_len(e.sequence as nat, 2);
    bytes::lemma_be_bytes_len(e.payload.len(), 2);
    bytes::lemma_be_round_trip(e.msgtype as nat, 2);
    bytes::lemma_be_round_trip(e.sequence as nat, 2);
    bytes::lemma_be_round_trip(e.payload.len(), 2);
    assert(w.subrange(0, 2) =~= bytes::be_bytes(e.msgtype as nat, 2));
    assert(w.subrange(2, 4) =~= bytes::be_bytes(e.sequence as nat, 2));
    assert(w.subrange(4, 6) =~= bytes::be_bytes(e.payload.len(), 2));
    assert(w.skip(6) =~= e.payload);
}

/// One un-acknowledged outbound envelope.
struct Outstanding {
    sequence: u16,
    payload: Vec<u8>,
    last_tx: u64,
}

/// What an outstanding envelope is.
#[verifier::ext_equal]
pub struct OutstandingModel {
    pub sequence: u16,
    pub payload: Seq<u8>,
    pub last_tx: u64,
}

impl View for Outstanding {
    type V = OutstandingModel;

    closed spec fn view(&self) -> OutstandingModel {
        OutstandingModel {
            sequence: self.sequence,
            payload: self.payload@,
            last_tx: self.last_tx,
        }
    }
}

/// What a [`Channel`] knows.
#[verifier::ext_equal]
pub struct ChannelModel {
    pub msgtype: u16,
    pub window: u32,
    pub retx_timeout: u64,
    /// Whether the window sizes dynamically.
    pub dynamic: bool,
    /// Proofs since the last retransmit or growth.
    pub consecutive: u32,
    /// The smoothed round trip.
    pub rtt: u64,
    /// Payloads not yet assigned a sequence.
    pub outgoing: Seq<Seq<u8>>,
    /// In flight and unproven, oldest assignment first.
    pub outstanding: Seq<OutstandingModel>,
    pub send_next: u16,
    pub recv_next: u16,
    /// Received ahead of a gap.
    pub reorder: Map<u16, Seq<u8>>,
    /// Delivered, in order.
    pub inbox: Seq<Seq<u8>>,
}

/// The sequence after `s`.
pub open spec fn next_sequence(s: u16) -> u16 {
    ((s + 1) % 65536) as u16
}

/// Where `sequence` is in a list of outstanding envelopes.
pub open spec fn holds(list: Seq<OutstandingModel>, sequence: u16, i: int) -> bool {
    &&& 0 <= i < list.len()
    &&& list[i].sequence == sequence
    &&& forall|j: int| 0 <= j < i ==> (#[trigger] list[j]).sequence != sequence
}

/// Whether `sequence` is outstanding.
pub open spec fn is_outstanding(list: Seq<OutstandingModel>, sequence: u16) -> bool {
    exists|i: int| 0 <= i < list.len() && (#[trigger] list[i]).sequence == sequence
}

/// Where `sequence` first occurs.
pub open spec fn place_of(list: Seq<OutstandingModel>, sequence: u16) -> int {
    choose|i: int| holds(list, sequence, i)
}

/// A list with `o` in it, in place of what its sequence had or else at the end.
pub open spec fn with_outstanding(
    list: Seq<OutstandingModel>,
    o: OutstandingModel,
) -> Seq<OutstandingModel> {
    if is_outstanding(list, o.sequence) {
        list.update(place_of(list, o.sequence), o)
    } else {
        list.push(o)
    }
}

/// What occurs has a first place, and only one.
proof fn lemma_place(list: Seq<OutstandingModel>, sequence: u16, i: int)
    requires
        holds(list, sequence, i),
    ensures
        is_outstanding(list, sequence),
        place_of(list, sequence) == i,
{
    let p = place_of(list, sequence);
    assert(holds(list, sequence, p));
    assert(list[i].sequence == sequence);
    assert(list[p].sequence == sequence);
}

impl ChannelModel {
    /// The RTT tier's window ceiling.
    pub open spec fn tier_max(self) -> u32 {
        if self.rtt <= RTT_FAST {
            WINDOW_MAX_FAST
        } else if self.rtt <= RTT_MEDIUM {
            WINDOW_MAX_MEDIUM
        } else if self.rtt <= RTT_SLOW {
            WINDOW_MAX_SLOW
        } else {
            WINDOW_MIN
        }
    }

    /// The RTT tier's shrink floor.
    pub open spec fn tier_min(self) -> u32 {
        if self.rtt <= RTT_FAST {
            WINDOW_MIN_LIMIT_FAST
        } else if self.rtt <= RTT_MEDIUM {
            WINDOW_MIN_LIMIT_MEDIUM
        } else {
            WINDOW_MIN_LIMIT_SLOW
        }
    }

    /// The next payload put in flight.
    pub open spec fn launch(self, now: u64) -> ChannelModel {
        ChannelModel {
            outgoing: self.outgoing.skip(1),
            outstanding: with_outstanding(
                self.outstanding,
                OutstandingModel {
                    sequence: self.send_next,
                    payload: self.outgoing[0],
                    last_tx: now,
                },
            ),
            send_next: next_sequence(self.send_next),
            ..self
        }
    }

    /// Whether a payload waits and the window has room for it.
    pub open spec fn may_launch(self) -> bool {
        self.outgoing.len() > 0 && self.outstanding.len() < self.window
    }

    /// The envelope of the next payload.
    pub open spec fn next_envelope(self) -> EnvelopeModel {
        EnvelopeModel {
            msgtype: self.msgtype,
            sequence: self.send_next,
            payload: self.outgoing[0],
        }
    }

    /// The state with the window filled from the waiting payloads.
    pub open spec fn filled(self, now: u64) -> ChannelModel
        decreases self.outgoing.len(),
    {
        if self.may_launch() {
            self.launch(now).filled(now)
        } else {
            self
        }
    }

    /// The envelopes that fill the window.
    pub open spec fn fresh(self, now: u64) -> Seq<EnvelopeModel>
        decreases self.outgoing.len(),
    {
        if self.may_launch() {
            seq![self.next_envelope()] + self.launch(now).fresh(now)
        } else {
            Seq::empty()
        }
    }

    /// Whether an outstanding envelope has gone unproven for the retransmit timeout.
    pub open spec fn due(self, o: OutstandingModel, now: u64) -> bool {
        (if now >= o.last_tx {
            now - o.last_tx
        } else {
            0
        }) >= self.retx_timeout
    }

    /// The envelopes sent again, out of the first `n` outstanding.
    pub open spec fn resent(self, now: u64, n: nat) -> Seq<EnvelopeModel>
        decreases n,
    {
        if n == 0 {
            Seq::empty()
        } else {
            let front = self.resent(now, (n - 1) as nat);
            let o = self.outstanding[n - 1];
            if self.due(o, now) {
                front.push(
                    EnvelopeModel {
                        msgtype: self.msgtype,
                        sequence: o.sequence,
                        payload: o.payload,
                    },
                )
            } else {
                front
            }
        }
    }

    /// The first `n` outstanding envelopes with those sent again marked as sent now.
    pub open spec fn stamped(self, now: u64, n: nat) -> Seq<OutstandingModel> {
        Seq::new(
            self.outstanding.len(),
            |i: int|
                if i < n && self.due(self.outstanding[i], now) {
                    OutstandingModel { last_tx: now, ..self.outstanding[i] }
                } else {
                    self.outstanding[i]
                },
        )
    }

    /// The window after a retransmit: lower by the step, but not below the tier floor. A window
    /// that is at the floor or under it stays as it is.
    pub open spec fn backed_off(self) -> u32 {
        let floor = if self.tier_min() > WINDOW_MIN {
            self.tier_min()
        } else {
            WINDOW_MIN
        };
        let lower = if self.window >= WINDOW_FLEXIBILITY {
            (self.window - WINDOW_FLEXIBILITY) as u32
        } else {
            0u32
        };
        if self.window <= floor {
            self.window
        } else if lower > floor {
            lower
        } else {
            floor
        }
    }

    /// The envelopes to transmit at `now`: fresh ones within the window, then the overdue
    /// ones again.
    pub open spec fn transmits(self, now: u64) -> Seq<EnvelopeModel> {
        let full = self.filled(now);
        self.fresh(now) + full.resent(now, full.outstanding.len())
    }

    /// The state after transmitting at `now`.
    pub open spec fn transmitted(self, now: u64) -> ChannelModel {
        let full = self.filled(now);
        let stamped = ChannelModel {
            outstanding: full.stamped(now, full.outstanding.len()),
            ..full
        };
        if self.dynamic && full.resent(now, full.outstanding.len()).len() > 0 {
            ChannelModel { window: full.backed_off(), consecutive: 0, ..stamped }
        } else {
            stamped
        }
    }

    /// The state after a proof of `sequence` at `now`.
    pub open spec fn proved(self, sequence: u16, now: u64) -> ChannelModel {
        if !is_outstanding(self.outstanding, sequence) {
            self
        } else {
            let i = place_of(self.outstanding, sequence);
            let o = self.outstanding[i];
            let released = ChannelModel { outstanding: self.outstanding.remove(i), ..self };
            if !self.dynamic {
                released
            } else {
                let sample: int = if now >= o.last_tx {
                    now - o.last_tx
                } else {
                    0
                };
                let measured = ChannelModel {
                    rtt: ((self.rtt * 7 + sample) / 8) as u64,
                    ..released
                };
                if self.consecutive + 1 >= FAST_RATE_THRESHOLD {
                    ChannelModel {
                        consecutive: 0,
                        window: if self.window < measured.tier_max() {
                            (self.window + 1) as u32
                        } else {
                            self.window
                        },
                        ..measured
                    }
                } else {
                    ChannelModel { consecutive: (self.consecutive + 1) as u32, ..measured }
                }
            }
        }
    }

    /// How far `sequence` is ahead of the next one to deliver, around the sequence space.
    pub open spec fn ahead(self, sequence: u16) -> int {
        (sequence - self.recv_next) % 65536
    }

    /// `payload` delivered as the next message.
    pub open spec fn delivered(self, payload: Seq<u8>) -> ChannelModel {
        ChannelModel {
            inbox: self.inbox.push(payload),
            recv_next: next_sequence(self.recv_next),
            ..self
        }
    }

    /// The next message taken from those received ahead.
    pub open spec fn pulled(self) -> ChannelModel {
        ChannelModel {
            reorder: self.reorder.remove(self.recv_next),
            ..self.delivered(self.reorder[self.recv_next])
        }
    }

    /// The messages received ahead that are now next, delivered one after another.
    pub open spec fn drained(self, fuel: nat) -> ChannelModel
        decreases fuel,
    {
        if fuel > 0 && self.reorder.contains_key(self.recv_next) {
            self.pulled().drained((fuel - 1) as nat)
        } else {
            self
        }
    }

    /// The state after an envelope came in: the next one is delivered, with all that it
    /// unblocks; one ahead of a gap is held; one behind is a duplicate and is dropped.
    pub open spec fn handled(self, e: EnvelopeModel) -> ChannelModel {
        if self.ahead(e.sequence) == 0 {
            self.delivered(e.payload).drained(self.reorder.dom().len())
        } else if self.ahead(e.sequence) < 32768 && !self.reorder.contains_key(e.sequence) {
            ChannelModel { reorder: self.reorder.insert(e.sequence, e.payload), ..self }
        } else {
            self
        }
    }
}

/// The contents of a list of envelopes.
pub open spec fn envelope_models(list: Seq<Envelope>) -> Seq<EnvelopeModel> {
    list.map_values(|e: Envelope| e@)
}

/// A reliable, in-order message channel. See the module docs.
pub struct Channel {
    msgtype: u16,
    window: u32,
    retx_timeout: u64,
    /// Whether the window sizes dynamically. Off for a fixed window.
    dynamic: bool,
    /// Consecutive proofs since the last retransmit; drives window growth.
    consecutive: u32,
    /// Smoothed proof round-trip, in the caller's tick unit; selects the RTT tier.
    rtt: u64,
    /// Application payloads not yet assigned a sequence (waiting for window room).
    outgoing: VecDeque<Vec<u8>>,
    /// In-flight, unacknowledged, oldest first. Released by `on_proof`.
    outstanding: Vec<Outstanding>,
    /// The next sequence to assign (wraps at `SEQ_MODULUS`).
    send_next: u16,
    /// The next sequence we can deliver in order.
    recv_next: u16,
    /// Received-but-not-yet-deliverable, held until the gap before them fills.
    reorder: BTreeMap<u16, Vec<u8>>,
    /// Delivered, in order, ready for the application to read.
    inbox: VecDeque<Vec<u8>>,
}

spec fn outstanding_models(list: Seq<Outstanding>) -> Seq<OutstandingModel> {
    list.map_values(|o: Outstanding| o@)
}

spec fn reorder_model(m: Map<u16, Vec<u8>>) -> Map<u16, Seq<u8>> {
    m.map_values(|v: Vec<u8>| v@)
}

impl View for Channel {
    type V = ChannelModel;

    closed spec fn view(&self) -> ChannelModel {
        ChannelModel {
            msgtype: self.msgtype,
            window: self.window,
            retx_timeout: self.retx_timeout,
            dynamic: self.dynamic,
            consecutive: self.consecutive,
            rtt: self.rtt,
            outgoing: bytes::views(self.outgoing@),
            outstanding: outstanding_models(self.outstanding@),
            send_next: self.send_next,
            recv_next: self.recv_next,
            reorder: reorder_model(self.reorder@),
            inbox: bytes::views(self.inbox@),
        }
    }
}

/// A channel that has sent and received nothing.
pub open spec fn new_channel(
    msgtype: u16,
    window: u32,
    retx_timeout: u64,
    dynamic: bool,
) -> ChannelModel {
    ChannelModel {
        msgtype,
        window: if window >= 1 {
            window
        } else {
            1
        },
        retx_timeout,
        dynamic,
        consecutive: 0,
        rtt: RTT_MEDIUM,
        outgoing: Seq::empty(),
        outstanding: Seq::empty(),
        send_next: 0,
        recv_next: 0,
        reorder: Map::empty(),
        inbox: Seq::empty(),
    }
}

impl Default for Channel {
    fn default() -> (channel: Self)
        ensures
            channel@ == new_channel(STREAM_MSGTYPE, WINDOW_INITIAL, DEFAULT_RETX_TIMEOUT, true),
    {
        Channel::new(STREAM_MSGTYPE)
    }
}

impl Channel {
    /// A channel for one message type with a **dynamic** window: it starts at
    /// [`WINDOW_INITIAL`] and grows toward the RTT tier's max on sustained proofs, shrinking on
    /// retransmit.
    pub fn new(msgtype: u16) -> (channel: Self)
        ensures
            channel@ == new_channel(msgtype, WINDOW_INITIAL, DEFAULT_RETX_TIMEOUT, true),
    {
        let mut channel = Channel::with_params(msgtype, WINDOW_INITIAL, DEFAULT_RETX_TIMEOUT);
        channel.dynamic = true;
        channel
    }

    /// A channel with a **fixed** window (of at least one) and explicit retransmit timeout, for
    /// callers that want a static send rate.
    pub fn with_params(msgtype: u16, window: u32, retx_timeout: u64) -> (channel: Self)
        ensures
            channel@ == new_channel(msgtype, window, retx_timeout, false),
    {
        let channel = Channel {
            msgtype,
            window: if window >= 1 {
                window
            } else {
                1
            },
            retx_timeout,
            dynamic: false,
            consecutive: 0,
            rtt: RTT_MEDIUM,
            outgoing: VecDeque::new(),
            outstanding: Vec::new(),
            send_next: 0,
            recv_next: 0,
            reorder: BTreeMap::new(),
            inbox: VecDeque::new(),
        };
        assert(channel@ =~= new_channel(msgtype, window, retx_timeout, false));
        channel
    }

    /// The RTT tier's window ceiling, from the current RTT estimate.
    fn tier_max(&self) -> (max: u32)
        ensures
            max == self@.tier_max(),
    {
        if self.rtt <= RTT_FAST {
            WINDOW_MAX_FAST
        } else if self.rtt <= RTT_MEDIUM {
            WINDOW_MAX_MEDIUM
        } else if self.rtt <= RTT_SLOW {
            WINDOW_MAX_SLOW
        } else {
            WINDOW_MIN
        }
    }

    /// The RTT tier's shrink floor, from the current RTT estimate.
    fn tier_min(&self) -> (min: u32)
        ensures
            min == self@.tier_min(),
    {
        if self.rtt <= RTT_FAST {
            WINDOW_MIN_LIMIT_FAST
        } else if self.rtt <= RTT_MEDIUM {
            WINDOW_MIN_LIMIT_MEDIUM
        } else {
            WINDOW_MIN_LIMIT_SLOW
        }
    }

    /// The current send window.
    pub fn window(&self) -> (window: u32)
        ensures
            window == self@.window,
    {
        self.window
    }

    /// Queue a payload for reliable, in-order delivery. Assigned a sequence and put on the wire
    /// by [`poll_transmit`](Self::poll_transmit) as the window allows.
    pub fn send(&mut self, payload: Vec<u8>)
        ensures
            final(self)@ == (ChannelModel {
                outgoing: old(self)@.outgoing.push(payload@),
                ..old(self)@
            }),
    {
        let ghost p = payload@;
        self.outgoing.push_back(payload);
        assert(bytes::views(self.outgoing@) =~= old(self)@.outgoing.push(p));
    }

    fn find(&self, sequence: u16) -> (at: Option<usize>)
        ensures
            match at {
                Some(i) => i < self.outstanding@.len() && is_outstanding(
                    self@.outstanding,
                    sequence,
                ) && place_of(self@.outstanding, sequence) == i as int,
                None => !is_outstanding(self@.outstanding, sequence),
            },
    {
        let ghost list = self@.outstanding;
        let mut i: usize = 0;
        while i < self.outstanding.len()
            invariant
                i <= self.outstanding@.len(),
                list == self@.outstanding,
                list == outstanding_models(self.outstanding@),
                forall|j: int| 0 <= j < i ==> (#[trigger] list[j]).sequence != sequence,
            decreases self.outstanding@.len() - i,
        {
            if self.outstanding[i].sequence == sequence {
                proof {
                    assert(list[i as int].sequence == sequence);
                    lemma_place(list, sequence, i as int);
                }
                return Some(i);
            }
            i += 1;
        }
        None
    }

    /// Put the next waiting payload in flight.
    fn launch(&mut self, now: u64) -> (envelope: Envelope)
        requires
            old(self)@.outgoing.len() > 0,
        ensures
            final(self)@ == old(self)@.launch(now),
            envelope@ == old(self)@.next_envelope(),
    {
        let ghost before = self.outgoing@;
        let sequence: u16 = self.send_next;
        let found = self.find(sequence);
        let payload: Vec<u8> = match self.outgoing.pop_front() {
            Some(p) => p,
            None => Vec::new(),
        };
        assert(payload@ == bytes::views(before)[0]);
        assert(bytes::views(self.outgoing@) =~= bytes::views(before).skip(1));
        self.send_next = if sequence == 65535 {
            0
        } else {
            sequence + 1
        };
        let envelope = Envelope {
            msgtype: self.msgtype,
            sequence,
            payload: bytes::copy_all(&payload),
        };
        let o = Outstanding { sequence, payload, last_tx: now };
        let ghost m = o@;
        let ghost list = outstanding_models(self.outstanding@);
        match found {
            Some(i) => {
                self.outstanding.set(i, o);
                assert(outstanding_models(self.outstanding@) =~= list.update(i as int, m));
            },
            None => {
                self.outstanding.push(o);
                assert(outstanding_models(self.outstanding@) =~= list.push(m));
            },
        }
        assert(self@ =~= old(self)@.launch(now));
        envelope
    }

    /// Send the overdue envelopes again.
    fn resend(&mut self, now: u64, out: &mut Vec<Envelope>) -> (any: bool)
        ensures
            ({
                let n = old(self)@.outstanding.len();
                let again = old(self)@.resent(now, n);
                &&& any == (again.len() > 0)
                &&& envelope_models(final(out)@) == envelope_models(old(out)@) + again
                &&& final(self)@ == (ChannelModel {
                    outstanding: old(self)@.stamped(now, n),
                    ..old(self)@
                })
            }),
    {
        let ghost start = self@;
        let ghost first = envelope_models(out@);
        let mut any: bool = false;
        let mut i: usize = 0;
        assert(start.stamped(now, 0) =~= start.outstanding);
        assert(first + start.resent(now, 0) =~= first);
        while i < self.outstanding.len()
            invariant
                i <= self.outstanding@.len(),
                self.outstanding@.len() == start.outstanding.len(),
                start == old(self)@,
                self@ == (ChannelModel {
                    outstanding: start.stamped(now, i as nat),
                    ..start
                }),
                any == (start.resent(now, i as nat).len() > 0),
                envelope_models(out@) == first + start.resent(now, i as nat),
            decreases self.outstanding@.len() - i,
        {
            let ghost before = self@;
            let ghost sent = envelope_models(out@);
            assert(before.outstanding[i as int] == self.outstanding@[i as int]@);
            assert(before.outstanding[i as int] == start.outstanding[i as int]);
            let last_tx: u64 = self.outstanding[i].last_tx;
            let waited: u64 = if now >= last_tx {
                now - last_tx
            } else {
                0
            };
            if waited >= self.retx_timeout {
                let sequence: u16 = self.outstanding[i].sequence;
                let copy: Vec<u8> = bytes::copy_all(&self.outstanding[i].payload);
                let again: Vec<u8> = bytes::copy_all(&copy);
                let ghost envelope = EnvelopeModel {
                    msgtype: self.msgtype,
                    sequence,
                    payload: copy@,
                };
                out.push(Envelope { msgtype: self.msgtype, sequence, payload: copy });
                assert(envelope_models(out@) =~= sent.push(envelope));
                self.outstanding.set(i, Outstanding { sequence, payload: again, last_tx: now });
                any = true;
                proof {
                    assert(start.due(start.outstanding[i as int], now));
                    let after = outstanding_models(self.outstanding@);
                    let stamped = start.stamped(now, (i + 1) as nat);
                    assert forall|j: int| 0 <= j < after.len() implies after[j] == stamped[j] by {
                        if j != i {
                            assert(after[j] == before.outstanding[j]);
                        }
                    }
                    assert(after =~= stamped);
                    assert(envelope_models(out@) =~= first + start.resent(now, (i + 1) as nat));
                }
            } else {
                proof {
                    assert(!start.due(start.outstanding[i as int], now));
                    assert(start.stamped(now, (i + 1) as nat) =~= start.stamped(now, i as nat));
                }
            }
            i += 1;
        }
        any
    }

    /// The envelopes to transmit at time `now`: newly sendable data within the window, and
    /// retransmissions of outstanding envelopes past the retransmit timeout. There is no ack
    /// envelope — acknowledgement is the link proof, delivered via
    /// [`on_proof`](Self::on_proof).
    ///
    /// A retransmit means loss (or a stall): it backs a dynamic window off toward the tier
    /// floor.
    pub fn poll_transmit(&mut self, now: u64) -> (out: Vec<Envelope>)
        ensures
            envelope_models(out@) == old(self)@.transmits(now),
            final(self)@ == old(self)@.transmitted(now),
    {
        let ghost start = self@;
        let mut out: Vec<Envelope> = Vec::new();
        assert(envelope_models(out@) + start.fresh(now) =~= start.fresh(now));
        while self.outgoing.len() > 0 && (self.outstanding.len() as u64) < self.window as u64
            invariant
                start == old(self)@,
                self@.filled(now) == start.filled(now),
                self@.dynamic == start.dynamic,
                envelope_models(out@) + self@.fresh(now) == start.fresh(now),
            decreases self@.outgoing.len(),
        {
            let ghost before = self@;
            let ghost sent = envelope_models(out@);
            assert(before.may_launch());
            let envelope = self.launch(now);
            let ghost e = envelope@;
            out.push(envelope);
            assert(envelope_models(out@) =~= sent.push(e));
            assert(sent.push(e) + self@.fresh(now) =~= sent + (seq![e] + self@.fresh(now)));
        }
        assert(!self@.may_launch());
        assert(envelope_models(out@) + self@.fresh(now) =~= envelope_models(out@));
        let any: bool = self.resend(now, &mut out);
        if self.dynamic && any {
            let floor: u32 = if self.tier_min() > WINDOW_MIN {
                self.tier_min()
            } else {
                WINDOW_MIN
            };
            let lower: u32 = if self.window >= WINDOW_FLEXIBILITY {
                self.window - WINDOW_FLEXIBILITY
            } else {
                0
            };
            if self.window > floor {
                self.window = if lower > floor {
                    lower
                } else {
                    floor
                };
            }
            self.consecutive = 0;
        }
        assert(self@ =~= start.transmitted(now));
        out
    }

    /// Release an outstanding sequence: its packet's proof arrived. Selective: each packet is
    /// proved individually, so this frees exactly one sequence. `now` lets the dynamic window
    /// measure RTT and grow on sustained success.
    pub fn on_proof(&mut self, sequence: u16, now: u64)
        ensures
            final(self)@ == old(self)@.proved(sequence, now),
    {
        let ghost start = self@;
        let at: usize = match self.find(sequence) {
            Some(i) => i,
            None => {
                return;
            },
        };
        let ghost list = outstanding_models(self.outstanding@);
        let o = self.outstanding.remove(at);
        assert(outstanding_models(self.outstanding@) =~= list.remove(at as int));
        assert(o@ == list[at as int]);
        if !self.dynamic {
            assert(self@ =~= start.proved(sequence, now));
            return;
        }
        let sample: u64 = if now >= o.last_tx {
            now - o.last_tx
        } else {
            0
        };
        self.rtt = ((self.rtt as u128 * 7 + sample as u128) / 8) as u64;
        if self.consecutive >= FAST_RATE_THRESHOLD - 1 {
            self.consecutive = 0;
            let cap: u32 = self.tier_max();
            if self.window < cap {
                self.window = self.window + 1;
            }
        } else {
            self.consecutive = self.consecutive + 1;
        }
        assert(self@ =~= start.proved(sequence, now));
    }

    /// Whether `sequence` is in flight and unproven.
    pub fn is_outstanding(&self, sequence: u16) -> (found: bool)
        ensures
            found == is_outstanding(self@.outstanding, sequence),
    {
        self.find(sequence).is_some()
    }

    /// Process a received envelope, delivering it or buffering it for reordering.
    ///
    /// The driver proves the underlying packet at the link layer regardless (an unproven sender
    /// retransmits, and the receiver must re-prove duplicates), so this never needs to signal a
    /// proof — it only orders delivery.
    pub fn handle(&mut self, envelope: Envelope)
        ensures
            final(self)@ == old(self)@.handled(envelope@),
    {
        let ghost start = self@;
        let ghost e = envelope@;
        let ahead: u16 = if envelope.sequence >= self.recv_next {
            envelope.sequence - self.recv_next
        } else {
            (65536 - (self.recv_next - envelope.sequence) as u32) as u16
        };
        assert(ahead as int == start.ahead(e.sequence));
        if ahead == 0 {
            let ghost inbox = bytes::views(self.inbox@);
            self.inbox.push_back(envelope.payload);
            assert(bytes::views(self.inbox@) =~= inbox.push(e.payload));
            self.recv_next = if self.recv_next == 65535 {
                0
            } else {
                self.recv_next + 1
            };
            assert(self@ =~= start.delivered(e.payload));
            self.drain();
        } else if (ahead as u32) < SEQ_MODULUS / 2 && !self.reorder.contains_key(
            &envelope.sequence,
        ) {
            let ghost held = self.reorder@;
            let ghost payload = envelope.payload;
            self.reorder.insert(envelope.sequence, envelope.payload);
            assert(reorder_model(self.reorder@) =~= reorder_model(held).insert(
                e.sequence,
                e.payload,
            ));
            assert(self@ =~= start.handled(e));
        }
    }

    /// Pull any now-contiguous buffered envelopes into order.
    fn drain(&mut self)
        ensures
            final(self)@ == old(self)@.drained(old(self)@.reorder.dom().len()),
    {
        let ghost start = self@;
        let ghost fuel = start.reorder.dom().len();
        assert(reorder_model(self.reorder@).dom() =~= self.reorder@.dom());
        while self.reorder.contains_key(&self.recv_next)
            invariant
                self@.reorder.dom().finite(),
                self@.reorder.dom().len() <= fuel,
                self@.drained(self@.reorder.dom().len()) == start.drained(fuel),
            decreases self@.reorder.dom().len(),
        {
            let ghost before = self@;
            let ghost held = self.reorder@;
            assert(before.reorder.contains_key(before.recv_next));
            match self.reorder.remove(&self.recv_next) {
                Some(next) => {
                    let ghost inbox = bytes::views(self.inbox@);
                    let ghost payload = next@;
                    self.inbox.push_back(next);
                    assert(bytes::views(self.inbox@) =~= inbox.push(payload));
                },
                None => {},
            }
            assert(reorder_model(self.reorder@) =~= reorder_model(held).remove(self.recv_next));
            assert(self@.reorder.dom() =~= before.reorder.dom().remove(before.recv_next));
            self.recv_next = if self.recv_next == 65535 {
                0
            } else {
                self.recv_next + 1
            };
            assert(self@ =~= before.pulled());
        }
        assert(!self@.reorder.contains_key(self@.recv_next));
    }

    /// The next in-order application payload, if one is ready.
    pub fn recv(&mut self) -> (payload: Option<Vec<u8>>)
        ensures
            match payload {
                Some(p) => {
                    &&& old(self)@.inbox.len() > 0
                    &&& p@ == old(self)@.inbox[0]
                    &&& final(self)@ == (ChannelModel {
                        inbox: old(self)@.inbox.skip(1),
                        ..old(self)@
                    })
                },
                None => old(self)@.inbox.len() == 0 && final(self)@ == old(self)@,
            },
    {
        let ghost before = self.inbox@;
        let payload = self.inbox.pop_front();
        if payload.is_some() {
            assert(bytes::views(self.inbox@) =~= bytes::views(before).skip(1));
        }
        payload
    }

    /// Whether everything queued to send has been sent and proven.
    pub fn send_idle(&self) -> (idle: bool)
        ensures
            idle == (self@.outgoing.len() == 0 && self@.outstanding.len() == 0),
    {
        self.outgoing.len() == 0 && self.outstanding.len() == 0
    }

    /// Count of in-flight, unproven envelopes.
    pub fn in_flight(&self) -> (count: usize)
        ensures
            count as nat == self@.outstanding.len(),
    {
        self.outstanding.len()
    }
}

/// Only envelopes are taken for envelopes: what decodes is exactly what that envelope encodes to,
/// so no byte is missing and none is left over.
pub proof fn law_only_envelopes_decode(wire: Seq<u8>)
    ensures
        decoded_envelope(wire) matches Some(e) ==> e.wire() == wire && e.payload.len() <= 0xffff,
{
    if let Some(e) = decoded_envelope(wire) {
        bytes::lemma_byte_spans();
        bytes::lemma_be_value_bound(wire.subrange(0, 2));
        bytes::lemma_be_value_bound(wire.subrange(2, 4));
        bytes::lemma_be_value_bound(wire.subrange(4, 6));
        bytes::lemma_be_value_spelled(wire.subrange(0, 2));
        bytes::lemma_be_value_spelled(wire.subrange(2, 4));
        bytes::lemma_be_value_spelled(wire.subrange(4, 6));
        assert(e.wire() =~= wire);
    }
}

} // verus!
