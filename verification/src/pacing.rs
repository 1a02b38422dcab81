//! How a channel's window opens and closes, from the round trips and the losses alone.
//!
//! A dynamic window opens by one after ten proofs in a row, up to the ceiling of the tier that the
//! smoothed round trip is in, and closes by four when something had to be sent again, down to the
//! tier's floor. Whatever it is, it is used: nothing waits while there is room.

use crate::channel;
use crate::channel::{ChannelModel, EnvelopeModel};
use crate::delivery;
use vstd::prelude::*;

verus! {

/// The most that a window opens to at a smoothed round trip.
pub open spec fn ceiling_at(rtt: int) -> int {
    if rtt <= 180 {
        48
    } else if rtt <= 750 {
        12
    } else if rtt <= 1450 {
        5
    } else {
        2
    }
}

/// The least that a window closes to at a smoothed round trip.
pub open spec fn floor_at(rtt: int) -> int {
    if rtt <= 180 {
        16
    } else if rtt <= 750 {
        5
    } else {
        2
    }
}

/// A proof of something in flight smooths its round trip in, by an eighth, and counts toward the
/// next opening; the tenth in a row opens the window by one, if it is below the ceiling.
pub proof fn law_proofs_open_the_window(c: ChannelModel, sequence: u16, now: u64, i: int)
    requires
        c.dynamic,
        delivery::distinct(c.outstanding),
        0 <= i < c.outstanding.len(),
        c.outstanding[i].sequence == sequence,
        c.consecutive < 10,
        now >= c.outstanding[i].last_tx,
    ensures
        ({
            let after = c.proved(sequence, now);
            let trip = now - c.outstanding[i].last_tx;
            &&& 8 * after.rtt <= 7 * c.rtt + trip < 8 * after.rtt + 8
            &&& if c.consecutive < 9 {
                after.consecutive == c.consecutive + 1 && after.window == c.window
            } else {
                after.consecutive == 0 && after.window == if c.window < ceiling_at(
                    after.rtt as int,
                ) {
                    c.window + 1
                } else {
                    c.window as int
                }
            }
        }),
{
    assert(channel::is_outstanding(c.outstanding, sequence));
    delivery::lemma_first_place(c.outstanding, sequence);
    let at = channel::place_of(c.outstanding, sequence);
    assert(at == i) by {
        if at < i {
            assert(c.outstanding[at].sequence != c.outstanding[i].sequence);
        }
        if i < at {
            assert(c.outstanding[i].sequence != c.outstanding[at].sequence);
        }
    }
    let trip = now - c.outstanding[i].last_tx;
    assert((c.rtt * 7 + trip) / 8 <= u64::MAX);
}

/// Filling the window changes neither its size nor what it goes by.
proof fn lemma_fill_keeps(c: ChannelModel, now: u64)
    ensures
        ({
            let full = c.filled(now);
            &&& full.window == c.window
            &&& full.rtt == c.rtt
            &&& full.dynamic == c.dynamic
            &&& full.consecutive == c.consecutive
            &&& full.retx_timeout == c.retx_timeout
            &&& full.msgtype == c.msgtype
            &&& full.outgoing.len() == 0 || full.outstanding.len() >= c.window
            &&& full.outgoing.len() + c.fresh(now).len() == c.outgoing.len()
        }),
    decreases c.outgoing.len(),
{
    if c.may_launch() {
        if channel::is_outstanding(c.outstanding, c.send_next) {
            delivery::lemma_first_place(c.outstanding, c.send_next);
        }
        lemma_fill_keeps(c.launch(now), now);
    }
}

/// A transmission that sends something again closes a dynamic window by four, or as far as the
/// floor, and starts the count of proofs anew; a window at the floor or under it stays. One that
/// sends nothing again leaves window and count alone, and so does every one of a fixed window.
pub proof fn law_losses_close_the_window(c: ChannelModel, now: u64)
    ensures
        ({
            let after = c.transmitted(now);
            let again = c.transmits(now).len() > c.fresh(now).len();
            let floor = floor_at(c.rtt as int);
            &&& after.rtt == c.rtt
            &&& if c.dynamic && again {
                &&& after.consecutive == 0
                &&& c.window <= floor ==> after.window == c.window
                &&& floor < c.window <= floor + 4 ==> after.window == floor
                &&& floor + 4 < c.window ==> after.window == c.window - 4
            } else {
                after.window == c.window && after.consecutive == c.consecutive
            }
        }),
{
    lemma_fill_keeps(c, now);
}

/// The window is used: after a transmission nothing waits, or as much is in flight as the window
/// has room for.
pub proof fn law_the_window_is_used(c: ChannelModel, now: u64)
    ensures
        c.transmitted(now).outgoing.len() == 0 || c.transmitted(now).outstanding.len() >= c.window,
{
    lemma_fill_keeps(c, now);
}

/// What a channel was set up with stays: the message type, the timeout, and whether its window
/// moves, whatever is sent, proved and received.
pub proof fn law_settings_stay(c: ChannelModel, e: EnvelopeModel, sequence: u16, now: u64)
    ensures
        c.transmitted(now).msgtype == c.msgtype,
        c.transmitted(now).retx_timeout == c.retx_timeout,
        c.transmitted(now).dynamic == c.dynamic,
        c.proved(sequence, now).msgtype == c.msgtype,
        c.proved(sequence, now).retx_timeout == c.retx_timeout,
        c.proved(sequence, now).dynamic == c.dynamic,
        c.handled(e).msgtype == c.msgtype,
        c.handled(e).retx_timeout == c.retx_timeout,
        c.handled(e).dynamic == c.dynamic,
        c.handled(e).window == c.window,
        c.handled(e).outgoing == c.outgoing,
        c.handled(e).outstanding == c.outstanding,
{
    lemma_fill_keeps(c, now);
    lemma_drain_keeps(c.delivered(e.payload), c.reorder.dom().len());
}

proof fn lemma_drain_keeps(c: ChannelModel, fuel: nat)
    ensures
        ({
            let d = c.drained(fuel);
            &&& d.msgtype == c.msgtype
            &&& d.retx_timeout == c.retx_timeout
            &&& d.dynamic == c.dynamic
            &&& d.window == c.window
            &&& d.outgoing == c.outgoing
            &&& d.outstanding == c.outstanding
        }),
    decreases fuel,
{
    if fuel > 0 && c.reorder.contains_key(c.recv_next) {
        lemma_drain_keeps(c.pulled(), (fuel - 1) as nat);
    }
}

/// A message that comes early is kept, whole, as far ahead as half the sequence space; one that is
/// behind changes nothing.
pub proof fn law_early_messages_are_kept(c: ChannelModel, e: EnvelopeModel)
    ensures
        ({
            let ahead = (e.sequence - c.recv_next) % 65536;
            let after = c.handled(e);
            &&& 0 < ahead < 32768 && !c.reorder.contains_key(e.sequence) ==> after.reorder
                == c.reorder.insert(e.sequence, e.payload)
            &&& 0 < ahead < 32768 ==> after.inbox == c.inbox && after.recv_next == c.recv_next
            &&& ahead >= 32768 ==> after == c
        }),
{
}

} // verus!
