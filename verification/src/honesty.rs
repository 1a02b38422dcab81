//! What an idle sender may conclude: a channel does not claim that messages were delivered which
//! were not.
//!
//! A sender is idle when everything queued has been sent and proven. If proofs are genuine (each
//! is of an envelope that the receiver has), then an idle sender's messages have all been
//! delivered, in order.

use crate::channel;
use crate::channel::{ChannelModel, EnvelopeModel};
use crate::delivery;
use crate::delivery::{Pipe, Step};
use vstd::prelude::*;

verus! {

/// The sequence of message `k`.
pub open spec fn sequence_of(k: int) -> u16 {
    (k % 65536) as u16
}

/// How many messages have been put in flight.
pub open spec fn sent(p: Pipe) -> int {
    p.queued.len() - p.sender.outgoing.len()
}

/// Whether message `k` is with the receiver: delivered, or held ahead of a gap.
pub open spec fn arrived(p: Pipe, k: int) -> bool {
    k < p.delivered().len() || p.receiver.reorder.contains_key(sequence_of(k))
}

/// Whether the sender still waits for a proof of message `k`.
pub open spec fn awaited(p: Pipe, k: int) -> bool {
    channel::is_outstanding(p.sender.outstanding, sequence_of(k))
}

/// Every message put in flight has arrived, or its proof is awaited.
pub open spec fn accounted(p: Pipe) -> bool {
    forall|k: int| 0 <= k < sent(p) ==> arrived(p, k) || #[trigger] awaited(p, k)
}

/// Whether a step keeps faith: a proof is of a message that has arrived, and the sender does not
/// run ahead of the receiver by more than half the sequence space.
pub open spec fn keeps_faith(p: Pipe, step: Step) -> bool {
    match step {
        Step::Transmit(_) => sent(p.after(step)) - 32768 <= p.delivered().len(),
        Step::Proof(sequence, _) => forall|k: int|
            0 <= k < sent(p) && sent(p) - 32768 <= k && #[trigger] sequence_of(k) == sequence
                ==> arrived(p, k),
        _ => true,
    }
}

/// Whether every step of a run keeps faith in its turn.
pub open spec fn keeps_faith_throughout(start: Pipe, steps: Seq<Step>) -> bool
    decreases steps.len(),
{
    steps.len() == 0 || keeps_faith_throughout(start, steps.drop_last()) && keeps_faith(
        start.after_all(steps.drop_last()),
        steps.last(),
    )
}

/// What holds of the two ends as long as faith is kept.
pub open spec fn faithful(p: Pipe) -> bool {
    &&& p.in_order(sent(p))
    &&& delivery::distinct(p.sender.outstanding)
    &&& sent(p) - 32768 <= p.delivered().len()
    &&& accounted(p)
}

/// A message held ahead stays held until it is delivered.
proof fn lemma_drained_keeps(c: ChannelModel, fuel: nat, s: u16)
    ensures
        c.drained(fuel).inbox.len() >= c.inbox.len(),
        c.reorder.contains_key(s) ==> c.drained(fuel).reorder.contains_key(s) || c.drained(
            fuel,
        ).inbox.len() > c.inbox.len() + c.ahead(s),
    decreases fuel,
{
    if fuel > 0 && c.reorder.contains_key(c.recv_next) {
        let next = c.pulled();
        lemma_drained_keeps(next, (fuel - 1) as nat, s);
        if c.reorder.contains_key(s) && s != c.recv_next {
            assert(next.ahead(s) == c.ahead(s) - 1);
        }
    }
}

/// Whatever arrives, what has arrived stays.
pub proof fn lemma_handled_keeps(c: ChannelModel, e: EnvelopeModel, s: u16)
    requires
        c.reorder.contains_key(s),
        c.ahead(s) >= 1,
    ensures
        c.handled(e).inbox.len() >= c.inbox.len(),
        c.handled(e).reorder.contains_key(s) || c.handled(e).inbox.len() > c.inbox.len()
            + c.ahead(s),
{
    if c.ahead(e.sequence) == 0 {
        let next = c.delivered(e.payload);
        lemma_drained_keeps(next, c.reorder.dom().len(), s);
        assert(next.ahead(s) == c.ahead(s) - 1);
    }
}

/// Filling the window awaits a proof of everything it puts in flight, and of what was awaited.
proof fn lemma_filled_awaits(c: ChannelModel, messages: Seq<Seq<u8>>, n: int, now: u64)
    requires
        delivery::sending(c, messages, n),
    ensures
        ({
            let full = c.filled(now);
            let f = messages.len() - full.outgoing.len();
            &&& n <= f <= messages.len()
            &&& forall|s: u16| #[trigger]
                channel::is_outstanding(c.outstanding, s) ==> channel::is_outstanding(
                    full.outstanding,
                    s,
                )
            &&& forall|k: int|
                n <= k < f ==> channel::is_outstanding(
                    full.outstanding,
                    #[trigger] sequence_of(k),
                )
        }),
    decreases c.outgoing.len(),
{
    if c.may_launch() {
        let next = c.launch(now);
        delivery::lemma_launched(c, messages, n, now);
        lemma_filled_awaits(next, messages, n + 1, now);
        let list = c.outstanding;
        let o = next.outstanding;
        if channel::is_outstanding(list, c.send_next) {
            delivery::lemma_first_place(list, c.send_next);
        }
        let at = if channel::is_outstanding(list, c.send_next) {
            channel::place_of(list, c.send_next)
        } else {
            list.len() as int
        };
        assert(o[at].sequence == c.send_next);
        assert(channel::is_outstanding(o, c.send_next));
        assert forall|s: u16| #[trigger] channel::is_outstanding(
            list,
            s,
        ) implies channel::is_outstanding(o, s) by {
            let i = choose|i: int| 0 <= i < list.len() && (#[trigger] list[i]).sequence == s;
            assert(o[i].sequence == s);
        }
        let full = c.filled(now);
        assert forall|k: int|
            n <= k < messages.len() - full.outgoing.len() implies channel::is_outstanding(
            full.outstanding,
            #[trigger] sequence_of(k),
        ) by {
            if k == n {
                assert(sequence_of(k) == c.send_next);
            }
        }
    }
}

/// Transmitting awaits a proof of everything put in flight.
proof fn lemma_transmitted_awaits(p: Pipe, now: u64)
    requires
        faithful(p),
    ensures
        sent(p) <= sent(p.after(Step::Transmit(now))),
        forall|k: int|
            0 <= k < sent(p.after(Step::Transmit(now))) && (k >= sent(p) || awaited(p, k))
                ==> #[trigger] awaited(p.after(Step::Transmit(now)), k),
{
    let q = p.after(Step::Transmit(now));
    let c = p.sender;
    lemma_filled_awaits(c, p.queued, sent(p), now);
    let full = c.filled(now);
    let stamped = q.sender.outstanding;
    assert(stamped.len() == full.outstanding.len());
    assert forall|k: int|
        0 <= k < sent(q) && (k >= sent(p) || awaited(p, k)) implies #[trigger] awaited(q, k) by {
        let s = sequence_of(k);
        assert(channel::is_outstanding(full.outstanding, s));
        let i = choose|i: int|
            0 <= i < full.outstanding.len() && (#[trigger] full.outstanding[i]).sequence == s;
        assert(stamped[i].sequence == s);
    }
}

/// What arrives leaves every message accounted for.
proof fn lemma_arrival_accounts(p: Pipe, i: int)
    requires
        faithful(p),
        0 <= i < p.wire.len(),
    ensures
        accounted(p.after(Step::Arrive(i))),
        p.delivered().len() <= p.after(Step::Arrive(i)).delivered().len(),
{
    let q = p.after(Step::Arrive(i));
    let e = p.wire[i];
    let n = p.delivered().len() as int;
    delivery::lemma_inbox_grows(p.receiver, e);
    assert(q.delivered().len() == n + q.receiver.inbox.len() - p.receiver.inbox.len());
    assert forall|k: int| 0 <= k < sent(q) implies arrived(q, k) || #[trigger] awaited(q, k) by {
        assert(arrived(p, k) || awaited(p, k));
        let s = sequence_of(k);
        if k >= n && p.receiver.reorder.contains_key(s) {
            assert(p.receiver.ahead(s) >= 1);
            lemma_handled_keeps(p.receiver, e, s);
            assert(p.receiver.ahead(s) == k - n) by {
                assert((k % 65536 - n % 65536) % 65536 == (k - n) % 65536);
            }
        }
    }
}

/// A proof that keeps faith leaves every message accounted for.
proof fn lemma_proof_accounts(p: Pipe, sequence: u16, now: u64)
    requires
        faithful(p),
        keeps_faith(p, Step::Proof(sequence, now)),
    ensures
        accounted(p.after(Step::Proof(sequence, now))),
{
    let q = p.after(Step::Proof(sequence, now));
    assert forall|k: int| 0 <= k < sent(q) implies arrived(q, k) || #[trigger] awaited(q, k) by {
        assert(arrived(p, k) || awaited(p, k));
        if !arrived(p, k) {
            assert(sequence_of(k) != sequence);
            delivery::law_a_proof_releases_one_sequence(p.sender, sequence, sequence_of(k), now);
        }
    }
}

/// Transmitting leaves every message accounted for.
proof fn lemma_transmission_accounts(p: Pipe, now: u64)
    requires
        faithful(p),
    ensures
        accounted(p.after(Step::Transmit(now))),
{
    let q = p.after(Step::Transmit(now));
    lemma_transmitted_awaits(p, now);
    assert forall|k: int| 0 <= k < sent(q) implies arrived(q, k) || #[trigger] awaited(q, k) by {
        if k < sent(p) {
            assert(arrived(p, k) || awaited(p, k));
        }
    }
}

/// Queueing and taking messages leaves every message accounted for.
proof fn lemma_applications_account(p: Pipe, message: Seq<u8>)
    requires
        faithful(p),
    ensures
        accounted(p.after(Step::Queue(message))),
        p.receiver.inbox.len() > 0 ==> accounted(p.after(Step::Take))
            && p.after(Step::Take).delivered() == p.delivered(),
{
    let q = p.after(Step::Queue(message));
    assert forall|k: int| 0 <= k < sent(q) implies arrived(q, k) || #[trigger] awaited(q, k) by {
        assert(arrived(p, k) || awaited(p, k));
    }
    if p.receiver.inbox.len() > 0 {
        let t = p.after(Step::Take);
        assert(t.delivered() =~= p.delivered());
        assert forall|k: int| 0 <= k < sent(t) implies arrived(t, k) || #[trigger] awaited(
            t,
            k,
        ) by {
            assert(arrived(p, k) || awaited(p, k));
        }
    }
}

/// Every step that can happen and keeps faith leaves the two ends faithful.
pub proof fn lemma_faithful_step(p: Pipe, step: Step)
    requires
        faithful(p),
        p.allows(step),
        keeps_faith(p, step),
    ensures
        faithful(p.after(step)),
{
    let q = p.after(step);
    let now_sent = delivery::lemma_step(p, sent(p), step);
    assert(now_sent == sent(q));
    match step {
        Step::Queue(message) => {
            lemma_applications_account(p, message);
        },
        Step::Transmit(now) => {
            delivery::law_sequences_stay_distinct(p.sender, 0, now);
            lemma_transmission_accounts(p, now);
        },
        Step::Arrive(i) => {
            lemma_arrival_accounts(p, i);
        },
        Step::Proof(sequence, now) => {
            delivery::law_sequences_stay_distinct(p.sender, sequence, now);
            lemma_proof_accounts(p, sequence, now);
        },
        Step::Take => {
            lemma_applications_account(p, Seq::empty());
        },
    }
}

proof fn lemma_faithful_run(start: Pipe, steps: Seq<Step>)
    requires
        faithful(start),
        start.allows_all(steps),
        keeps_faith_throughout(start, steps),
    ensures
        faithful(start.after_all(steps)),
    decreases steps.len(),
{
    if steps.len() > 0 {
        lemma_faithful_run(start, steps.drop_last());
        lemma_faithful_step(start.after_all(steps.drop_last()), steps.last());
    }
}

/// An idle sender is not mistaken: start a sender and a receiver afresh, let the medium do as it
/// likes with envelopes and proofs as long as no proof is made up, and the moment everything
/// queued has been sent and proven, everything queued has been delivered.
pub proof fn law_an_idle_sender_is_right(
    msgtype: u16,
    window: u32,
    timeout: u64,
    dynamic: bool,
    steps: Seq<Step>,
)
    ensures
        ({
            let fresh = channel::new_channel(msgtype, window, timeout, dynamic);
            let start = delivery::at_rest(fresh);
            let end = start.after_all(steps);
            start.allows_all(steps) && keeps_faith_throughout(start, steps)
                && end.sender.outgoing.len() == 0 && end.sender.outstanding.len() == 0
                ==> end.delivered() == end.queued
        }),
{
    let fresh = channel::new_channel(msgtype, window, timeout, dynamic);
    let start = delivery::at_rest(fresh);
    delivery::lemma_at_rest(msgtype, window, timeout, dynamic);
    assert(faithful(start));
    let end = start.after_all(steps);
    if start.allows_all(steps) && keeps_faith_throughout(start, steps)
        && end.sender.outgoing.len() == 0 && end.sender.outstanding.len() == 0 {
        lemma_faithful_run(start, steps);
        let n = end.delivered().len() as int;
        if n < end.queued.len() {
            assert(!awaited(end, n));
            assert(arrived(end, n));
            assert(end.receiver.ahead(sequence_of(n)) == 0);
        }
        assert(end.queued.take(n) =~= end.queued);
    }
}

} // verus!
