//! What a channel makes good: an envelope that goes unproven is sent again each time the timeout
//! has passed, for as long as it takes, so that a medium which loses only so many envelopes and
//! proofs loses no message.

use crate::channel;
use crate::channel::{ChannelModel, EnvelopeModel, OutstandingModel};
use crate::delivery;
use crate::delivery::{Pipe, Step};
use crate::honesty;
use crate::lossless;
use vstd::prelude::*;

verus! {

/// Whether one of a list of envelopes has a sequence.
pub open spec fn sent_in(list: Seq<EnvelopeModel>, sequence: u16) -> bool {
    exists|j: int| 0 <= j < list.len() && (#[trigger] list[j]).sequence == sequence
}

/// Filling the window leaves what was in flight in its place, unless its sequence is used anew.
proof fn lemma_fill_keeps_places(c: ChannelModel, now: u64)
    ensures
        ({
            let full = c.filled(now);
            let fresh = c.fresh(now);
            &&& full.outstanding.len() >= c.outstanding.len()
            &&& full.retx_timeout == c.retx_timeout
            &&& full.msgtype == c.msgtype
            &&& full.dynamic == c.dynamic
            &&& forall|x: int|
                0 <= x < full.outstanding.len() ==> sent_in(
                    fresh,
                    (#[trigger] full.outstanding[x]).sequence,
                ) || (x < c.outstanding.len() && full.outstanding[x] == c.outstanding[x])
            &&& forall|x: int|
                0 <= x < c.outstanding.len() ==> (#[trigger] full.outstanding[x]).sequence
                    == c.outstanding[x].sequence
        }),
    decreases c.outgoing.len(),
{
    if c.may_launch() {
        let next = c.launch(now);
        if channel::is_outstanding(c.outstanding, c.send_next) {
            delivery::lemma_first_place(c.outstanding, c.send_next);
        }
        lemma_fill_keeps_places(next, now);
        let full = c.filled(now);
        let fresh = c.fresh(now);
        let later = next.fresh(now);
        assert(fresh[0].sequence == c.send_next);
        assert forall|x: int| 0 <= x < full.outstanding.len() implies sent_in(
            fresh,
            (#[trigger] full.outstanding[x]).sequence,
        ) || (x < c.outstanding.len() && full.outstanding[x] == c.outstanding[x]) by {
            let s = full.outstanding[x].sequence;
            if sent_in(later, s) {
                let j = choose|j: int|
                    0 <= j < later.len() && (#[trigger] later[j]).sequence == s;
                assert(fresh[j + 1].sequence == s);
            } else {
                assert(full.outstanding[x] == next.outstanding[x]);
            }
        }
        assert forall|x: int| 0 <= x < c.outstanding.len() implies (
        #[trigger] full.outstanding[x]).sequence == c.outstanding[x].sequence by {
            assert(next.outstanding[x].sequence == c.outstanding[x].sequence);
        }
    }
}

/// What has waited for the timeout is among what is sent again.
proof fn lemma_overdue_is_resent(c: ChannelModel, now: u64, count: nat, x: int)
    requires
        0 <= x < count <= c.outstanding.len(),
        now >= c.outstanding[x].last_tx + c.retx_timeout,
    ensures
        c.resent(now, count).contains(
            EnvelopeModel {
                msgtype: c.msgtype,
                sequence: c.outstanding[x].sequence,
                payload: c.outstanding[x].payload,
            },
        ),
    decreases count,
{
    let e = EnvelopeModel {
        msgtype: c.msgtype,
        sequence: c.outstanding[x].sequence,
        payload: c.outstanding[x].payload,
    };
    let list = c.resent(now, count);
    let front = c.resent(now, (count - 1) as nat);
    if x == count - 1 {
        assert(list.last() == e);
    } else {
        lemma_overdue_is_resent(c, now, (count - 1) as nat, x);
        let j = choose|j: int| 0 <= j < front.len() && front[j] == e;
        assert(list[j] == e);
    }
}

/// An unproven envelope is sent again once the timeout has passed since it was last sent, however
/// long ago that is: the sender transmits it under its own sequence with its own payload, and has
/// it in flight still, as sent now. (What is left out is an envelope whose sequence the sender
/// uses anew in the same go, a whole sequence space later.)
pub proof fn law_unproven_envelopes_are_sent_again(c: ChannelModel, now: u64, i: int)
    requires
        0 <= i < c.outstanding.len(),
        now >= c.outstanding[i].last_tx + c.retx_timeout,
        !sent_in(c.fresh(now), c.outstanding[i].sequence),
    ensures
        c.transmits(now).contains(
            EnvelopeModel {
                msgtype: c.msgtype,
                sequence: c.outstanding[i].sequence,
                payload: c.outstanding[i].payload,
            },
        ),
        i < c.transmitted(now).outstanding.len(),
        c.transmitted(now).outstanding[i] == (OutstandingModel {
            sequence: c.outstanding[i].sequence,
            payload: c.outstanding[i].payload,
            last_tx: now,
        }),
        c.transmitted(now).retx_timeout == c.retx_timeout,
        c.transmitted(now).msgtype == c.msgtype,
{
    lemma_fill_keeps_places(c, now);
    let full = c.filled(now);
    let count = full.outstanding.len();
    assert(full.outstanding[i].sequence == c.outstanding[i].sequence);
    assert(full.outstanding[i] == c.outstanding[i]);
    lemma_overdue_is_resent(full, now, count, i);
    let e = EnvelopeModel {
        msgtype: c.msgtype,
        sequence: c.outstanding[i].sequence,
        payload: c.outstanding[i].payload,
    };
    let again = full.resent(now, count);
    let j = choose|j: int| 0 <= j < again.len() && again[j] == e;
    assert(c.transmits(now)[c.fresh(now).len() + j] == e);
}

/// Whatever else a sender has to send, everything overdue goes out under its sequence; and where
/// there is nothing new to put in flight, or no room for it, everything overdue goes out as it was.
pub proof fn law_everything_overdue_goes_out(c: ChannelModel, now: u64, i: int)
    requires
        0 <= i < c.outstanding.len(),
        now >= c.outstanding[i].last_tx + c.retx_timeout,
    ensures
        sent_in(c.transmits(now), c.outstanding[i].sequence),
        c.outgoing.len() == 0 || c.outstanding.len() >= c.window ==> c.transmits(now).contains(
            EnvelopeModel {
                msgtype: c.msgtype,
                sequence: c.outstanding[i].sequence,
                payload: c.outstanding[i].payload,
            },
        ),
{
    let s = c.outstanding[i].sequence;
    let fresh = c.fresh(now);
    let list = c.transmits(now);
    if sent_in(fresh, s) {
        let j = choose|j: int| 0 <= j < fresh.len() && (#[trigger] fresh[j]).sequence == s;
        assert(list[j].sequence == s);
    } else {
        law_unproven_envelopes_are_sent_again(c, now, i);
        let e = EnvelopeModel {
            msgtype: c.msgtype,
            sequence: s,
            payload: c.outstanding[i].payload,
        };
        let j = choose|j: int| 0 <= j < list.len() && list[j] == e;
        assert(list[j].sequence == s);
    }
}

/// Nothing is in flight that is due before its time.
proof fn lemma_nothing_early(c: ChannelModel, now: u64, count: nat)
    requires
        count <= c.outstanding.len(),
        c.retx_timeout > 0,
        forall|x: int|
            0 <= x < count ==> now < (#[trigger] c.outstanding[x]).last_tx + c.retx_timeout,
    ensures
        c.resent(now, count).len() == 0,
    decreases count,
{
    if count > 0 {
        lemma_nothing_early(c, now, (count - 1) as nat);
        assert(now < c.outstanding[count - 1].last_tx + c.retx_timeout);
    }
}

/// Nothing is sent again before its time: while everything in flight was last sent less than the
/// timeout ago, a sender with nothing new to put in flight transmits nothing and stays as it is.
pub proof fn law_nothing_is_sent_again_early(c: ChannelModel, now: u64)
    requires
        c.outgoing.len() == 0 || c.outstanding.len() >= c.window,
        c.retx_timeout > 0,
        forall|x: int|
            0 <= x < c.outstanding.len() ==> now < (#[trigger] c.outstanding[x]).last_tx
                + c.retx_timeout,
    ensures
        c.transmits(now).len() == 0,
        c.transmitted(now) == c,
{
    lemma_nothing_early(c, now, c.outstanding.len());
    assert(c.filled(now) == c);
    assert forall|x: int| 0 <= x < c.outstanding.len() implies !c.due(
        #[trigger] c.outstanding[x],
        now,
    ) by {
        assert(now < c.outstanding[x].last_tx + c.retx_timeout);
    }
    assert(c.stamped(now, c.outstanding.len()) =~= c.outstanding);
}

/// The state after transmitting at each of `times`.
pub open spec fn polled(c: ChannelModel, times: Seq<u64>) -> ChannelModel
    decreases times.len(),
{
    if times.len() == 0 {
        c
    } else {
        polled(c, times.drop_last()).transmitted(times.last())
    }
}

/// Whether each of `times` is at least `timeout` after the one before.
pub open spec fn spaced(times: Seq<u64>, timeout: u64) -> bool {
    forall|k: int| 0 < k < times.len() ==> #[trigger] times[k] >= times[k - 1] + timeout
}

proof fn lemma_polled(c: ChannelModel, times: Seq<u64>, i: int)
    requires
        c.outgoing.len() == 0,
        0 <= i < c.outstanding.len(),
        times.len() > 0 ==> times[0] >= c.outstanding[i].last_tx + c.retx_timeout,
        spaced(times, c.retx_timeout),
    ensures
        ({
            let after = polled(c, times);
            &&& after.outgoing.len() == 0
            &&& after.retx_timeout == c.retx_timeout
            &&& after.msgtype == c.msgtype
            &&& i < after.outstanding.len()
            &&& after.outstanding[i].sequence == c.outstanding[i].sequence
            &&& after.outstanding[i].payload == c.outstanding[i].payload
            &&& after.outstanding[i].last_tx == if times.len() == 0 {
                c.outstanding[i].last_tx
            } else {
                times.last()
            }
        }),
    decreases times.len(),
{
    if times.len() > 0 {
        let front = times.drop_last();
        assert forall|k: int| 0 < k < front.len() implies #[trigger] front[k] >= front[k - 1]
            + c.retx_timeout by {
            assert(times[k] >= times[k - 1] + c.retx_timeout);
        }
        lemma_polled(c, front, i);
        let before = polled(c, front);
        let n = times.len() - 1;
        if n > 0 {
            assert(times[n] >= times[n - 1] + c.retx_timeout);
            assert(front.last() == times[n - 1]);
        }
        assert(before.fresh(times.last()).len() == 0);
        law_unproven_envelopes_are_sent_again(before, times.last(), i);
    }
}

/// An unproven envelope goes out at every poll that comes the timeout after the one before, without
/// end: it is never given up.
pub proof fn law_an_unproven_envelope_is_never_given_up(
    c: ChannelModel,
    times: Seq<u64>,
    i: int,
    k: int,
)
    requires
        c.outgoing.len() == 0,
        0 <= i < c.outstanding.len(),
        0 <= k < times.len(),
        times[0] >= c.outstanding[i].last_tx + c.retx_timeout,
        spaced(times, c.retx_timeout),
    ensures
        polled(c, times.take(k)).transmits(times[k]).contains(
            EnvelopeModel {
                msgtype: c.msgtype,
                sequence: c.outstanding[i].sequence,
                payload: c.outstanding[i].payload,
            },
        ),
{
    let front = times.take(k);
    assert forall|j: int| 0 < j < front.len() implies #[trigger] front[j] >= front[j - 1]
        + c.retx_timeout by {
        assert(times[j] >= times[j - 1] + c.retx_timeout);
    }
    lemma_polled(c, front, i);
    let before = polled(c, front);
    if k > 0 {
        assert(times[k] >= times[k - 1] + c.retx_timeout);
        assert(front.last() == times[k - 1]);
    }
    assert(before.fresh(times[k]).len() == 0);
    law_unproven_envelopes_are_sent_again(before, times[k], i);
}

/// Whether the receiver has nothing that was not sent: neither delivered nor held ahead.
pub open spec fn behind(p: Pipe) -> bool {
    let n = p.delivered().len();
    &&& n <= honesty::sent(p)
    &&& forall|s: u16| #[trigger]
        p.receiver.reorder.contains_key(s) ==> n + p.receiver.ahead(s) < honesty::sent(p)
}

/// Whether what arrives in a step is a message that was sent, and comes in time: within half the
/// sequence space of the one that the receiver waits for.
pub open spec fn in_time(p: Pipe, step: Step) -> bool {
    match step {
        Step::Arrive(i) => {
            &&& 0 <= i < p.wire.len()
            &&& exists|k: int| #[trigger]
                delivery::carries(p.wire[i], p.queued, k) && p.delivered().len() - 32768 <= k
                    < p.delivered().len() + 32768 && k < honesty::sent(p)
        },
        Step::Take => p.receiver.inbox.len() > 0,
        _ => true,
    }
}

/// Whether every step of a run comes in time.
pub open spec fn in_time_throughout(start: Pipe, steps: Seq<Step>) -> bool
    decreases steps.len(),
{
    steps.len() == 0 || in_time_throughout(start, steps.drop_last()) && in_time(
        start.after_all(steps.drop_last()),
        steps.last(),
    )
}

/// Delivering what is held ahead delivers only what was held.
proof fn lemma_drained_behind(c: ChannelModel, n: int, top: int, fuel: nat)
    requires
        n <= top,
        forall|s: u16| #[trigger] c.reorder.contains_key(s) ==> n + c.ahead(s) < top,
    ensures
        ({
            let d = c.drained(fuel);
            let m = n + d.inbox.len() - c.inbox.len();
            &&& n <= m <= top
            &&& forall|s: u16| #[trigger] d.reorder.contains_key(s) ==> m + d.ahead(s) < top
        }),
    decreases fuel,
{
    if fuel > 0 && c.reorder.contains_key(c.recv_next) {
        let next = c.pulled();
        assert forall|s: u16| #[trigger] next.reorder.contains_key(s) implies n + 1 + next.ahead(
            s,
        ) < top by {
            assert(c.reorder.contains_key(s));
            assert(next.ahead(s) == c.ahead(s) - 1);
        }
        lemma_drained_behind(next, n + 1, top, (fuel - 1) as nat);
    }
}

/// What arrives in time has arrived, and the receiver has nothing that was not sent.
proof fn lemma_arrival(p: Pipe, i: int, k: int)
    requires
        honesty::faithful(p),
        behind(p),
        0 <= i < p.wire.len(),
        delivery::carries(p.wire[i], p.queued, k),
        p.delivered().len() - 32768 <= k < p.delivered().len() + 32768,
        k < honesty::sent(p),
    ensures
        behind(p.after(Step::Arrive(i))),
        honesty::arrived(p.after(Step::Arrive(i)), k),
        p.delivered().len() <= p.after(Step::Arrive(i)).delivered().len(),
{
    let q = p.after(Step::Arrive(i));
    let e = p.wire[i];
    let c = p.receiver;
    let n = p.delivered().len() as int;
    let top = honesty::sent(p);
    assert(q.delivered().len() == n + q.receiver.inbox.len() - c.inbox.len());
    assert(c.ahead(e.sequence) == (k - n) % 65536) by {
        assert((k % 65536 - n % 65536) % 65536 == (k - n) % 65536);
    }
    if c.ahead(e.sequence) == 0 {
        assert(k == n);
        let next = c.delivered(e.payload);
        assert forall|s: u16| #[trigger] next.reorder.contains_key(s) implies n + 1 + next.ahead(
            s,
        ) < top by {
            assert(c.reorder.contains_key(s));
            assert(c.ahead(s) >= 1);
            assert(next.ahead(s) == c.ahead(s) - 1);
        }
        lemma_drained_behind(next, n + 1, top, c.reorder.dom().len());
    } else if c.ahead(e.sequence) < 32768 {
        assert(k > n);
        assert(honesty::sequence_of(k) == e.sequence);
        assert forall|s: u16| #[trigger] q.receiver.reorder.contains_key(s) implies n
            + q.receiver.ahead(s) < top by {
            if s != e.sequence {
                assert(c.reorder.contains_key(s));
            }
        }
    } else {
        assert(k < n);
    }
}

/// A step in time leaves the receiver with nothing that was not sent.
proof fn lemma_behind_step(p: Pipe, step: Step)
    requires
        honesty::faithful(p),
        behind(p),
        in_time(p, step),
        honesty::keeps_faith(p, step),
    ensures
        p.allows(step),
        honesty::faithful(p.after(step)),
        behind(p.after(step)),
{
    honesty::lemma_faithful_step(p, step);
    let q = p.after(step);
    match step {
        Step::Arrive(i) => {
            let k = choose|k: int| #[trigger]
                delivery::carries(p.wire[i], p.queued, k) && p.delivered().len() - 32768 <= k
                    < p.delivered().len() + 32768 && k < honesty::sent(p);
            lemma_arrival(p, i, k);
        },
        Step::Transmit(now) => {
            lossless::lemma_fresh_in_order(p.sender, p.queued, honesty::sent(p), now);
            assert(honesty::sent(p) <= honesty::sent(q));
            assert(q.delivered() == p.delivered());
        },
        Step::Take => {
            assert(q.delivered() =~= p.delivered());
        },
        _ => {
            assert(q.delivered() == p.delivered());
        },
    }
}

proof fn lemma_behind_run(start: Pipe, steps: Seq<Step>)
    requires
        honesty::faithful(start),
        behind(start),
        in_time_throughout(start, steps),
        honesty::keeps_faith_throughout(start, steps),
    ensures
        honesty::faithful(start.after_all(steps)),
        behind(start.after_all(steps)),
    decreases steps.len(),
{
    if steps.len() > 0 {
        lemma_behind_run(start, steps.drop_last());
        lemma_behind_step(start.after_all(steps.drop_last()), steps.last());
    }
}

/// Whether an envelope carries one of the messages `low` to `high`.
pub open spec fn carries_within(
    e: EnvelopeModel,
    messages: Seq<Seq<u8>>,
    low: int,
    high: int,
) -> bool {
    exists|k: int| low <= k < high && #[trigger] delivery::carries(e, messages, k)
}

/// The envelope of what is in flight.
pub open spec fn envelope_of(c: ChannelModel, o: OutstandingModel) -> EnvelopeModel {
    EnvelopeModel { msgtype: c.msgtype, sequence: o.sequence, payload: o.payload }
}

/// Whether everything in flight carries one of the messages `low` to `high`.
pub open spec fn in_flight_within(
    c: ChannelModel,
    messages: Seq<Seq<u8>>,
    low: int,
    high: int,
) -> bool {
    forall|x: int|
        0 <= x < c.outstanding.len() ==> carries_within(
            envelope_of(c, #[trigger] c.outstanding[x]),
            messages,
            low,
            high,
        )
}

/// Filling the window puts later messages in flight only.
proof fn lemma_filled_within(c: ChannelModel, messages: Seq<Seq<u8>>, n: int, low: int, now: u64)
    requires
        delivery::sending(c, messages, n),
        low <= n,
        in_flight_within(c, messages, low, n),
    ensures
        in_flight_within(c.filled(now), messages, low, n + c.fresh(now).len()),
    decreases c.outgoing.len(),
{
    if c.may_launch() {
        let next = c.launch(now);
        delivery::lemma_launched(c, messages, n, now);
        if channel::is_outstanding(c.outstanding, c.send_next) {
            delivery::lemma_first_place(c.outstanding, c.send_next);
        }
        assert forall|x: int| 0 <= x < next.outstanding.len() implies carries_within(
            envelope_of(next, #[trigger] next.outstanding[x]),
            messages,
            low,
            n + 1,
        ) by {
            let e = envelope_of(next, next.outstanding[x]);
            if x < c.outstanding.len() && next.outstanding[x] == c.outstanding[x] {
                assert(carries_within(envelope_of(c, c.outstanding[x]), messages, low, n));
                let k = choose|k: int| low <= k < n && #[trigger] delivery::carries(e, messages, k);
                assert(delivery::carries(e, messages, k));
            } else {
                assert(e == c.next_envelope());
                assert(delivery::carries(e, messages, n));
            }
        }
        lemma_filled_within(next, messages, n + 1, low, now);
    }
}

/// What is sent again carries what is in flight.
proof fn lemma_resent_within(
    c: ChannelModel,
    messages: Seq<Seq<u8>>,
    low: int,
    high: int,
    now: u64,
    count: nat,
)
    requires
        count <= c.outstanding.len(),
        in_flight_within(c, messages, low, high),
    ensures
        forall|i: int|
            0 <= i < c.resent(now, count).len() ==> carries_within(
                #[trigger] c.resent(now, count)[i],
                messages,
                low,
                high,
            ),
    decreases count,
{
    if count > 0 {
        lemma_resent_within(c, messages, low, high, now, (count - 1) as nat);
        let front = c.resent(now, (count - 1) as nat);
        let list = c.resent(now, count);
        assert forall|i: int| 0 <= i < list.len() implies carries_within(
            #[trigger] list[i],
            messages,
            low,
            high,
        ) by {
            if i < front.len() {
                assert(list[i] == front[i]);
            } else {
                assert(list[i] == envelope_of(c, c.outstanding[count - 1]));
            }
        }
    }
}

/// Whether a sender that transmits at `now` sends nothing that the receiver would mistake: what
/// is in flight then, and what the receiver waits for, lie within half the sequence space.
pub open spec fn in_step(p: Pipe, now: u64) -> bool {
    let low = honesty::sent(p.after(Step::Transmit(now))) - 32768;
    &&& low <= p.delivered().len()
    &&& in_flight_within(p.sender, p.queued, low, honesty::sent(p))
}

/// Whether everything in flight has waited for the timeout at `now`.
pub open spec fn overdue(c: ChannelModel, now: u64) -> bool {
    forall|x: int|
        0 <= x < c.outstanding.len() ==> now >= (#[trigger] c.outstanding[x]).last_tx
            + c.retx_timeout
}

/// What a transmission past the timeout sends: everything in flight afterwards, and only messages
/// within half the sequence space.
proof fn lemma_transmission(p: Pipe, now: u64)
    requires
        honesty::faithful(p),
        behind(p),
        in_step(p, now),
        overdue(p.sender, now),
    ensures
        ({
            let list = p.sender.transmits(now);
            let after = p.sender.transmitted(now);
            let top = honesty::sent(p.after(Step::Transmit(now)));
            &&& top == honesty::sent(p) + p.sender.fresh(now).len()
            &&& forall|i: int|
                0 <= i < list.len() ==> carries_within(
                    #[trigger] list[i],
                    p.queued,
                    top - 32768,
                    top,
                )
            &&& forall|x: int|
                0 <= x < after.outstanding.len() ==> sent_in(
                    list,
                    (#[trigger] after.outstanding[x]).sequence,
                )
        }),
{
    let c = p.sender;
    let n = honesty::sent(p);
    let fresh = c.fresh(now);
    let full = c.filled(now);
    let count = full.outstanding.len();
    let list = c.transmits(now);
    let after = c.transmitted(now);
    let top = honesty::sent(p.after(Step::Transmit(now)));
    lossless::lemma_fresh_in_order(c, p.queued, n, now);
    assert(full.outgoing == p.queued.skip(n + fresh.len()));
    assert(top == n + fresh.len());
    let low = top - 32768;
    lemma_filled_within(c, p.queued, n, low, now);
    lemma_resent_within(full, p.queued, low, top, now, count);
    let again = full.resent(now, count);
    assert forall|i: int| 0 <= i < list.len() implies carries_within(
        #[trigger] list[i],
        p.queued,
        low,
        top,
    ) by {
        if i < fresh.len() {
            assert(list[i] == fresh[i]);
            assert(delivery::carries(fresh[i], p.queued, n + i));
        } else {
            assert(list[i] == again[i - fresh.len()]);
        }
    }
    lemma_fill_keeps_places(c, now);
    assert forall|x: int| 0 <= x < after.outstanding.len() implies sent_in(
        list,
        (#[trigger] after.outstanding[x]).sequence,
    ) by {
        let s = full.outstanding[x].sequence;
        assert(after.outstanding[x].sequence == s);
        if sent_in(fresh, s) {
            let j = choose|j: int| 0 <= j < fresh.len() && (#[trigger] fresh[j]).sequence == s;
            assert(list[j].sequence == s);
        } else {
            assert(full.outstanding[x] == c.outstanding[x]);
            lemma_overdue_is_resent(full, now, count, x);
            let e = envelope_of(full, full.outstanding[x]);
            let j = choose|j: int| 0 <= j < again.len() && again[j] == e;
            assert(list[fresh.len() + j].sequence == s);
        }
    }
}

/// How things stand in a round, `i` of the envelopes it sent having arrived and been proved.
spec fn echoing(p: Pipe, now: u64, e: Pipe, i: int) -> bool {
    let q = p.after(Step::Transmit(now));
    let list = p.sender.transmits(now);
    &&& honesty::faithful(e)
    &&& behind(e)
    &&& e.queued == p.queued
    &&& e.wire == q.wire
    &&& e.got == p.got
    &&& e.sender.outgoing == q.sender.outgoing
    &&& delivery::window_in_bounds(e.sender)
    &&& e.sender.dynamic == q.sender.dynamic
    &&& !e.sender.dynamic ==> e.sender.window == q.sender.window
    &&& forall|s: u16| #[trigger]
        channel::is_outstanding(e.sender.outstanding, s) ==> channel::is_outstanding(
            q.sender.outstanding,
            s,
        )
    &&& forall|j: int|
        0 <= j < i ==> !channel::is_outstanding(
            e.sender.outstanding,
            (#[trigger] list[j]).sequence,
        )
}

/// A proof leaves the settings of a sender, and what waits to be sent.
proof fn lemma_proof_keeps_settings(c: ChannelModel, sequence: u16, now: u64)
    requires
        delivery::window_in_bounds(c),
    ensures
        delivery::window_in_bounds(c.proved(sequence, now)),
        c.proved(sequence, now).dynamic == c.dynamic,
        c.proved(sequence, now).outgoing == c.outgoing,
        !c.dynamic ==> c.proved(sequence, now).window == c.window,
{
    let e = EnvelopeModel { msgtype: 0, sequence: 0, payload: Seq::empty() };
    delivery::law_the_window_stays_in_bounds(c, 0, e, sequence, now);
}

/// Only one message within half the sequence space has a sequence.
proof fn lemma_one_in_half(a: int, b: int, low: int)
    requires
        low <= a < low + 32768,
        low <= b < low + 32768,
        a % 65536 == b % 65536,
    ensures
        a == b,
{
}

/// One more envelope of a round arrives and is proved.
proof fn lemma_echo_step(p: Pipe, now: u64, e: Pipe, i: int)
    requires
        honesty::faithful(p),
        behind(p),
        in_step(p, now),
        overdue(p.sender, now),
        0 <= i < p.sender.transmits(now).len(),
        echoing(p, now, e, i),
    ensures
        ({
            let at = p.wire.len() as int + i;
            echoing(
                p,
                now,
                e.after(Step::Arrive(at)).after(Step::Proof(e.wire[at].sequence, now)),
                i + 1,
            )
        }),
{
    lemma_transmission(p, now);
    let q = p.after(Step::Transmit(now));
    let list = p.sender.transmits(now);
    let at = p.wire.len() as int + i;
    let top = honesty::sent(q);
    let v = e.wire[at];
    assert(v == list[i]);
    assert(carries_within(list[i], p.queued, top - 32768, top));
    let k = choose|k: int|
        top - 32768 <= k < top && #[trigger] delivery::carries(v, p.queued, k);
    assert(delivery::carries(e.wire[at], e.queued, k));
    assert(honesty::sent(e) == top);
    assert(e.delivered().len() <= top <= e.delivered().len() + 32768);
    assert(at < e.wire.len());
    assert(e.delivered().len() - 32768 <= k < e.delivered().len() + 32768 && k < top);
    assert(in_time(e, Step::Arrive(at)));
    lemma_behind_step(e, Step::Arrive(at));
    lemma_arrival(e, at, k);
    let a = e.after(Step::Arrive(at));
    let proof_step = Step::Proof(v.sequence, now);
    assert(honesty::keeps_faith(a, proof_step)) by {
        assert forall|m: int|
            0 <= m < honesty::sent(a) && honesty::sent(a) - 32768 <= m
                && #[trigger] honesty::sequence_of(m) == v.sequence implies honesty::arrived(
            a,
            m,
        ) by {
            lemma_one_in_half(m, k, top - 32768);
        }
    }
    lemma_behind_step(a, proof_step);
    let z = a.after(proof_step);
    delivery::lemma_handling_keeps_outstanding(e.receiver, v);
    lemma_proof_keeps_settings(a.sender, v.sequence, now);
    assert forall|s: u16| #[trigger] channel::is_outstanding(
        z.sender.outstanding,
        s,
    ) implies channel::is_outstanding(q.sender.outstanding, s) by {
        if s != v.sequence {
            delivery::law_a_proof_releases_one_sequence(a.sender, v.sequence, s, now);
        } else {
            delivery::law_a_proof_releases_one_sequence(
                a.sender,
                v.sequence,
                channel::next_sequence(s),
                now,
            );
        }
        assert(channel::is_outstanding(e.sender.outstanding, s));
    }
    assert forall|j: int| 0 <= j < i + 1 implies !channel::is_outstanding(
        z.sender.outstanding,
        (#[trigger] list[j]).sequence,
    ) by {
        let s = list[j].sequence;
        if s != v.sequence {
            delivery::law_a_proof_releases_one_sequence(a.sender, v.sequence, s, now);
        } else {
            delivery::law_a_proof_releases_one_sequence(
                a.sender,
                v.sequence,
                channel::next_sequence(s),
                now,
            );
        }
    }
}

proof fn lemma_echoes(p: Pipe, now: u64, i: nat)
    requires
        honesty::faithful(p),
        behind(p),
        in_step(p, now),
        overdue(p.sender, now),
        delivery::window_in_bounds(p.sender),
        i <= p.sender.transmits(now).len(),
    ensures
        echoing(
            p,
            now,
            lossless::echoed(p.after(Step::Transmit(now)), p.wire.len() as int, i, now),
            i as int,
        ),
    decreases i,
{
    let q = p.after(Step::Transmit(now));
    if i == 0 {
        lemma_behind_step(p, Step::Transmit(now));
        let e = EnvelopeModel { msgtype: 0, sequence: 0, payload: Seq::empty() };
        delivery::law_the_window_stays_in_bounds(p.sender, 0, e, 0, now);
    } else {
        lemma_echoes(p, now, (i - 1) as nat);
        let e = lossless::echoed(q, p.wire.len() as int, (i - 1) as nat, now);
        lemma_echo_step(p, now, e, i - 1);
        assert(e.wire[p.wire.len() + i - 1].sequence == q.wire[p.wire.len() + i - 1].sequence);
    }
}

/// One clean round makes every loss good. Let a sender and a receiver be in any state that a medium
/// can bring them to without making anything up; let everything in flight have waited for the
/// timeout, and lie within half the sequence space of what is sent next. If of one transmission
/// nothing is lost, then everything sent so far is delivered, and nothing is left in flight.
pub proof fn law_one_clean_round_makes_losses_good(p: Pipe, now: u64)
    requires
        honesty::faithful(p),
        behind(p),
        in_step(p, now),
        overdue(p.sender, now),
        delivery::window_in_bounds(p.sender),
    ensures
        ({
            let q = lossless::round(p, now);
            let sent = p.sender.fresh(now).len();
            &&& honesty::faithful(q)
            &&& behind(q)
            &&& delivery::window_in_bounds(q.sender)
            &&& q.queued == p.queued
            &&& q.sender.outstanding.len() == 0
            &&& q.sender.outgoing.len() == p.sender.outgoing.len() - sent
            &&& q.delivered() == q.queued.take(honesty::sent(q))
            &&& q.sender.dynamic == p.sender.dynamic
            &&& !p.sender.dynamic ==> q.sender.window == p.sender.window
        }),
{
    let list = p.sender.transmits(now);
    let t = p.after(Step::Transmit(now));
    lemma_transmission(p, now);
    lemma_echoes(p, now, list.len());
    let q = lossless::round(p, now);
    assert(echoing(p, now, q, list.len() as int));
    if q.sender.outstanding.len() > 0 {
        let s = q.sender.outstanding[0].sequence;
        assert(channel::is_outstanding(q.sender.outstanding, s));
        assert(channel::is_outstanding(t.sender.outstanding, s));
        let x = choose|x: int|
            0 <= x < t.sender.outstanding.len() && (#[trigger] t.sender.outstanding[x]).sequence
                == s;
        assert(sent_in(list, t.sender.outstanding[x].sequence));
        let j = choose|j: int| 0 <= j < list.len() && (#[trigger] list[j]).sequence == s;
        assert(!channel::is_outstanding(q.sender.outstanding, list[j].sequence));
    }
    let n = q.delivered().len() as int;
    if n < honesty::sent(q) {
        assert(!honesty::awaited(q, n));
        assert(honesty::arrived(q, n));
        assert(q.receiver.ahead(honesty::sequence_of(n)) == 0);
    }
    let e = EnvelopeModel { msgtype: 0, sequence: 0, payload: Seq::empty() };
    delivery::law_the_window_stays_in_bounds(p.sender, 0, e, 0, now);
    lemma_fill_keeps_places(p.sender, now);
}

/// Whether a sender's window is open, and within half the sequence space.
pub open spec fn measured(c: ChannelModel) -> bool {
    delivery::window_in_bounds(c) && 1 <= c.window <= 32768
}

proof fn lemma_measured_run(start: Pipe, steps: Seq<Step>)
    requires
        measured(start.sender),
    ensures
        measured(start.after_all(steps).sender),
    decreases steps.len(),
{
    if steps.len() > 0 {
        lemma_measured_run(start, steps.drop_last());
        let c = start.after_all(steps.drop_last()).sender;
        let e = EnvelopeModel { msgtype: 0, sequence: 0, payload: Seq::empty() };
        match steps.last() {
            Step::Transmit(now) => {
                delivery::law_the_window_stays_in_bounds(c, 0, e, 0, now);
                lemma_fill_keeps_places(c, now);
            },
            Step::Proof(sequence, now) => {
                lemma_proof_keeps_settings(c, sequence, now);
            },
            _ => {},
        }
    }
}

/// A sender with nothing in flight, whose messages have all been delivered, is in step.
proof fn lemma_caught_up_is_in_step(p: Pipe, now: u64)
    requires
        honesty::faithful(p),
        p.sender.outstanding.len() == 0,
        p.delivered().len() == honesty::sent(p),
        measured(p.sender),
    ensures
        in_step(p, now),
        overdue(p.sender, now),
        p.sender.outgoing.len() > 0 ==> p.sender.fresh(now).len() > 0,
{
    let c = p.sender;
    let n = honesty::sent(p);
    lossless::lemma_fresh_in_order(c, p.queued, n, now);
    lossless::lemma_fresh_fits_the_window(c, p.queued, n, now);
    assert(c.filled(now).outgoing == p.queued.skip(n + c.fresh(now).len()));
    if c.outgoing.len() > 0 {
        assert(c.may_launch());
    }
}

/// Clean rounds deliver what is left, at least a message each.
proof fn lemma_clean_rounds(p: Pipe, times: Seq<u64>)
    requires
        honesty::faithful(p),
        behind(p),
        measured(p.sender),
        times.len() > 0,
        in_step(p, times[0]),
        overdue(p.sender, times[0]),
    ensures
        ({
            let q = lossless::rounds(p, times);
            &&& honesty::faithful(q)
            &&& behind(q)
            &&& measured(q.sender)
            &&& q.queued == p.queued
            &&& q.sender.outstanding.len() == 0
            &&& q.delivered() == q.queued.take(honesty::sent(q))
            &&& q.sender.outgoing.len() == 0 || q.sender.outgoing.len() + times.len()
                <= p.sender.outgoing.len() + 1
            &&& q.sender.outgoing.len() <= p.sender.outgoing.len()
        }),
    decreases times.len(),
{
    let front = times.drop_last();
    if front.len() == 0 {
        assert(lossless::rounds(p, front) == p);
        law_one_clean_round_makes_losses_good(p, times.last());
    } else {
        lemma_clean_rounds(p, front);
        let r = lossless::rounds(p, front);
        assert(r.delivered().len() == honesty::sent(r));
        lemma_caught_up_is_in_step(r, times.last());
        law_one_clean_round_makes_losses_good(r, times.last());
    }
}

/// No message is lost over a medium that loses only so much. Start a sender and a receiver afresh
/// and let the medium do as it likes for as long as it likes: lose, repeat, delay and reorder
/// envelopes and proofs, but make none up. When it loses nothing any more, and the sender is
/// polled once the timeout has passed, that poll delivers everything put in flight so far; and as
/// many more polls as messages still wait, at any time, deliver those. Then the receiver has
/// exactly what was queued, in order, and the sender waits for nothing.
///
/// The window has to be within half the sequence space, and so do the messages in flight when the
/// medium recovers: one that is further back than that would be taken for a later one.
pub proof fn law_every_loss_is_made_good(
    msgtype: u16,
    window: u32,
    timeout: u64,
    dynamic: bool,
    steps: Seq<Step>,
    times: Seq<u64>,
)
    requires
        window <= 32768,
        dynamic ==> channel::WINDOW_MIN <= window <= channel::WINDOW_MAX,
        times.len() > 0,
        ({
            let start = delivery::at_rest(
                channel::new_channel(msgtype, window, timeout, dynamic),
            );
            let mid = start.after_all(steps);
            &&& in_time_throughout(start, steps)
            &&& honesty::keeps_faith_throughout(start, steps)
            &&& in_step(mid, times[0])
            &&& forall|x: int|
                0 <= x < mid.sender.outstanding.len() ==> times[0] >= (
                #[trigger] mid.sender.outstanding[x]).last_tx + mid.sender.retx_timeout
        }),
    ensures
        ({
            let start = delivery::at_rest(
                channel::new_channel(msgtype, window, timeout, dynamic),
            );
            let mid = start.after_all(steps);
            let end = lossless::rounds(mid, times);
            &&& end.sender.outstanding.len() == 0
            &&& end.delivered() == mid.queued.take(end.delivered().len() as int)
            &&& end.delivered().len() >= mid.queued.len() - mid.sender.outgoing.len()
            &&& times.len() > mid.sender.outgoing.len() ==> end.delivered() == mid.queued
                && end.sender.outgoing.len() == 0
        }),
{
    let fresh = channel::new_channel(msgtype, window, timeout, dynamic);
    let start = delivery::at_rest(fresh);
    delivery::lemma_at_rest(msgtype, window, timeout, dynamic);
    lemma_behind_run(start, steps);
    lemma_measured_run(start, steps);
    let mid = start.after_all(steps);
    lemma_clean_rounds(mid, times);
    let end = lossless::rounds(mid, times);
    if end.sender.outgoing.len() == 0 {
        assert(mid.queued.take(mid.queued.len() as int) =~= mid.queued);
    }
}

} // verus!
