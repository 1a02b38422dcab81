//! What a channel does over a medium that loses nothing: everything queued is delivered, in order,
//! however many messages there are and however often the sequence wraps.
//!
//! The medium works in rounds. In each the sender transmits, every envelope arrives in turn, and
//! the proof of each comes straight back.

use crate::channel;
use crate::channel::{ChannelModel, EnvelopeModel};
use crate::delivery;
use crate::delivery::{Pipe, Step};
use vstd::prelude::*;

verus! {

/// What is so when the first `n` envelopes from place `from` on the wire have arrived and been
/// proved, each in its turn.
pub open spec fn echoed(p: Pipe, from: int, n: nat, now: u64) -> Pipe
    decreases n,
{
    if n == 0 {
        p
    } else {
        let before = echoed(p, from, (n - 1) as nat, now);
        before.after(Step::Arrive(from + n - 1)).after(
            Step::Proof(p.wire[from + n - 1].sequence, now),
        )
    }
}

/// What is so after a round at `now`: the sender transmits, and every envelope arrives and is
/// proved.
pub open spec fn round(p: Pipe, now: u64) -> Pipe {
    echoed(
        p.after(Step::Transmit(now)),
        p.wire.len() as int,
        p.sender.transmits(now).len(),
        now,
    )
}

/// What is so after a round at each of `times`.
pub open spec fn rounds(p: Pipe, times: Seq<u64>) -> Pipe
    decreases times.len(),
{
    if times.len() == 0 {
        p
    } else {
        round(rounds(p, times.drop_last()), times.last())
    }
}

/// Whether a sender can put no two messages in flight that a receiver would take for one another:
/// it sends nothing twice in one go, or not more than half the sequence space.
pub open spec fn paced(c: ChannelModel) -> bool {
    &&& c.window >= 1
    &&& c.retx_timeout > 0 || c.window <= 32768
}

/// Whether everything sent so far has been delivered and proved, and the rest waits in order.
pub open spec fn caught_up(p: Pipe) -> bool {
    let n = p.delivered().len() as int;
    &&& delivery::sending(p.sender, p.queued, n)
    &&& p.sender.outstanding.len() == 0
    &&& paced(p.sender)
    &&& p.receiver.recv_next == n % 65536
    &&& p.receiver.reorder == Map::<u16, Seq<u8>>::empty()
    &&& p.delivered() == p.queued.take(n)
}

/// Filling the window puts the next messages in flight, in order.
pub proof fn lemma_fresh_in_order(c: ChannelModel, messages: Seq<Seq<u8>>, n: int, now: u64)
    requires
        delivery::sending(c, messages, n),
    ensures
        delivery::sending(c.filled(now), messages, n + c.fresh(now).len()),
        forall|i: int|
            0 <= i < c.fresh(now).len() ==> delivery::carries(
                #[trigger] c.fresh(now)[i],
                messages,
                n + i,
            ),
        c.filled(now).window == c.window,
        c.filled(now).retx_timeout == c.retx_timeout,
    decreases c.outgoing.len(),
{
    if c.may_launch() {
        let next = c.launch(now);
        delivery::lemma_launched(c, messages, n, now);
        lemma_fresh_in_order(next, messages, n + 1, now);
        let list = c.fresh(now);
        assert forall|i: int| 0 <= i < list.len() implies delivery::carries(
            #[trigger] list[i],
            messages,
            n + i,
        ) by {
            if i > 0 {
                assert(list[i] == next.fresh(now)[i - 1]);
            }
        }
    }
}

/// Whether one of a list of envelopes has a sequence.
spec fn sent_in(list: Seq<EnvelopeModel>, sequence: u16) -> bool {
    exists|j: int| 0 <= j < list.len() && (#[trigger] list[j]).sequence == sequence
}

/// Whether everything in flight was sent now, in one of a list of envelopes.
spec fn all_sent_in(c: ChannelModel, now: u64, list: Seq<EnvelopeModel>) -> bool {
    forall|x: int|
        0 <= x < c.outstanding.len() ==> (#[trigger] c.outstanding[x]).last_tx == now && sent_in(
            list,
            c.outstanding[x].sequence,
        )
}

/// Filling an idle sender's window puts nothing in flight but the fresh envelopes, all of them
/// sent now.
proof fn lemma_in_flight_is_fresh(c: ChannelModel, now: u64, before: Seq<EnvelopeModel>)
    requires
        all_sent_in(c, now, before),
    ensures
        all_sent_in(c.filled(now), now, before + c.fresh(now)),
    decreases c.outgoing.len(),
{
    if c.may_launch() {
        let next = c.launch(now);
        let more = before.push(c.next_envelope());
        if channel::is_outstanding(c.outstanding, c.send_next) {
            delivery::lemma_first_place(c.outstanding, c.send_next);
        }
        assert forall|x: int| 0 <= x < next.outstanding.len() implies (
        #[trigger] next.outstanding[x]).last_tx == now && sent_in(
            more,
            next.outstanding[x].sequence,
        ) by {
            if x < c.outstanding.len() && next.outstanding[x] == c.outstanding[x] {
                assert(sent_in(before, c.outstanding[x].sequence));
                let j = choose|j: int|
                    0 <= j < before.len() && (#[trigger] before[j]).sequence
                        == c.outstanding[x].sequence;
                assert(more[j].sequence == next.outstanding[x].sequence);
            } else {
                assert(more[before.len() as int].sequence == c.send_next);
            }
        }
        lemma_in_flight_is_fresh(next, now, more);
        assert(more + next.fresh(now) =~= before + c.fresh(now));
    } else {
        assert(before + c.fresh(now) =~= before);
    }
}

/// With a window of at most half the sequence space, filling it puts no more in flight than it has
/// room for.
pub proof fn lemma_fresh_fits_the_window(c: ChannelModel, messages: Seq<Seq<u8>>, n: int, now: u64)
    requires
        delivery::sending(c, messages, n),
        c.window <= 32768,
        c.outstanding.len() <= c.window,
        forall|x: int|
            0 <= x < c.outstanding.len() ==> (#[trigger] c.outstanding[x]).sequence == (n
                - c.outstanding.len() + x) % 65536,
    ensures
        c.outstanding.len() + c.fresh(now).len() <= c.window,
    decreases c.outgoing.len(),
{
    if c.may_launch() {
        let next = c.launch(now);
        let len = c.outstanding.len();
        delivery::lemma_launched(c, messages, n, now);
        assert(!channel::is_outstanding(c.outstanding, c.send_next)) by {
            if channel::is_outstanding(c.outstanding, c.send_next) {
                let x = choose|x: int|
                    0 <= x < len && (#[trigger] c.outstanding[x]).sequence == c.send_next;
                assert((n - len + x) % 65536 == n % 65536);
                assert(false);
            }
        }
        lemma_fresh_fits_the_window(next, messages, n + 1, now);
    }
}

/// What was sent at `now` is not due again at `now`, unless the timeout is nought.
proof fn lemma_nothing_due(c: ChannelModel, now: u64, count: nat)
    requires
        c.retx_timeout > 0,
        count <= c.outstanding.len(),
        forall|x: int|
            0 <= x < c.outstanding.len() ==> (#[trigger] c.outstanding[x]).last_tx == now,
    ensures
        c.resent(now, count).len() == 0,
    decreases count,
{
    if count > 0 {
        lemma_nothing_due(c, now, (count - 1) as nat);
        assert(c.outstanding[count - 1].last_tx == now);
    }
}

/// The sequence of the `i`th message from `n` on.
spec fn nth(n: int, i: int) -> u16 {
    ((n + i) % 65536) as u16
}

/// Whether `sequence` is that of one of the messages `from` to `to`, counted from `n`.
spec fn among(n: int, from: int, to: int, sequence: u16) -> bool {
    exists|j: int| from <= j < to && sequence == #[trigger] nth(n, j)
}

/// Whether everything in flight has the sequence of one of the messages `from` to `to`, counted
/// from `n`.
spec fn all_among(c: ChannelModel, n: int, from: int, to: int) -> bool {
    forall|x: int|
        0 <= x < c.outstanding.len() ==> among(n, from, to, (#[trigger] c.outstanding[x]).sequence)
}

/// What a transmission of a sender that has caught up looks like: the next `fresh` messages, then
/// possibly some of the same sequences again.
proof fn lemma_transmission(p: Pipe, now: u64)
    requires
        caught_up(p),
    ensures
        ({
            let n = p.delivered().len() as int;
            let f = p.sender.fresh(now).len() as int;
            let list = p.sender.transmits(now);
            let after = p.sender.transmitted(now);
            &&& f <= list.len()
            &&& p.sender.outgoing.len() > 0 ==> f > 0
            &&& f <= p.sender.outgoing.len()
            &&& list.len() == f || f <= 32768
            &&& delivery::sending(after, p.queued, n + f)
            &&& delivery::distinct(after.outstanding)
            &&& paced(after)
            &&& forall|i: int|
                0 <= i < f ==> delivery::carries(#[trigger] list[i], p.queued, n + i)
            &&& forall|i: int|
                f <= i < list.len() ==> among(n, 0, f, (#[trigger] list[i]).sequence)
            &&& all_among(after, n, 0, f)
        }),
{
    let c = p.sender;
    let n = p.delivered().len() as int;
    let fresh = c.fresh(now);
    let f = fresh.len() as int;
    let full = c.filled(now);
    let count = full.outstanding.len();
    let after = c.transmitted(now);
    let list = c.transmits(now);
    lemma_fresh_in_order(c, p.queued, n, now);
    lemma_in_flight_is_fresh(c, now, Seq::empty());
    assert(Seq::<EnvelopeModel>::empty() + fresh =~= fresh);
    delivery::law_sequences_stay_distinct(c, 0, now);
    if c.outgoing.len() > 0 {
        assert(c.may_launch());
    }
    assert(all_among(full, n, 0, f)) by {
        assert forall|x: int| 0 <= x < full.outstanding.len() implies among(
            n,
            0,
            f,
            (#[trigger] full.outstanding[x]).sequence,
        ) by {
            assert(sent_in(fresh, full.outstanding[x].sequence));
            let j = choose|j: int|
                0 <= j < fresh.len() && (#[trigger] fresh[j]).sequence
                    == full.outstanding[x].sequence;
            assert(delivery::carries(fresh[j], p.queued, n + j));
            assert(nth(n, j) == full.outstanding[x].sequence);
        }
    }
    if c.retx_timeout > 0 {
        lemma_nothing_due(full, now, count);
    } else {
        lemma_fresh_fits_the_window(c, p.queued, n, now);
    }
    delivery::lemma_resent_is_outstanding(full, now, count);
    assert forall|i: int| f <= i < list.len() implies among(
        n,
        0,
        f,
        (#[trigger] list[i]).sequence,
    ) by {
        let again = full.resent(now, count);
        assert(list[i] == again[i - f]);
        assert(channel::is_outstanding(full.outstanding, again[i - f].sequence));
        let x = choose|x: int|
            0 <= x < full.outstanding.len() && (#[trigger] full.outstanding[x]).sequence
                == again[i - f].sequence;
        assert(among(n, 0, f, full.outstanding[x].sequence));
    }
    assert forall|i: int| 0 <= i < f implies delivery::carries(
        #[trigger] list[i],
        p.queued,
        n + i,
    ) by {
        assert(list[i] == fresh[i]);
    }
    assert(all_among(after, n, 0, f)) by {
        assert forall|x: int| 0 <= x < after.outstanding.len() implies among(
            n,
            0,
            f,
            (#[trigger] after.outstanding[x]).sequence,
        ) by {
            assert(among(n, 0, f, full.outstanding[x].sequence));
        }
    }
    assert forall|x: int| 0 <= x < after.outstanding.len() implies delivery::is_copy(
        #[trigger] after.outstanding[x],
        p.queued,
        n + f,
    ) by {
        assert(delivery::is_copy(full.outstanding[x], p.queued, n + f));
        let k = choose|k: int|
            0 <= k < n + f && full.outstanding[x].sequence == k % 65536
                && full.outstanding[x].payload == #[trigger] p.queued[k];
        assert(after.outstanding[x].payload == p.queued[k]);
    }
}

/// How things stand in a round, `i` envelopes having arrived and been proved.
spec fn echoing(p: Pipe, now: u64, e: Pipe, i: int) -> bool {
    let n = p.delivered().len() as int;
    let f = p.sender.fresh(now).len() as int;
    let done = if i < f {
        i
    } else {
        f
    };
    &&& e.queued == p.queued
    &&& e.wire == p.wire + p.sender.transmits(now)
    &&& e.got == p.got
    &&& e.delivered() == p.queued.take(n + done)
    &&& e.receiver.recv_next == (n + done) % 65536
    &&& e.receiver.reorder == Map::<u16, Seq<u8>>::empty()
    &&& delivery::sending(e.sender, p.queued, n + f)
    &&& delivery::distinct(e.sender.outstanding)
    &&& paced(e.sender)
    &&& all_among(e.sender, n, done, f)
}

/// The next message is delivered, and nothing else happens to the receiver.
proof fn lemma_next_is_delivered(c: ChannelModel, e: EnvelopeModel)
    requires
        c.reorder == Map::<u16, Seq<u8>>::empty(),
        e.sequence == c.recv_next,
    ensures
        c.handled(e) == c.delivered(e.payload),
{
    assert(c.reorder.dom() =~= Set::<u16>::empty());
    assert(c.reorder.dom().len() == 0);
}

/// A proof leaves a sender paced, and takes exactly its own sequence from what is in flight.
proof fn lemma_proof_takes_one(
    c: ChannelModel,
    messages: Seq<Seq<u8>>,
    m: int,
    sequence: u16,
    now: u64,
)
    requires
        delivery::sending(c, messages, m),
        delivery::distinct(c.outstanding),
        paced(c),
    ensures
        ({
            let after = c.proved(sequence, now);
            &&& delivery::sending(after, messages, m)
            &&& delivery::distinct(after.outstanding)
            &&& paced(after)
            &&& forall|x: int|
                0 <= x < after.outstanding.len() ==> (#[trigger] after.outstanding[x]).sequence
                    != sequence && c.outstanding.contains(after.outstanding[x])
        }),
{
    let after = c.proved(sequence, now);
    delivery::lemma_proving(c, messages, m, sequence, now);
    delivery::law_sequences_stay_distinct(c, sequence, now);
    let list = c.outstanding;
    if channel::is_outstanding(list, sequence) {
        delivery::lemma_first_place(list, sequence);
        let at = channel::place_of(list, sequence);
        assert forall|x: int| 0 <= x < after.outstanding.len() implies (
        #[trigger] after.outstanding[x]).sequence != sequence && list.contains(
            after.outstanding[x],
        ) by {
            let y = if x < at { x } else { x + 1 };
            assert(list[y] == after.outstanding[x]);
            assert(list[y].sequence != list[at].sequence);
        }
    } else {
        assert forall|x: int| 0 <= x < after.outstanding.len() implies (
        #[trigger] after.outstanding[x]).sequence != sequence && list.contains(
            after.outstanding[x],
        ) by {
            assert(list[x] == after.outstanding[x]);
        }
    }
}

/// The proof of the next message leaves only later ones in flight.
proof fn lemma_fewer_in_flight(
    c: ChannelModel,
    messages: Seq<Seq<u8>>,
    n: int,
    from: int,
    to: int,
    sequence: u16,
    now: u64,
)
    requires
        delivery::sending(c, messages, n + to),
        delivery::distinct(c.outstanding),
        paced(c),
        all_among(c, n, from, to),
    ensures
        all_among(c.proved(sequence, now), n, from, to),
        sequence == nth(n, from) ==> all_among(c.proved(sequence, now), n, from + 1, to),
{
    let after = c.proved(sequence, now);
    lemma_proof_takes_one(c, messages, n + to, sequence, now);
    assert forall|x: int| 0 <= x < after.outstanding.len() implies among(
        n,
        from,
        to,
        (#[trigger] after.outstanding[x]).sequence,
    ) by {
        assert(c.outstanding.contains(after.outstanding[x]));
    }
    if sequence == nth(n, from) {
        assert forall|x: int| 0 <= x < after.outstanding.len() implies among(
            n,
            from + 1,
            to,
            (#[trigger] after.outstanding[x]).sequence,
        ) by {
            let s = after.outstanding[x].sequence;
            assert(among(n, from, to, s));
            let j = choose|j: int| from <= j < to && s == #[trigger] nth(n, j);
            assert(j != from);
            assert(from + 1 <= j < to && s == nth(n, j));
        }
    }
}

/// A copy of a message that was delivered not long ago changes nothing.
proof fn lemma_copy_is_dropped(c: ChannelModel, e: EnvelopeModel, n: int, f: int)
    requires
        c.recv_next == (n + f) % 65536,
        f <= 32768,
        among(n, 0, f, e.sequence),
    ensures
        c.handled(e) == c,
{
    let j = choose|j: int| 0 <= j < f && e.sequence == #[trigger] nth(n, j);
    assert(c.ahead(e.sequence) == 65536 - (f - j)) by {
        assert(((n + j) % 65536 - (n + f) % 65536) % 65536 == (j - f) % 65536);
    }
}

/// One more envelope of a round arrives and is proved.
proof fn lemma_echo_step(p: Pipe, now: u64, e: Pipe, i: int)
    requires
        caught_up(p),
        0 <= i < p.sender.transmits(now).len(),
        echoing(p, now, e, i),
    ensures
        ({
            let at = p.wire.len() as int + i;
            echoing(
                p,
                now,
                e.after(Step::Arrive(at)).after(Step::Proof(e.wire[at].sequence, now)),
                i + 1,
            )
        }),
{
    let n = p.delivered().len() as int;
    let f = p.sender.fresh(now).len() as int;
    let list = p.sender.transmits(now);
    let at = p.wire.len() as int + i;
    let v = e.wire[at];
    let done = if i < f { i } else { f };
    assert(v == list[i]);
    lemma_transmission(p, now);
    let next = e.after(Step::Arrive(at)).after(Step::Proof(v.sequence, now));
    lemma_proof_takes_one(e.sender, p.queued, n + f, v.sequence, now);
    lemma_fewer_in_flight(e.sender, p.queued, n, done, f, v.sequence, now);
    assert(next.sender == e.sender.proved(v.sequence, now));
    assert(next.receiver == e.receiver.handled(v));
    if i < f {
        assert(delivery::carries(list[i], p.queued, n + i));
        lemma_next_is_delivered(e.receiver, v);
        assert(next.delivered() =~= e.delivered().push(p.queued[n + i]));
        assert(next.delivered() =~= p.queued.take(n + i + 1));
        assert((n + i + 1) % 65536 == channel::next_sequence(e.receiver.recv_next) as int);
        assert(v.sequence == nth(n, i));
    } else {
        lemma_copy_is_dropped(e.receiver, v, n, f);
    }
}

proof fn lemma_echoes(p: Pipe, now: u64, i: nat)
    requires
        caught_up(p),
        i <= p.sender.transmits(now).len(),
    ensures
        echoing(
            p,
            now,
            echoed(p.after(Step::Transmit(now)), p.wire.len() as int, i, now),
            i as int,
        ),
    decreases i,
{
    let q = p.after(Step::Transmit(now));
    if i == 0 {
        lemma_transmission(p, now);
        assert(q.delivered() == p.delivered());
    } else {
        lemma_echoes(p, now, (i - 1) as nat);
        let e = echoed(q, p.wire.len() as int, (i - 1) as nat, now);
        lemma_echo_step(p, now, e, i - 1);
    }
}

/// A round that loses nothing delivers and proves all that it sends, in order, and it sends
/// something as long as something waits.
pub proof fn law_a_lossless_round_delivers_what_it_sends(p: Pipe, now: u64)
    requires
        caught_up(p),
    ensures
        ({
            let q = round(p, now);
            let sent = p.sender.fresh(now).len();
            &&& caught_up(q)
            &&& q.queued == p.queued
            &&& q.got == p.got
            &&& q.delivered().len() == p.delivered().len() + sent
            &&& q.sender.outgoing.len() == p.sender.outgoing.len() - sent
            &&& p.sender.outgoing.len() > 0 ==> sent > 0
        }),
{
    let count = p.sender.transmits(now).len();
    lemma_transmission(p, now);
    lemma_echoes(p, now, count);
    let q = round(p, now);
    assert(q.sender.outstanding.len() == 0) by {
        if q.sender.outstanding.len() > 0 {
            let n = p.delivered().len() as int;
            let f = p.sender.fresh(now).len() as int;
            assert(among(n, f, f, q.sender.outstanding[0].sequence));
        }
    }
}

proof fn lemma_rounds(p: Pipe, times: Seq<u64>)
    requires
        caught_up(p),
    ensures
        ({
            let q = rounds(p, times);
            &&& caught_up(q)
            &&& q.queued == p.queued
            &&& q.got == p.got
            &&& q.sender.outgoing.len() == 0 || q.sender.outgoing.len() + times.len()
                <= p.sender.outgoing.len()
        }),
    decreases times.len(),
{
    if times.len() > 0 {
        lemma_rounds(p, times.drop_last());
        law_a_lossless_round_delivers_what_it_sends(rounds(p, times.drop_last()), times.last());
    }
}

/// Two fresh ends, with `messages` queued to send.
pub open spec fn loaded(fresh: ChannelModel, messages: Seq<Seq<u8>>) -> Pipe {
    Pipe {
        sender: ChannelModel { outgoing: messages, ..fresh },
        queued: messages,
        ..delivery::at_rest(fresh)
    }
}

/// A lossless run delivers everything: queue any number of messages on a fresh channel and let the
/// medium lose nothing. Whenever the sender is idle, the receiver's inbox is exactly what was
/// queued, each message once and in order, across every wrap of the sequence; and the sender is
/// idle after at most as many rounds as there are messages. A channel that resends at once (with a
/// timeout of nought) must keep its window within half the sequence space.
pub proof fn law_a_lossless_run_delivers_everything(
    msgtype: u16,
    window: u32,
    timeout: u64,
    dynamic: bool,
    messages: Seq<Seq<u8>>,
    times: Seq<u64>,
)
    requires
        timeout > 0 || window <= 32768,
    ensures
        ({
            let fresh = channel::new_channel(msgtype, window, timeout, dynamic);
            let end = rounds(loaded(fresh, messages), times);
            &&& end.sender.outgoing.len() == 0 && end.sender.outstanding.len() == 0
                ==> end.receiver.inbox == messages
            &&& times.len() >= messages.len() ==> end.sender.outgoing.len() == 0
                && end.sender.outstanding.len() == 0
        }),
{
    let fresh = channel::new_channel(msgtype, window, timeout, dynamic);
    let start = loaded(fresh, messages);
    assert(start.delivered() =~= Seq::<Seq<u8>>::empty());
    assert(start.queued.take(0) =~= start.delivered());
    assert(messages.skip(0) =~= messages);
    assert(caught_up(start));
    lemma_rounds(start, times);
    let end = rounds(start, times);
    assert(end.delivered() =~= end.receiver.inbox);
    if end.sender.outgoing.len() == 0 {
        assert(messages.take(messages.len() as int) =~= messages);
    }
}

} // verus!
