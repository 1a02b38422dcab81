//! What a channel promises end to end: messages come out in the order they went in, each
//! once, whatever the medium drops, repeats, delays, or reorders.

use crate::buffer::BufferModel;
use crate::bytes;
use crate::channel;
use crate::channel::{ChannelModel, EnvelopeModel, OutstandingModel};
use vstd::prelude::*;

verus! {

/// Whether an envelope carries message `k` of `messages`.
pub open spec fn carries(e: EnvelopeModel, messages: Seq<Seq<u8>>, k: int) -> bool {
    &&& 0 <= k < messages.len()
    &&& e.sequence == k % 65536
    &&& e.payload == messages[k]
}

/// Whether what a receiver holds ahead is right, `n` messages having been delivered: each
/// held payload is the message that its distance ahead says, from `least` ahead on.
pub open spec fn holds_ahead(
    c: ChannelModel,
    messages: Seq<Seq<u8>>,
    n: int,
    least: int,
) -> bool {
    forall|s: u16| #[trigger]
        c.reorder.contains_key(s) ==> {
            &&& least <= c.ahead(s) < 32768
            &&& n + c.ahead(s) < messages.len()
            &&& c.reorder[s] == messages[n + c.ahead(s)]
        }
}

/// Whether a receiver has delivered exactly the first `n` of `messages` so far, and holds
/// later ones ahead of a gap.
pub open spec fn receiving(c: ChannelModel, messages: Seq<Seq<u8>>, n: int) -> bool {
    &&& 0 <= n <= messages.len()
    &&& c.recv_next == n % 65536
    &&& c.reorder.dom().finite()
    &&& holds_ahead(c, messages, n, 1)
}

/// Moving on by one message brings what is ahead nearer by one.
proof fn lemma_ahead_steps(r: u16, s: u16)
    ensures
        (s - channel::next_sequence(r)) % 65536 == if (s - r) % 65536 == 0 {
            65535
        } else {
            (s - r) % 65536 - 1
        },
{
}

/// Delivering the held messages that have become next keeps everything in order.
proof fn lemma_drained(c: ChannelModel, messages: Seq<Seq<u8>>, n: int, fuel: nat) -> (m: int)
    requires
        0 <= n <= messages.len(),
        c.recv_next == n % 65536,
        c.reorder.dom().finite(),
        c.reorder.dom().len() <= fuel,
        holds_ahead(c, messages, n, 0),
    ensures
        n <= m,
        receiving(c.drained(fuel), messages, m),
        c.drained(fuel).inbox == c.inbox + messages.subrange(n, m),
    decreases fuel,
{
    let r = c.recv_next;
    if fuel > 0 && c.reorder.contains_key(r) {
        let next = c.pulled();
        assert(c.ahead(r) == 0);
        assert(next.reorder.dom() =~= c.reorder.dom().remove(r));
        assert((n + 1) % 65536 == channel::next_sequence(r) as int);
        assert forall|s: u16| #[trigger] next.reorder.contains_key(s) implies 0 <= next.ahead(s)
            < 32768 && n + 1 + next.ahead(s) < messages.len() && next.reorder[s] == messages[n + 1
            + next.ahead(s)] by {
            assert(c.reorder.contains_key(s));
            lemma_ahead_steps(r, s);
            assert(c.ahead(s) != 0);
        }
        let m = lemma_drained(next, messages, n + 1, (fuel - 1) as nat);
        assert(c.inbox.push(messages[n]) + messages.subrange(n + 1, m) =~= c.inbox
            + messages.subrange(n, m));
        m
    } else {
        assert(!c.reorder.contains_key(r)) by {
            if c.reorder.contains_key(r) {
                assert(c.reorder.dom().contains(r));
                assert(c.reorder.dom().len() > 0) by {
                    if c.reorder.dom().len() == 0 {
                        assert(c.reorder.dom() =~= Set::empty());
                    }
                }
            }
        }
        assert forall|s: u16| #[trigger] c.reorder.contains_key(s) implies 1 <= c.ahead(s) by {
            assert(s != r);
        }
        assert(c.inbox + messages.subrange(n, n) =~= c.inbox);
        n
    }
}

/// Messages are delivered in order, each once. A receiver that has delivered the first `n`
/// messages, and is given any of the messages within half the sequence space of there (again,
/// late, or early), afterwards has delivered the first `m`, for some `m` no less than `n`: its
/// inbox has grown by exactly the messages from `n` to `m`.
pub proof fn law_delivery_is_in_order(
    c: ChannelModel,
    messages: Seq<Seq<u8>>,
    n: int,
    e: EnvelopeModel,
    k: int,
)
    requires
        receiving(c, messages, n),
        carries(e, messages, k),
        n - 32768 <= k < n + 32768,
    ensures
        exists|m: int|
            n <= m && #[trigger] receiving(c.handled(e), messages, m) && c.handled(e).inbox
                == c.inbox + messages.subrange(n, m),
{
    let after = c.handled(e);
    let ahead = c.ahead(e.sequence);
    assert(ahead == (k - n) % 65536) by {
        assert((k % 65536 - n % 65536) % 65536 == (k - n) % 65536);
    }
    if ahead == 0 {
        assert(k == n);
        let next = c.delivered(e.payload);
        assert((n + 1) % 65536 == channel::next_sequence(c.recv_next) as int);
        assert forall|s: u16| #[trigger] next.reorder.contains_key(s) implies 0 <= next.ahead(s)
            < 32768 && n + 1 + next.ahead(s) < messages.len() && next.reorder[s] == messages[n + 1
            + next.ahead(s)] by {
            assert(c.reorder.contains_key(s));
            lemma_ahead_steps(c.recv_next, s);
        }
        let m = lemma_drained(next, messages, n + 1, c.reorder.dom().len());
        assert(c.inbox.push(messages[n]) + messages.subrange(n + 1, m) =~= c.inbox
            + messages.subrange(n, m));
        assert(receiving(after, messages, m));
    } else {
        if ahead < 32768 {
            assert(k == n + ahead);
        }
        assert forall|s: u16| #[trigger] after.reorder.contains_key(s) implies 1 <= after.ahead(s)
            < 32768 && n + after.ahead(s) < messages.len() && after.reorder[s] == messages[n
            + after.ahead(s)] by {
            if s != e.sequence {
                assert(c.reorder.contains_key(s));
            } else if c.reorder.contains_key(s) {
            } else {
                assert(ahead < 32768);
            }
        }
        assert(after.reorder.dom().finite());
        assert(c.inbox + messages.subrange(n, n) =~= c.inbox);
        assert(receiving(after, messages, n));
    }
}

/// The message that a receiver waits for is delivered as soon as it comes in.
pub proof fn law_the_next_message_is_delivered(
    c: ChannelModel,
    messages: Seq<Seq<u8>>,
    n: int,
    e: EnvelopeModel,
)
    requires
        receiving(c, messages, n),
        carries(e, messages, n),
    ensures
        exists|m: int|
            n < m && #[trigger] receiving(c.handled(e), messages, m) && c.handled(e).inbox
                == c.inbox + messages.subrange(n, m),
{
    let next = c.delivered(e.payload);
    assert(c.ahead(e.sequence) == 0);
    assert((n + 1) % 65536 == channel::next_sequence(c.recv_next) as int);
    assert forall|s: u16| #[trigger] next.reorder.contains_key(s) implies 0 <= next.ahead(s)
        < 32768 && n + 1 + next.ahead(s) < messages.len() && next.reorder[s] == messages[n + 1
        + next.ahead(s)] by {
        assert(c.reorder.contains_key(s));
        lemma_ahead_steps(c.recv_next, s);
    }
    let m = lemma_drained(next, messages, n + 1, c.reorder.dom().len());
    assert(c.inbox.push(messages[n]) + messages.subrange(n + 1, m) =~= c.inbox
        + messages.subrange(n, m));
    assert(receiving(c.handled(e), messages, m));
}

/// Whether an outstanding envelope carries one of the first `n` of `messages`.
pub open spec fn is_copy(o: OutstandingModel, messages: Seq<Seq<u8>>, n: int) -> bool {
    exists|k: int|
        0 <= k < n && o.sequence == k % 65536 && o.payload == #[trigger] messages[k]
}

/// Whether a sender has put the first `n` of `messages` in flight, the rest wait in order,
/// and what is outstanding carries messages already put in flight.
pub open spec fn sending(c: ChannelModel, messages: Seq<Seq<u8>>, n: int) -> bool {
    &&& 0 <= n <= messages.len()
    &&& c.send_next == n % 65536
    &&& c.outgoing == messages.skip(n)
    &&& forall|i: int|
        0 <= i < c.outstanding.len() ==> is_copy(#[trigger] c.outstanding[i], messages, n)
}

/// Whether an envelope carries one of the first `n` of `messages`.
pub open spec fn carries_one(e: EnvelopeModel, messages: Seq<Seq<u8>>, n: int) -> bool {
    exists|k: int| 0 <= k < n && #[trigger] carries(e, messages, k)
}

/// Every envelope of a list carries one of the first `n` of `messages`.
pub open spec fn all_carry(list: Seq<EnvelopeModel>, messages: Seq<Seq<u8>>, n: int) -> bool {
    forall|i: int| 0 <= i < list.len() ==> carries_one(#[trigger] list[i], messages, n)
}

/// Putting the next message in flight leaves the rest waiting in order.
pub proof fn lemma_launched(c: ChannelModel, messages: Seq<Seq<u8>>, n: int, now: u64)
    requires
        sending(c, messages, n),
        c.may_launch(),
    ensures
        sending(c.launch(now), messages, n + 1),
        carries(c.next_envelope(), messages, n),
{
    let next = c.launch(now);
    let o = OutstandingModel { sequence: c.send_next, payload: c.outgoing[0], last_tx: now };
    if channel::is_outstanding(c.outstanding, c.send_next) {
        lemma_first_place(c.outstanding, c.send_next);
    }
    assert(c.outgoing[0] == messages[n]);
    assert(next.outgoing =~= messages.skip(n + 1));
    assert(is_copy(o, messages, n + 1)) by {
        assert(o.payload == messages[n]);
    }
    assert forall|i: int| 0 <= i < next.outstanding.len() implies is_copy(
        #[trigger] next.outstanding[i],
        messages,
        n + 1,
    ) by {
        if next.outstanding[i] != o {
            assert(is_copy(c.outstanding[i], messages, n));
            assert(next.outstanding[i] == c.outstanding[i]);
            let k = choose|k: int|
                0 <= k < n && c.outstanding[i].sequence == k % 65536 && c.outstanding[i].payload
                    == #[trigger] messages[k];
            assert(next.outstanding[i].payload == messages[k]);
        }
    }
}

/// Filling the window puts the next messages in flight, each under its own sequence.
proof fn lemma_filled(c: ChannelModel, messages: Seq<Seq<u8>>, n: int, now: u64) -> (m: int)
    requires
        sending(c, messages, n),
    ensures
        n <= m,
        sending(c.filled(now), messages, m),
        all_carry(c.fresh(now), messages, m),
    decreases c.outgoing.len(),
{
    if c.may_launch() {
        let next = c.launch(now);
        lemma_launched(c, messages, n, now);
        let m = lemma_filled(next, messages, n + 1, now);
        let list = c.fresh(now);
        assert forall|i: int| 0 <= i < list.len() implies carries_one(
            #[trigger] list[i],
            messages,
            m,
        ) by {
            if i == 0 {
                assert(carries(list[0], messages, n));
            } else {
                assert(list[i] == next.fresh(now)[i - 1]);
                assert(carries_one(next.fresh(now)[i - 1], messages, m));
            }
        }
        m
    } else {
        n
    }
}

/// Sending again repeats what is outstanding.
proof fn lemma_resent(c: ChannelModel, messages: Seq<Seq<u8>>, n: int, now: u64, count: nat)
    requires
        sending(c, messages, n),
        count <= c.outstanding.len(),
    ensures
        all_carry(c.resent(now, count), messages, n),
    decreases count,
{
    if count > 0 {
        lemma_resent(c, messages, n, now, (count - 1) as nat);
        let list = c.resent(now, count);
        let o = c.outstanding[count - 1];
        assert(is_copy(o, messages, n));
        let k = choose|k: int|
            0 <= k < n && o.sequence == k % 65536 && o.payload == #[trigger] messages[k];
        assert forall|i: int| 0 <= i < list.len() implies carries_one(
            #[trigger] list[i],
            messages,
            n,
        ) by {
            let front = c.resent(now, (count - 1) as nat);
            if i < front.len() {
                assert(list[i] == front[i]);
                assert(carries_one(front[i], messages, n));
            } else {
                assert(carries(list[i], messages, k));
            }
        }
    }
}

/// What goes on the wire is what was queued: every envelope that a sender transmits carries a
/// message that was queued, under that message's sequence, and messages are put in flight in
/// the order they were queued.
pub proof fn law_transmissions_carry_queued_messages(
    c: ChannelModel,
    messages: Seq<Seq<u8>>,
    n: int,
    now: u64,
)
    requires
        sending(c, messages, n),
    ensures
        exists|m: int|
            n <= m && #[trigger] sending(c.transmitted(now), messages, m) && all_carry(
                c.transmits(now),
                messages,
                m,
            ),
{
    let m = lemma_filled(c, messages, n, now);
    let full = c.filled(now);
    let count = full.outstanding.len();
    lemma_resent(full, messages, m, now, count);
    let after = c.transmitted(now);
    assert forall|i: int| 0 <= i < after.outstanding.len() implies is_copy(
        #[trigger] after.outstanding[i],
        messages,
        m,
    ) by {
        assert(is_copy(full.outstanding[i], messages, m));
        let k = choose|k: int|
            0 <= k < m && full.outstanding[i].sequence == k % 65536 && full.outstanding[i].payload
                == #[trigger] messages[k];
        assert(after.outstanding[i].payload == messages[k]);
    }
    let list = c.transmits(now);
    assert forall|i: int| 0 <= i < list.len() implies carries_one(
            #[trigger] list[i],
            messages,
            m,
        ) by {
        if i < c.fresh(now).len() {
            assert(list[i] == c.fresh(now)[i]);
            assert(carries_one(c.fresh(now)[i], messages, m));
        } else {
            let j = i - c.fresh(now).len();
            assert(list[i] == full.resent(now, count)[j]);
            assert(carries_one(full.resent(now, count)[j], messages, m));
        }
    }
    assert(sending(after, messages, m));
}

/// No sequence is outstanding twice.
pub open spec fn distinct(list: Seq<OutstandingModel>) -> bool {
    forall|i: int, j: int|
        0 <= i < j < list.len() ==> (#[trigger] list[i]).sequence != (
        #[trigger] list[j]).sequence
}

/// What occurs somewhere has a first place.
pub proof fn lemma_first_place(list: Seq<OutstandingModel>, sequence: u16)
    requires
        channel::is_outstanding(list, sequence),
    ensures
        channel::holds(list, sequence, channel::place_of(list, sequence)),
    decreases list.len(),
{
    let i = choose|i: int| 0 <= i < list.len() && (#[trigger] list[i]).sequence == sequence;
    lemma_least(list, sequence, i);
}

proof fn lemma_least(list: Seq<OutstandingModel>, sequence: u16, i: int)
    requires
        0 <= i < list.len(),
        list[i].sequence == sequence,
    ensures
        exists|p: int| #[trigger] channel::holds(list, sequence, p),
    decreases i,
{
    if exists|j: int| 0 <= j < i && (#[trigger] list[j]).sequence == sequence {
        let j = choose|j: int| 0 <= j < i && (#[trigger] list[j]).sequence == sequence;
        lemma_least(list, sequence, j);
    } else {
        assert(channel::holds(list, sequence, i));
    }
}

/// Putting an envelope in flight keeps sequences apart.
proof fn lemma_launch_keeps_distinct(c: ChannelModel, now: u64)
    requires
        distinct(c.outstanding),
    ensures
        distinct(c.launch(now).outstanding),
{
    let list = c.outstanding;
    let s = c.send_next;
    let after = c.launch(now).outstanding;
    if channel::is_outstanding(list, s) {
        lemma_first_place(list, s);
    }
    assert forall|i: int, j: int| 0 <= i < j < after.len() implies (#[trigger] after[i]).sequence
        != (#[trigger] after[j]).sequence by {
        if channel::is_outstanding(list, s) {
            assert(list[i].sequence != list[j].sequence);
        } else if j < list.len() {
            assert(list[i].sequence != list[j].sequence);
        } else {
            assert(list[i].sequence != s);
        }
    }
}

proof fn lemma_fill_keeps_distinct(c: ChannelModel, now: u64)
    requires
        distinct(c.outstanding),
    ensures
        distinct(c.filled(now).outstanding),
    decreases c.outgoing.len(),
{
    if c.may_launch() {
        lemma_launch_keeps_distinct(c, now);
        lemma_fill_keeps_distinct(c.launch(now), now);
    }
}

/// A sequence is outstanding at most once, before and after every operation.
pub proof fn law_sequences_stay_distinct(c: ChannelModel, sequence: u16, now: u64)
    requires
        distinct(c.outstanding),
    ensures
        distinct(c.transmitted(now).outstanding),
        distinct(c.proved(sequence, now).outstanding),
{
    lemma_fill_keeps_distinct(c, now);
    let full = c.filled(now);
    let after = c.transmitted(now).outstanding;
    assert forall|i: int, j: int| 0 <= i < j < after.len() implies (#[trigger] after[i]).sequence
        != (#[trigger] after[j]).sequence by {
        assert(full.outstanding[i].sequence != full.outstanding[j].sequence);
    }
    let list = c.outstanding;
    if channel::is_outstanding(list, sequence) {
        lemma_first_place(list, sequence);
        let p = channel::place_of(list, sequence);
        let rest = c.proved(sequence, now).outstanding;
        assert forall|i: int, j: int| 0 <= i < j < rest.len() implies (
        #[trigger] rest[i]).sequence != (#[trigger] rest[j]).sequence by {
            let a = if i < p { i } else { i + 1 };
            let b = if j < p { j } else { j + 1 };
            assert(list[a].sequence != list[b].sequence);
        }
    }
}

/// A proof releases exactly the sequence it names: that one is no longer outstanding, every
/// other still is, and a proof of a sequence that is not outstanding changes nothing.
pub proof fn law_a_proof_releases_one_sequence(
    c: ChannelModel,
    sequence: u16,
    other: u16,
    now: u64,
)
    requires
        distinct(c.outstanding),
        other != sequence,
    ensures
        !channel::is_outstanding(c.proved(sequence, now).outstanding, sequence),
        channel::is_outstanding(c.proved(sequence, now).outstanding, other)
            == channel::is_outstanding(c.outstanding, other),
        !channel::is_outstanding(c.outstanding, sequence) ==> c.proved(sequence, now) == c,
{
    let list = c.outstanding;
    let rest = c.proved(sequence, now).outstanding;
    if channel::is_outstanding(list, sequence) {
        lemma_first_place(list, sequence);
        let p = channel::place_of(list, sequence);
        if channel::is_outstanding(rest, sequence) {
            let i = choose|i: int| 0 <= i < rest.len() && (#[trigger] rest[i]).sequence == sequence;
            let a = if i < p { i } else { i + 1 };
            assert(list[a] == rest[i]);
            assert(list[a].sequence == list[p].sequence);
        }
        if channel::is_outstanding(list, other) {
            let i = choose|i: int| 0 <= i < list.len() && (#[trigger] list[i]).sequence == other;
            let a = if i < p { i } else { i - 1 };
            assert(rest[a] == list[i]);
            assert(rest[a].sequence == other);
        }
        if channel::is_outstanding(rest, other) {
            let i = choose|i: int| 0 <= i < rest.len() && (#[trigger] rest[i]).sequence == other;
            let a = if i < p { i } else { i + 1 };
            assert(list[a] == rest[i]);
            assert(list[a].sequence == other);
        }
    }
}

/// Putting an envelope in flight awaits a proof of it, and of what was awaited before.
proof fn lemma_launch_awaits(c: ChannelModel, now: u64)
    requires
        c.may_launch(),
    ensures
        channel::is_outstanding(c.launch(now).outstanding, c.send_next),
        forall|s: u16| #[trigger]
            channel::is_outstanding(c.outstanding, s) ==> channel::is_outstanding(
                c.launch(now).outstanding,
                s,
            ),
{
    let list = c.outstanding;
    let o = c.launch(now).outstanding;
    if channel::is_outstanding(list, c.send_next) {
        lemma_first_place(list, c.send_next);
    }
    let at = if channel::is_outstanding(list, c.send_next) {
        channel::place_of(list, c.send_next)
    } else {
        list.len() as int
    };
    assert(o[at].sequence == c.send_next);
    assert forall|s: u16| #[trigger] channel::is_outstanding(
        list,
        s,
    ) implies channel::is_outstanding(o, s) by {
        let i = choose|i: int| 0 <= i < list.len() && (#[trigger] list[i]).sequence == s;
        assert(o[i].sequence == s);
    }
}

proof fn lemma_fill_awaits(c: ChannelModel, now: u64)
    ensures
        forall|s: u16| #[trigger]
            channel::is_outstanding(c.outstanding, s) ==> channel::is_outstanding(
                c.filled(now).outstanding,
                s,
            ),
        forall|i: int|
            0 <= i < c.fresh(now).len() ==> channel::is_outstanding(
                c.filled(now).outstanding,
                (#[trigger] c.fresh(now)[i]).sequence,
            ),
    decreases c.outgoing.len(),
{
    if c.may_launch() {
        let next = c.launch(now);
        lemma_launch_awaits(c, now);
        lemma_fill_awaits(next, now);
        let list = c.fresh(now);
        assert forall|i: int| 0 <= i < list.len() implies channel::is_outstanding(
            c.filled(now).outstanding,
            (#[trigger] list[i]).sequence,
        ) by {
            if i > 0 {
                assert(list[i] == next.fresh(now)[i - 1]);
            }
        }
    }
}

/// What is sent again is outstanding.
pub proof fn lemma_resent_is_outstanding(c: ChannelModel, now: u64, count: nat)
    requires
        count <= c.outstanding.len(),
    ensures
        forall|i: int|
            0 <= i < c.resent(now, count).len() ==> channel::is_outstanding(
                c.outstanding,
                (#[trigger] c.resent(now, count)[i]).sequence,
            ),
    decreases count,
{
    if count > 0 {
        lemma_resent_is_outstanding(c, now, (count - 1) as nat);
        let front = c.resent(now, (count - 1) as nat);
        let list = c.resent(now, count);
        assert forall|i: int| 0 <= i < list.len() implies channel::is_outstanding(
            c.outstanding,
            (#[trigger] list[i]).sequence,
        ) by {
            if i < front.len() {
                assert(list[i] == front[i]);
            } else {
                assert(c.outstanding[count - 1].sequence == list[i].sequence);
            }
        }
    }
}

/// What a sender transmits is outstanding afterwards, and so is what was outstanding before.
pub proof fn lemma_transmits_are_outstanding(c: ChannelModel, now: u64)
    ensures
        forall|s: u16| #[trigger]
            channel::is_outstanding(c.outstanding, s) ==> channel::is_outstanding(
                c.transmitted(now).outstanding,
                s,
            ),
        forall|i: int|
            0 <= i < c.transmits(now).len() ==> channel::is_outstanding(
                c.transmitted(now).outstanding,
                (#[trigger] c.transmits(now)[i]).sequence,
            ),
{
    let full = c.filled(now);
    let count = full.outstanding.len();
    let after = c.transmitted(now).outstanding;
    lemma_fill_awaits(c, now);
    lemma_resent_is_outstanding(full, now, count);
    assert forall|s: u16| #[trigger] channel::is_outstanding(
        full.outstanding,
        s,
    ) implies channel::is_outstanding(after, s) by {
        let i = choose|i: int|
            0 <= i < full.outstanding.len() && (#[trigger] full.outstanding[i]).sequence == s;
        assert(after[i].sequence == s);
    }
    assert forall|s: u16| #[trigger] channel::is_outstanding(
        c.outstanding,
        s,
    ) implies channel::is_outstanding(after, s) by {
        assert(channel::is_outstanding(full.outstanding, s));
    }
    let list = c.transmits(now);
    assert forall|i: int| 0 <= i < list.len() implies channel::is_outstanding(
        after,
        (#[trigger] list[i]).sequence,
    ) by {
        if i < c.fresh(now).len() {
            assert(list[i] == c.fresh(now)[i]);
            assert(channel::is_outstanding(full.outstanding, list[i].sequence));
        } else {
            let j = i - c.fresh(now).len();
            assert(list[i] == full.resent(now, count)[j]);
            assert(channel::is_outstanding(full.outstanding, list[i].sequence));
        }
    }
}

/// What comes in changes nothing about what is outstanding.
pub proof fn lemma_handling_keeps_outstanding(c: ChannelModel, e: EnvelopeModel)
    ensures
        c.handled(e).outstanding == c.outstanding,
{
    lemma_drain_keeps_outstanding(c.delivered(e.payload), c.reorder.dom().len());
}

proof fn lemma_drain_keeps_outstanding(c: ChannelModel, fuel: nat)
    ensures
        c.drained(fuel).outstanding == c.outstanding,
    decreases fuel,
{
    if fuel > 0 && c.reorder.contains_key(c.recv_next) {
        lemma_drain_keeps_outstanding(c.pulled(), (fuel - 1) as nat);
    }
}

/// Whether the reader of a byte stream has been given `got`, and `got` with the bytes that wait
/// to be read is exactly what the first `n` messages hold.
pub open spec fn reading(b: BufferModel, messages: Seq<Seq<u8>>, n: int, got: Seq<u8>) -> bool {
    &&& receiving(b.channel, messages, n)
    &&& got + b.available() == bytes::joined(messages.take(n))
}

/// Bytes are delivered in order, each once: what an envelope adds to the bytes that a reader is
/// given is exactly what the messages it unblocks hold.
pub proof fn law_bytes_are_delivered_in_order(
    b: BufferModel,
    messages: Seq<Seq<u8>>,
    n: int,
    got: Seq<u8>,
    e: EnvelopeModel,
    k: int,
)
    requires
        reading(b, messages, n, got),
        carries(e, messages, k),
        n - 32768 <= k < n + 32768,
    ensures
        exists|m: int|
            n <= m && #[trigger] reading(
                BufferModel { channel: b.channel.handled(e), ..b },
                messages,
                m,
                got,
            ),
{
    law_delivery_is_in_order(b.channel, messages, n, e, k);
    let c = b.channel.handled(e);
    let m = choose|m: int|
        n <= m && #[trigger] receiving(c, messages, m) && c.inbox == b.channel.inbox
            + messages.subrange(n, m);
    let after = BufferModel { channel: c, ..b };
    let more = messages.subrange(n, m);
    bytes::lemma_joined_concat(b.channel.inbox, more);
    bytes::lemma_joined_concat(messages.take(n), more);
    assert(messages.take(n) + more =~= messages.take(m));
    assert(got + after.available() =~= (got + b.available()) + bytes::joined(more));
    assert(reading(after, messages, m, got));
}

/// Reading takes the bytes that wait and nothing else: afterwards the reader has them, and none
/// wait.
pub proof fn law_reading_takes_what_waits(
    b: BufferModel,
    messages: Seq<Seq<u8>>,
    n: int,
    got: Seq<u8>,
)
    requires
        reading(b, messages, n, got),
    ensures
        reading(
            BufferModel { read_buf: Seq::empty(), ..b.filled() },
            messages,
            n,
            got + b.available(),
        ),
{
    let after = BufferModel { read_buf: Seq::empty(), ..b.filled() };
    assert(bytes::joined(Seq::<Seq<u8>>::empty()) =~= Seq::<u8>::empty());
    assert(after.available() =~= Seq::<u8>::empty());
    assert((got + b.available()) + after.available() =~= got + b.available());
}

/// What a reader has been given is always a prefix of what the writer wrote, when the messages
/// are the chunks of the writer's bytes.
pub proof fn law_the_reader_has_a_prefix(
    b: BufferModel,
    data: Seq<u8>,
    size: nat,
    n: int,
    got: Seq<u8>,
)
    requires
        size > 0,
        reading(b, bytes::chunks(data, size), n, got),
    ensures
        got.is_prefix_of(data),
        n == bytes::chunks(data, size).len() ==> got + b.available() == data,
{
    let messages = bytes::chunks(data, size);
    bytes::law_chunks_join(data, size);
    bytes::lemma_joined_concat(messages.take(n), messages.skip(n));
    assert(messages.take(n) + messages.skip(n) =~= messages);
    let all = got + b.available();
    assert(data == all + bytes::joined(messages.skip(n)));
    assert(got =~= data.take(got.len() as int));
    if n == messages.len() {
        assert(messages.take(n) =~= messages);
    }
}

/// Whether a dynamic window is within its bounds.
pub open spec fn window_in_bounds(c: ChannelModel) -> bool {
    c.dynamic ==> channel::WINDOW_MIN <= c.window <= channel::WINDOW_MAX
}

proof fn lemma_fill_keeps_settings(c: ChannelModel, now: u64)
    ensures
        c.filled(now).window == c.window,
        c.filled(now).dynamic == c.dynamic,
        c.filled(now).rtt == c.rtt,
        c.filled(now).outstanding.len() <= if c.outstanding.len() > c.window {
            c.outstanding.len()
        } else {
            c.window as nat
        },
    decreases c.outgoing.len(),
{
    if c.may_launch() {
        if channel::is_outstanding(c.outstanding, c.send_next) {
            lemma_first_place(c.outstanding, c.send_next);
        }
        lemma_fill_keeps_settings(c.launch(now), now);
    }
}

/// A dynamic window never leaves its bounds, and a fixed one never moves.
pub proof fn law_the_window_stays_in_bounds(
    c: ChannelModel,
    msgtype: u16,
    e: EnvelopeModel,
    sequence: u16,
    now: u64,
)
    requires
        window_in_bounds(c),
    ensures
        window_in_bounds(
            channel::new_channel(
                msgtype,
                channel::WINDOW_INITIAL,
                channel::DEFAULT_RETX_TIMEOUT,
                true,
            ),
        ),
        window_in_bounds(c.transmitted(now)),
        window_in_bounds(c.proved(sequence, now)),
        window_in_bounds(c.handled(e)),
        !c.dynamic ==> c.transmitted(now).window == c.window && c.proved(sequence, now).window
            == c.window,
{
    lemma_fill_keeps_settings(c, now);
    lemma_drain_keeps_settings(c.delivered(e.payload), c.reorder.dom().len());
}

/// A retransmit narrows a dynamic window and never widens it: transmitting leaves the window as
/// it was or narrower, it narrows the window exactly when something was sent again and the window
/// was above its floor, and it does so by no more than the step and to no less than the floor.
pub proof fn law_a_retransmit_never_widens_the_window(c: ChannelModel, now: u64)
    ensures
        ({
            let full = c.filled(now);
            let again = full.resent(now, full.outstanding.len()).len() > 0;
            let floor = if c.tier_min() > channel::WINDOW_MIN {
                c.tier_min()
            } else {
                channel::WINDOW_MIN
            };
            let after = c.transmitted(now).window;
            &&& after <= c.window
            &&& after < c.window <==> c.dynamic && again && c.window > floor
            &&& after + channel::WINDOW_FLEXIBILITY >= c.window
            &&& after < c.window ==> after >= floor
        }),
{
    lemma_fill_keeps_settings(c, now);
}

proof fn lemma_drain_keeps_settings(c: ChannelModel, fuel: nat)
    ensures
        c.drained(fuel).window == c.window,
        c.drained(fuel).dynamic == c.dynamic,
    decreases fuel,
{
    if fuel > 0 && c.reorder.contains_key(c.recv_next) {
        lemma_drain_keeps_settings(c.pulled(), (fuel - 1) as nat);
    }
}

/// No more envelopes are put in flight than the window has room for.
pub proof fn law_in_flight_is_bounded_by_the_window(c: ChannelModel, now: u64)
    requires
        c.outstanding.len() <= c.window,
    ensures
        c.transmitted(now).outstanding.len() <= c.window,
{
    lemma_fill_keeps_settings(c, now);
}

/// Two ends of a channel, the medium between them, and what has passed through.
#[verifier::ext_equal]
pub struct Pipe {
    pub sender: ChannelModel,
    pub receiver: ChannelModel,
    /// Every message queued to send so far.
    pub queued: Seq<Seq<u8>>,
    /// Every envelope put on the wire so far. The medium may deliver any of them at any time,
    /// never, or many times.
    pub wire: Seq<EnvelopeModel>,
    /// Every message that the receiving application has taken so far.
    pub got: Seq<Seq<u8>>,
}

/// One thing that happens.
pub enum Step {
    /// The sending application queues a message.
    Queue(Seq<u8>),
    /// The sender transmits at some time.
    Transmit(u64),
    /// An envelope that was once put on the wire arrives.
    Arrive(int),
    /// A proof of some sequence reaches the sender at some time, genuine or not.
    Proof(u16, u64),
    /// The receiving application takes the next message.
    Take,
}

impl Pipe {
    /// What has been delivered: taken, or waiting to be.
    pub open spec fn delivered(self) -> Seq<Seq<u8>> {
        self.got + self.receiver.inbox
    }

    /// Whether a step can happen: an envelope that arrives was sent, and it is not off by half
    /// the sequence space or more from what the receiver waits for.
    pub open spec fn allows(self, step: Step) -> bool {
        match step {
            Step::Arrive(i) => {
                &&& 0 <= i < self.wire.len()
                &&& exists|k: int| #[trigger]
                    carries(self.wire[i], self.queued, k) && self.delivered().len() - 32768 <= k
                        < self.delivered().len() + 32768
            },
            Step::Take => self.receiver.inbox.len() > 0,
            _ => true,
        }
    }

    /// What is so after a step.
    pub open spec fn after(self, step: Step) -> Pipe {
        match step {
            Step::Queue(message) => Pipe {
                sender: ChannelModel {
                    outgoing: self.sender.outgoing.push(message),
                    ..self.sender
                },
                queued: self.queued.push(message),
                ..self
            },
            Step::Transmit(now) => Pipe {
                sender: self.sender.transmitted(now),
                wire: self.wire + self.sender.transmits(now),
                ..self
            },
            Step::Arrive(i) => Pipe { receiver: self.receiver.handled(self.wire[i]), ..self },
            Step::Proof(sequence, now) => Pipe {
                sender: self.sender.proved(sequence, now),
                ..self
            },
            Step::Take => Pipe {
                receiver: ChannelModel {
                    inbox: self.receiver.inbox.skip(1),
                    ..self.receiver
                },
                got: self.got.push(self.receiver.inbox[0]),
                ..self
            },
        }
    }

    /// What is so after a run of steps.
    pub open spec fn after_all(self, steps: Seq<Step>) -> Pipe
        decreases steps.len(),
    {
        if steps.len() == 0 {
            self
        } else {
            self.after_all(steps.drop_last()).after(steps.last())
        }
    }

    /// Whether every step of a run can happen in its turn.
    pub open spec fn allows_all(self, steps: Seq<Step>) -> bool
        decreases steps.len(),
    {
        steps.len() == 0 || self.allows_all(steps.drop_last()) && self.after_all(
            steps.drop_last(),
        ).allows(steps.last())
    }

    /// Whether the ends are as they should be, with `sent` messages put in flight: the sender
    /// and the wire hold messages that were queued, and what was delivered is the front of them.
    pub open spec fn in_order(self, sent: int) -> bool {
        &&& sending(self.sender, self.queued, sent)
        &&& all_carry(self.wire, self.queued, sent)
        &&& receiving(self.receiver, self.queued, self.delivered().len() as int)
        &&& self.delivered() == self.queued.take(self.delivered().len() as int)
    }
}

/// Queueing one more message changes nothing about those queued before.
proof fn lemma_queueing(p: Pipe, sent: int, message: Seq<u8>)
    requires
        p.in_order(sent),
    ensures
        p.after(Step::Queue(message)).in_order(sent),
{
    let q = p.after(Step::Queue(message));
    assert(q.sender.outgoing =~= q.queued.skip(sent));
    assert forall|i: int| 0 <= i < q.sender.outstanding.len() implies is_copy(
        #[trigger] q.sender.outstanding[i],
        q.queued,
        sent,
    ) by {
        let o = p.sender.outstanding[i];
        assert(is_copy(o, p.queued, sent));
        let k = choose|k: int|
            0 <= k < sent && o.sequence == k % 65536 && o.payload == #[trigger] p.queued[k];
        assert(q.queued[k] == p.queued[k]);
    }
    assert forall|i: int| 0 <= i < q.wire.len() implies carries_one(
        #[trigger] q.wire[i],
        q.queued,
        sent,
    ) by {
        assert(carries_one(p.wire[i], p.queued, sent));
        let k = choose|k: int| 0 <= k < sent && #[trigger] carries(p.wire[i], p.queued, k);
        assert(carries(q.wire[i], q.queued, k));
    }
    let n = p.delivered().len() as int;
    assert(q.queued.take(n) =~= p.queued.take(n));
    assert forall|s: u16| #[trigger] q.receiver.reorder.contains_key(s) implies 1
        <= q.receiver.ahead(s) < 32768 && n + q.receiver.ahead(s) < q.queued.len()
        && q.receiver.reorder[s] == q.queued[n + q.receiver.ahead(s)] by {
        assert(p.receiver.reorder.contains_key(s));
    }
}

/// A proof, genuine or not, only takes from what is outstanding.
pub proof fn lemma_proving(c: ChannelModel, messages: Seq<Seq<u8>>, n: int, sequence: u16, now: u64)
    requires
        sending(c, messages, n),
    ensures
        sending(c.proved(sequence, now), messages, n),
{
    let list = c.outstanding;
    let after = c.proved(sequence, now);
    if channel::is_outstanding(list, sequence) {
        lemma_first_place(list, sequence);
        let p = channel::place_of(list, sequence);
        assert forall|i: int| 0 <= i < after.outstanding.len() implies is_copy(
            #[trigger] after.outstanding[i],
            messages,
            n,
        ) by {
            let a = if i < p { i } else { i + 1 };
            assert(after.outstanding[i] == list[a]);
            assert(is_copy(list[a], messages, n));
        }
    }
}

/// Every step that can happen keeps the two ends in order.
pub proof fn lemma_step(p: Pipe, sent: int, step: Step) -> (now_sent: int)
    requires
        p.in_order(sent),
        p.allows(step),
    ensures
        p.after(step).in_order(now_sent),
{
    let q = p.after(step);
    let n = p.delivered().len() as int;
    match step {
        Step::Queue(message) => {
            lemma_queueing(p, sent, message);
            sent
        },
        Step::Transmit(now) => {
            law_transmissions_carry_queued_messages(p.sender, p.queued, sent, now);
            let m = choose|m: int|
                sent <= m && #[trigger] sending(p.sender.transmitted(now), p.queued, m)
                    && all_carry(p.sender.transmits(now), p.queued, m);
            let more = p.sender.transmits(now);
            assert forall|i: int| 0 <= i < q.wire.len() implies carries_one(
                #[trigger] q.wire[i],
                q.queued,
                m,
            ) by {
                if i < p.wire.len() {
                    assert(q.wire[i] == p.wire[i]);
                    assert(carries_one(p.wire[i], p.queued, sent));
                } else {
                    assert(q.wire[i] == more[i - p.wire.len()]);
                    assert(carries_one(more[i - p.wire.len()], p.queued, m));
                }
            }
            m
        },
        Step::Arrive(i) => {
            let k = choose|k: int| #[trigger]
                carries(p.wire[i], p.queued, k) && n - 32768 <= k < n + 32768;
            law_delivery_is_in_order(p.receiver, p.queued, n, p.wire[i], k);
            let m = choose|m: int|
                n <= m && #[trigger] receiving(q.receiver, p.queued, m) && q.receiver.inbox
                    == p.receiver.inbox + p.queued.subrange(n, m);
            assert(q.delivered() =~= p.delivered() + p.queued.subrange(n, m));
            assert(p.queued.take(n) + p.queued.subrange(n, m) =~= p.queued.take(m));
            sent
        },
        Step::Proof(sequence, now) => {
            lemma_proving(p.sender, p.queued, sent, sequence, now);
            sent
        },
        Step::Take => {
            assert(q.delivered() =~= p.delivered());
            sent
        },
    }
}

/// Two fresh ends, and nothing passed between them yet.
pub open spec fn at_rest(fresh: ChannelModel) -> Pipe {
    Pipe {
        sender: fresh,
        receiver: fresh,
        queued: Seq::empty(),
        wire: Seq::empty(),
        got: Seq::empty(),
    }
}

/// Fresh ends are in order.
pub proof fn lemma_at_rest(msgtype: u16, window: u32, timeout: u64, dynamic: bool)
    ensures
        at_rest(channel::new_channel(msgtype, window, timeout, dynamic)).in_order(0),
        at_rest(channel::new_channel(msgtype, window, timeout, dynamic)).delivered().len() == 0,
{
    let fresh = channel::new_channel(msgtype, window, timeout, dynamic);
    let start = at_rest(fresh);
    assert(start.delivered() =~= Seq::<Seq<u8>>::empty());
    assert(start.queued.take(0) =~= start.delivered());
    assert(start.queued.skip(0) =~= fresh.outgoing);
}

/// What is delivered stays delivered, whatever arrives.
pub proof fn lemma_inbox_grows(c: ChannelModel, e: EnvelopeModel)
    ensures
        c.handled(e).inbox.len() >= c.inbox.len(),
{
    lemma_drain_grows(c.delivered(e.payload), c.reorder.dom().len());
}

proof fn lemma_drain_grows(c: ChannelModel, fuel: nat)
    ensures
        c.drained(fuel).inbox.len() >= c.inbox.len(),
    decreases fuel,
{
    if fuel > 0 && c.reorder.contains_key(c.recv_next) {
        lemma_drain_grows(c.pulled(), (fuel - 1) as nat);
    }
}

/// The channel is reliable and in order over any medium: start a sender and a receiver afresh,
/// and let the medium lose, repeat, delay and reorder envelopes and proofs as it likes, by less
/// than half the sequence space. At every moment the messages delivered are exactly the first so
/// many of those queued.
pub proof fn law_every_run_delivers_in_order(
    msgtype: u16,
    window: u32,
    timeout: u64,
    dynamic: bool,
    steps: Seq<Step>,
)
    ensures
        ({
            let start = at_rest(channel::new_channel(msgtype, window, timeout, dynamic));
            let end = start.after_all(steps);
            start.allows_all(steps) ==> end.delivered() == end.queued.take(
                end.delivered().len() as int,
            ) && end.delivered().len() <= end.queued.len()
        }),
{
    let start = at_rest(channel::new_channel(msgtype, window, timeout, dynamic));
    lemma_at_rest(msgtype, window, timeout, dynamic);
    if start.allows_all(steps) {
        let sent = lemma_run(start, steps);
    }
}

proof fn lemma_run(start: Pipe, steps: Seq<Step>) -> (sent: int)
    requires
        start.in_order(0),
        start.allows_all(steps),
    ensures
        start.after_all(steps).in_order(sent),
    decreases steps.len(),
{
    if steps.len() == 0 {
        0
    } else {
        let before = lemma_run(start, steps.drop_last());
        lemma_step(start.after_all(steps.drop_last()), before, steps.last())
    }
}

} // verus!
