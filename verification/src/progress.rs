//! Why a resource transfer ends: every packet that is delivered brings the end nearer.
//!
//! Two numbers measure how far there is to go. The first counts what the receiver still lacks: map
//! hashes to learn and parts to hold. The second weighs the packets under way that bring nothing
//! new, and the requests for them. A delivery lowers the first, or leaves it and lowers the second.

use crate::completion;
use crate::completion::{Delivery, Published, Transfer};
use crate::link;
use crate::link::{CTX_RESOURCE, CTX_RESOURCE_REQ};
use crate::packet::PacketModel;
use crate::resource;
use crate::resource::IncomingModel;
use crate::resource_transfer::{AnswerModel, ReceiverModel, ReplyModel, SenderModel};
use vstd::prelude::*;

verus! {

/// Whether a part is one that the receiver knows of and lacks.
pub open spec fn is_lacking(r: Published, inc: IncomingModel, part: Seq<u8>) -> bool {
    exists|i: int|
        0 <= i < r.count() && #[trigger] r.sender.out.parts[i] == part && i < inc.order.len()
            && !inc.parts.contains_key(r.sender.out.hashes[i])
}

/// How many of a list of parts bring nothing new.
pub open spec fn stale_parts(r: Published, inc: IncomingModel, parts: Seq<Seq<u8>>) -> nat
    decreases parts.len(),
{
    if parts.len() == 0 {
        0
    } else {
        stale_parts(r, inc, parts.drop_last()) + if is_lacking(r, inc, parts.last()) {
            0nat
        } else {
            1
        }
    }
}

/// The weight of a packet on its way to the receiver: none if it brings the transfer on.
pub open spec fn outbound_weight(r: Published, inc: IncomingModel, p: PacketModel) -> nat {
    if r.brings_on(inc, p) {
        0
    } else {
        2
    }
}

/// The weight of a packet on its way to the sender: one, and more than what its answers that bring
/// nothing new will weigh.
pub open spec fn inbound_weight(r: Published, inc: IncomingModel, p: PacketModel) -> nat {
    let answer = r.sender.answer(p);
    1 + 2 * stale_parts(r, inc, answer.parts) + if answer.hmu is Some && !r.asks_more(
        p,
        inc.order.len() as int,
    ) {
        2nat
    } else {
        0
    }
}

/// The weight of packets on their way to the receiver.
pub open spec fn outbound_load(r: Published, inc: IncomingModel, list: Seq<PacketModel>) -> nat
    decreases list.len(),
{
    if list.len() == 0 {
        0
    } else {
        outbound_load(r, inc, list.drop_last()) + outbound_weight(r, inc, list.last())
    }
}

/// The weight of packets on their way to the sender.
pub open spec fn inbound_load(r: Published, inc: IncomingModel, list: Seq<PacketModel>) -> nat
    decreases list.len(),
{
    if list.len() == 0 {
        0
    } else {
        inbound_load(r, inc, list.drop_last()) + inbound_weight(r, inc, list.last())
    }
}

/// What the receiver still lacks: map hashes and parts, and before all the advertisement.
pub open spec fn lack(r: Published, t: Transfer) -> nat {
    match t.receiver.inc {
        None => (2 * r.count() + 1) as nat,
        Some(inc) => ((r.count() - inc.order.len()) + resource::missing_of(
            r.sender.out.hashes,
            inc.parts,
        ).len()) as nat,
    }
}

/// What the packets under way weigh.
pub open spec fn load(r: Published, t: Transfer) -> nat {
    match t.receiver.inc {
        None => 0,
        Some(inc) => outbound_load(r, inc, t.outbound) + inbound_load(r, inc, t.inbound),
    }
}

proof fn lemma_outbound_concat(
    r: Published,
    inc: IncomingModel,
    a: Seq<PacketModel>,
    b: Seq<PacketModel>,
)
    ensures
        outbound_load(r, inc, a + b) == outbound_load(r, inc, a) + outbound_load(r, inc, b),
    decreases b.len(),
{
    if b.len() == 0 {
        assert(a + b =~= a);
    } else {
        assert((a + b).drop_last() =~= a + b.drop_last());
        lemma_outbound_concat(r, inc, a, b.drop_last());
    }
}

proof fn lemma_inbound_concat(
    r: Published,
    inc: IncomingModel,
    a: Seq<PacketModel>,
    b: Seq<PacketModel>,
)
    ensures
        inbound_load(r, inc, a + b) == inbound_load(r, inc, a) + inbound_load(r, inc, b),
    decreases b.len(),
{
    if b.len() == 0 {
        assert(a + b =~= a);
    } else {
        assert((a + b).drop_last() =~= a + b.drop_last());
        lemma_inbound_concat(r, inc, a, b.drop_last());
    }
}

proof fn lemma_outbound_remove(r: Published, inc: IncomingModel, list: Seq<PacketModel>, i: int)
    requires
        0 <= i < list.len(),
    ensures
        outbound_load(r, inc, list) == outbound_load(r, inc, list.remove(i)) + outbound_weight(
            r,
            inc,
            list[i],
        ),
{
    let one = seq![list[i]];
    assert(one.drop_last() =~= Seq::<PacketModel>::empty());
    assert(outbound_load(r, inc, one) == outbound_weight(r, inc, list[i])) by {
        reveal_with_fuel(outbound_load, 2);
    }
    lemma_outbound_concat(r, inc, list.take(i), one);
    lemma_outbound_concat(r, inc, list.take(i) + one, list.skip(i + 1));
    lemma_outbound_concat(r, inc, list.take(i), list.skip(i + 1));
    assert(list.take(i) + one + list.skip(i + 1) =~= list);
    assert(list.take(i) + list.skip(i + 1) =~= list.remove(i));
}

proof fn lemma_inbound_remove(r: Published, inc: IncomingModel, list: Seq<PacketModel>, i: int)
    requires
        0 <= i < list.len(),
    ensures
        inbound_load(r, inc, list) == inbound_load(r, inc, list.remove(i)) + inbound_weight(
            r,
            inc,
            list[i],
        ),
{
    let one = seq![list[i]];
    assert(one.drop_last() =~= Seq::<PacketModel>::empty());
    assert(inbound_load(r, inc, one) == inbound_weight(r, inc, list[i])) by {
        reveal_with_fuel(inbound_load, 2);
    }
    lemma_inbound_concat(r, inc, list.take(i), one);
    lemma_inbound_concat(r, inc, list.take(i) + one, list.skip(i + 1));
    lemma_inbound_concat(r, inc, list.take(i), list.skip(i + 1));
    assert(list.take(i) + one + list.skip(i + 1) =~= list);
    assert(list.take(i) + list.skip(i + 1) =~= list.remove(i));
}

/// No more is missing than there is.
proof fn lemma_missing_bound(order: Seq<Seq<u8>>, parts: Map<Seq<u8>, Seq<u8>>)
    ensures
        resource::missing_of(order, parts).len() <= order.len(),
    decreases order.len(),
{
    if order.len() > 0 {
        lemma_missing_bound(order.drop_last(), parts);
    }
}

/// Holding one more part leaves fewer missing.
proof fn lemma_missing_shrinks(
    order: Seq<Seq<u8>>,
    parts: Map<Seq<u8>, Seq<u8>>,
    m: Seq<u8>,
    part: Seq<u8>,
)
    ensures
        resource::missing_of(order, parts.insert(m, part)).len() <= resource::missing_of(
            order,
            parts,
        ).len(),
        order.contains(m) && !parts.contains_key(m) ==> resource::missing_of(
            order,
            parts.insert(m, part),
        ).len() < resource::missing_of(order, parts).len(),
    decreases order.len(),
{
    if order.len() > 0 {
        let front = order.drop_last();
        lemma_missing_shrinks(front, parts, m, part);
        if order.contains(m) && order.last() != m {
            let i = choose|i: int| 0 <= i < order.len() && order[i] == m;
            assert(front[i] == m);
        }
    }
}

/// Parts that are all lacking weigh nothing.
proof fn lemma_lacking_parts(r: Published, inc: IncomingModel, parts: Seq<Seq<u8>>)
    requires
        forall|k: int| 0 <= k < parts.len() ==> is_lacking(r, inc, #[trigger] parts[k]),
    ensures
        stale_parts(r, inc, parts) == 0,
    decreases parts.len(),
{
    if parts.len() > 0 {
        let front = parts.drop_last();
        assert forall|k: int| 0 <= k < front.len() implies is_lacking(
            r,
            inc,
            #[trigger] front[k],
        ) by {
            assert(front[k] == parts[k]);
        }
        lemma_lacking_parts(r, inc, front);
        assert(is_lacking(r, inc, parts[parts.len() - 1]));
    }
}

/// The parts of an answer weigh what those of them weigh that bring nothing new.
proof fn lemma_framed_load(
    r: Published,
    inc: IncomingModel,
    parts: Seq<Seq<u8>>,
    framed: Seq<PacketModel>,
)
    requires
        r.offered(),
        framed.len() == parts.len(),
        forall|k: int|
            0 <= k < framed.len() ==> (#[trigger] framed[k]).context == CTX_RESOURCE
                && framed[k].payload == parts[k],
    ensures
        outbound_load(r, inc, framed) <= 2 * stale_parts(r, inc, parts),
    decreases parts.len(),
{
    if parts.len() > 0 {
        let front = parts.drop_last();
        let before = framed.drop_last();
        assert forall|k: int| 0 <= k < before.len() implies (#[trigger] before[k]).context
            == CTX_RESOURCE && before[k].payload == front[k] by {
            assert(before[k] == framed[k]);
        }
        lemma_framed_load(r, inc, front, before);
        let p = framed[framed.len() - 1];
        if is_lacking(r, inc, parts.last()) {
            completion::lemma_offered(r);
            let i = choose|i: int|
                0 <= i < r.count() && #[trigger] r.sender.out.parts[i] == parts.last() && i
                    < inc.order.len() && !inc.parts.contains_key(r.sender.out.hashes[i]);
            assert(r.is_part(p, i));
            assert(r.brings_on(inc, p));
        }
    }
}

/// What a sender says to a packet weighs less than the packet did.
proof fn lemma_answer_is_lighter(
    r: Published,
    sender: SenderModel,
    inc: IncomingModel,
    p: PacketModel,
    v: Seq<u8>,
    said: Seq<PacketModel>,
)
    requires
        r.offered(),
        sender.link == r.sender.link,
        sender.out == r.sender.out,
        sender.sends(sender.answer(p), v, said),
    ensures
        outbound_load(r, inc, said) < inbound_weight(r, inc, p),
{
    let answer = sender.answer(p);
    assert(answer == r.sender.answer(p));
    let n = inc.order.len() as int;
    let framed = Seq::new(
        answer.parts.len(),
        |i: int| link::on_link(sender.link.id, CTX_RESOURCE, answer.parts[i]),
    );
    lemma_framed_load(r, inc, answer.parts, framed);
    if answer.hmu is Some {
        if r.asks_more(p, n) {
            completion::lemma_more_answered(r, sender, p, n, v, said);
            assert(r.brings_on(inc, said[0]));
            assert(said.drop_last() =~= Seq::<PacketModel>::empty());
            reveal_with_fuel(outbound_load, 2);
        } else {
            assert(said.drop_last() =~= framed);
        }
    } else {
        assert(said == framed);
    }
}

/// A packet that gets no answer weighs one.
proof fn lemma_unanswered_weight(r: Published, inc: IncomingModel, p: PacketModel)
    requires
        p.context != CTX_RESOURCE_REQ,
    ensures
        inbound_weight(r, inc, p) == 1,
{
}

/// What a receiver says weighs at most one: it asks for nothing that it has.
proof fn lemma_reply_is_light(
    r: Published,
    receiver: ReceiverModel,
    reply: ReplyModel,
    v: Seq<u8>,
    said: Seq<PacketModel>,
)
    requires
        r.offered(),
        receiver.link == r.sender.link,
        receiver.inc is Some,
        r.known_by(receiver.inc->0),
        receiver.sends(reply, v, said),
        reply == receiver.request() || reply is Receipt,
    ensures
        inbound_load(r, receiver.inc->0, said) <= 1,
{
    let inc = receiver.inc->0;
    reveal_with_fuel(inbound_load, 2);
    if said.len() > 0 {
        assert(said.drop_last() =~= Seq::<PacketModel>::empty());
        let p = said[0];
        if reply is Receipt {
            lemma_unanswered_weight(r, inc, p);
        } else {
            lemma_request_weighs_one(r, receiver, v, p);
        }
    }
}

/// A request for what is missing weighs one.
proof fn lemma_request_weighs_one(
    r: Published,
    receiver: ReceiverModel,
    v: Seq<u8>,
    p: PacketModel,
)
    requires
        r.offered(),
        receiver.link == r.sender.link,
        receiver.inc is Some,
        r.known_by(receiver.inc->0),
        receiver.sends(receiver.request(), v, seq![p]),
    ensures
        inbound_weight(r, receiver.inc->0, p) == 1,
{
    let inc = receiver.inc->0;
    let out = r.sender.out;
    let missing = inc.missing();
    let n = inc.order.len() as int;
    completion::lemma_offered(r);
    completion::lemma_missing(inc.order, inc.parts);
    assert(seq![p][0] == p);
    if receiver.request() is Nothing {
        assert(seq![p].len() == 1);
        assert(Seq::<PacketModel>::empty().len() == 0);
    } else if missing.len() > 0 {
        assert forall|i: int| 0 <= i < missing.len() implies (#[trigger] missing[i]).len() == 4 by {
            assert(inc.order.contains(missing[i]));
            let j = choose|j: int| 0 <= j < inc.order.len() && inc.order[j] == missing[i];
            assert(out.hashes[j].len() == 4);
        }
        resource::law_request_round_trip(out.full.resource_hash, missing);
        completion::lemma_served(missing, out.hashes, out.parts);
        let served = resource::served(missing, out.hashes, out.parts);
        assert(r.sender.answer(p) == (AnswerModel { parts: served, hmu: None }));
        assert forall|k: int| 0 <= k < served.len() implies is_lacking(
            r,
            inc,
            #[trigger] served[k],
        ) by {
            assert(completion::serves(missing, out.hashes, out.parts, served[k]));
            let i = choose|i: int|
                0 <= i < out.parts.len() && #[trigger] out.parts[i] == served[k]
                    && missing.contains(out.hashes[i]);
            let j = choose|j: int| 0 <= j < missing.len() && missing[j] == out.hashes[i];
            assert(inc.order.contains(missing[j]));
            let x = choose|x: int| 0 <= x < inc.order.len() && inc.order[x] == missing[j];
            assert(out.hashes[x] == out.hashes[i]);
            assert(x == i);
        }
        lemma_lacking_parts(r, inc, served);
    } else {
        assert(inc.order.last() == out.hashes[n - 1]);
        assert(r.asks_more(p, n));
        let plain = seq![0xff_u8] + out.hashes[n - 1] + out.full.resource_hash;
        assert(resource::hashes_in(plain.skip(37)) =~= Seq::<Seq<u8>>::empty());
        assert(r.sender.answer(p).parts =~= Seq::<Seq<u8>>::empty());
    }
}

/// A packet that reaches the receiver leaves it lacking less, or the rest weighs less.
proof fn lemma_receiver_nearer(r: Published, t: Transfer, i: int, said: Seq<PacketModel>)
    requires
        r.offered(),
        t.sound(r),
        t.allows(Delivery::ToReceiver(i, said)),
    ensures
        ({
            let next = t.after(Delivery::ToReceiver(i, said));
            ||| lack(r, next) < lack(r, t)
            ||| lack(r, next) == lack(r, t) && load(r, next) < load(r, t)
        }),
{
    let p = t.outbound[i];
    let next = t.after(Delivery::ToReceiver(i, said));
    let (receiver, reply) = t.receiver.step(p);
    let v = choose|v: Seq<u8>| #[trigger] t.receiver.sends(reply, v, said);
    let out = r.sender.out;
    match t.receiver.inc {
        None => {
            completion::lemma_advertisement_arrives(r, t.receiver, p);
            lemma_missing_bound(out.hashes, receiver.inc->0.parts);
        },
        Some(inc) => {
            assert(r.is_answer(p));
            if exists|j: int| #[trigger] r.is_part(p, j) {
                let j = choose|j: int| #[trigger] r.is_part(p, j);
                completion::lemma_part_arrives(r, t.receiver, p, j);
                let m = out.hashes[j];
                if j < inc.order.len() && !inc.parts.contains_key(m) {
                    assert(out.hashes.contains(m));
                    lemma_missing_shrinks(out.hashes, inc.parts, m, out.parts[j]);
                } else {
                    if j < inc.order.len() {
                        assert(inc.parts[m] == out.parts[j]);
                        assert(inc.parts.insert(m, out.parts[j]) =~= inc.parts);
                    }
                    lemma_stale_part(r, inc, p, j);
                    assert(receiver.inc->0 =~= inc);
                    lemma_same_lack_less_load(r, t, i, said, v);
                }
            } else {
                let at = choose|at: int| #[trigger] r.is_update(p, at);
                completion::lemma_update_arrives(r, t.receiver, p, at);
                if at != inc.order.len() {
                    lemma_stale_update(r, inc, p, at);
                    lemma_same_lack_less_load(r, t, i, said, v);
                }
            }
        },
    }
}

/// A part that the receiver holds or does not know of brings nothing new.
proof fn lemma_stale_part(r: Published, inc: IncomingModel, p: PacketModel, j: int)
    requires
        r.offered(),
        r.is_part(p, j),
        j >= inc.order.len() || inc.parts.contains_key(r.sender.out.hashes[j]),
    ensures
        !r.brings_on(inc, p),
{
    completion::lemma_offered(r);
    assert forall|i: int| #[trigger] r.is_part(p, i) implies i == j by {
        assert(r.sender.out.hashes[i] == r.sender.out.hashes[j]);
    }
}

/// A hashmap update from elsewhere brings nothing new.
proof fn lemma_stale_update(r: Published, inc: IncomingModel, p: PacketModel, at: int)
    requires
        r.offered(),
        r.is_update(p, at),
        at != inc.order.len(),
    ensures
        !r.brings_on(inc, p),
{
    let n = inc.order.len() as int;
    if r.is_update(p, n) {
        completion::lemma_update_reads(r, at);
        completion::lemma_update_reads(r, n);
        let slice = resource::HASHMAP_SLICE as int;
        assert(at / slice == n / slice);
        assert(at == at / slice * slice);
        assert(n == n / slice * slice);
    }
}

/// A packet that changes nothing at the receiver leaves less under way.
proof fn lemma_same_lack_less_load(
    r: Published,
    t: Transfer,
    i: int,
    said: Seq<PacketModel>,
    v: Seq<u8>,
)
    requires
        r.offered(),
        t.sound(r),
        t.receiver.inc is Some,
        0 <= i < t.outbound.len(),
        ({
            let (receiver, reply) = t.receiver.step(t.outbound[i]);
            &&& receiver.inc == t.receiver.inc
            &&& receiver.link == t.receiver.link
            &&& t.receiver.sends(reply, v, said)
            &&& reply == receiver.request() || reply is Receipt
        }),
        !r.brings_on(t.receiver.inc->0, t.outbound[i]),
    ensures
        ({
            let next = t.after(Delivery::ToReceiver(i, said));
            lack(r, next) == lack(r, t) && load(r, next) < load(r, t)
        }),
{
    let inc = t.receiver.inc->0;
    let (receiver, reply) = t.receiver.step(t.outbound[i]);
    assert(receiver.sends(reply, v, said));
    lemma_reply_is_light(r, receiver, reply, v, said);
    lemma_outbound_remove(r, inc, t.outbound, i);
    lemma_inbound_concat(r, inc, t.inbound, said);
}

/// A packet that reaches the sender leaves less under way.
proof fn lemma_sender_nearer(r: Published, t: Transfer, i: int, said: Seq<PacketModel>)
    requires
        r.offered(),
        t.sound(r),
        t.allows(Delivery::ToSender(i, said)),
    ensures
        ({
            let next = t.after(Delivery::ToSender(i, said));
            lack(r, next) == lack(r, t) && load(r, next) < load(r, t)
        }),
{
    let p = t.inbound[i];
    let inc = t.receiver.inc->0;
    let v = choose|v: Seq<u8>| #[trigger] t.sender.sends(t.sender.answer(p), v, said);
    lemma_answer_is_lighter(r, t.sender, inc, p, v, said);
    lemma_inbound_remove(r, inc, t.inbound, i);
    lemma_outbound_concat(r, inc, t.outbound, said);
}

/// A transfer ends: in a lossless run from the start, every delivery lowers what the receiver
/// lacks, or leaves that and lowers what the packets under way weigh. Both are natural numbers, so
/// no run goes on for ever.
pub proof fn law_every_delivery_brings_the_end_nearer(
    r: Published,
    advertisement: PacketModel,
    run: Seq<Delivery>,
    next: Delivery,
)
    requires
        r.offered(),
        r.is_advertisement(advertisement),
    ensures
        ({
            let start = completion::begun(r, advertisement);
            let t = start.after_all(run);
            let u = t.after(next);
            start.allows_all(run) && t.allows(next) ==> lack(r, u) < lack(r, t) || lack(r, u)
                == lack(r, t) && load(r, u) < load(r, t)
        }),
{
    let start = completion::begun(r, advertisement);
    assert(start.sound(r));
    let t = start.after_all(run);
    if start.allows_all(run) && t.allows(next) {
        completion::lemma_run(r, start, run);
        match next {
            Delivery::ToReceiver(i, said) => lemma_receiver_nearer(r, t, i, said),
            Delivery::ToSender(i, said) => lemma_sender_nearer(r, t, i, said),
        }
    }
}

} // verus!
