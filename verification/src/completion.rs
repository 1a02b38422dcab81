//! What a resource transfer promises end to end: the receiver ends with the data that was
//! published, and the sender ends knowing it.
//!
//! The sender publishes, the receiver starts with nothing, the advertisement is put on the link,
//! and from there on each packet that either side returns is delivered to the other, in any order.
//! As long as parts are missing, some packet under way brings the transfer on; so when none is
//! under way any more, the transfer is complete.

use crate::advertisement;
use crate::bytes;
use crate::error::Error;
use crate::link;
use crate::link::{
    CTX_RESOURCE, CTX_RESOURCE_ADV, CTX_RESOURCE_HMU, CTX_RESOURCE_PRF, CTX_RESOURCE_REQ,
};
use crate::packet::PacketModel;
use crate::resource;
use crate::resource::{IncomingModel, HASHMAP_SLICE};
use crate::resource_transfer;
use crate::resource_transfer::{AnswerModel, ReceiverModel, ReplyModel, SenderModel};
use crate::token;
use vstd::prelude::*;

verus! {

/// A published resource: who sends it, and what it is.
pub struct Published {
    pub sender: SenderModel,
    pub data: Seq<u8>,
    pub random_hash: Seq<u8>,
    pub sealed: Seq<u8>,
}

impl Published {
    /// The resource is on offer, its map hashes tell its parts apart, and their number is one
    /// that the receiver's machine can count.
    pub open spec fn offered(self) -> bool {
        &&& self.sender.publishes(self.data, self.random_hash, self.sealed)
        &&& self.sender.out.hashes.no_duplicates()
        &&& self.sender.out.hashes.len() <= usize::MAX
    }

    /// How many parts there are.
    pub open spec fn count(self) -> int {
        self.sender.out.hashes.len() as int
    }

    /// Whether a packet is the advertisement.
    pub open spec fn is_advertisement(self, p: PacketModel) -> bool {
        &&& p.context == CTX_RESOURCE_ADV
        &&& token::opened(self.sender.link.keys, p.payload) == Ok::<Seq<u8>, Error>(
            self.sender.out.advertisement().wire(),
        )
    }

    /// Whether a packet is part `i`.
    pub open spec fn is_part(self, p: PacketModel, i: int) -> bool {
        &&& 0 <= i < self.count()
        &&& p.context == CTX_RESOURCE
        &&& p.payload == self.sender.out.parts[i]
    }

    /// Whether a packet is the hashmap update from hash `at` on.
    pub open spec fn is_update(self, p: PacketModel, at: int) -> bool {
        &&& 0 < at < self.count()
        &&& at % HASHMAP_SLICE as int == 0
        &&& p.context == CTX_RESOURCE_HMU
        &&& token::opened(self.sender.link.keys, p.payload) == Ok::<Seq<u8>, Error>(
            self.sender.out.hmu_after(self.sender.out.hashes[at - 1]),
        )
    }

    /// Whether a packet is a part or a hashmap update.
    pub open spec fn is_answer(self, p: PacketModel) -> bool {
        ||| exists|i: int| #[trigger] self.is_part(p, i)
        ||| exists|at: int| #[trigger] self.is_update(p, at)
    }

    /// Whether a packet asks for the parts of the map hashes `wanted`.
    pub open spec fn asks_parts(self, p: PacketModel, wanted: Seq<Seq<u8>>) -> bool {
        &&& p.context == CTX_RESOURCE_REQ
        &&& token::opened(self.sender.link.keys, p.payload) == Ok::<Seq<u8>, Error>(
            seq![0u8] + self.sender.out.full.resource_hash + bytes::joined(wanted),
        )
        &&& forall|i: int| 0 <= i < wanted.len() ==> (#[trigger] wanted[i]).len() == 4
    }

    /// Whether a packet asks for the map hashes from `at` on.
    pub open spec fn asks_more(self, p: PacketModel, at: int) -> bool {
        &&& 0 < at < self.count()
        &&& at % HASHMAP_SLICE as int == 0
        &&& p.context == CTX_RESOURCE_REQ
        &&& token::opened(self.sender.link.keys, p.payload) == Ok::<Seq<u8>, Error>(
            seq![0xff_u8] + self.sender.out.hashes[at - 1] + self.sender.out.full.resource_hash,
        )
    }

    /// Whether a packet is a request or the proof of receipt.
    pub open spec fn is_request(self, p: PacketModel) -> bool {
        ||| exists|wanted: Seq<Seq<u8>>| #[trigger] self.asks_parts(p, wanted)
        ||| exists|at: int| #[trigger] self.asks_more(p, at)
        ||| self.sender.proved_by(p)
    }

    /// Whether what a receiver knows is what the sender offers, as far as it goes: the map hashes
    /// it knows are the first so many, by whole slices, and each part it holds is the one that
    /// its map hash stands for.
    pub open spec fn known_by(self, inc: IncomingModel) -> bool {
        let out = self.sender.out;
        let n = inc.order.len() as int;
        &&& inc.hash == out.full.resource_hash
        &&& inc.random_hash == self.random_hash
        &&& !inc.compressed
        &&& inc.total == self.count()
        &&& 0 < n <= self.count()
        &&& inc.order == out.hashes.take(n)
        &&& n == self.count() || n % HASHMAP_SLICE as int == 0
        &&& forall|i: int|
            0 <= i < self.count() && inc.parts.contains_key(#[trigger] out.hashes[i]) ==> i < n
                && inc.parts[out.hashes[i]] == out.parts[i]
    }

    /// Whether a packet on its way to the receiver brings the transfer on: a part that it knows
    /// of and lacks, or the next hashmap slice.
    pub open spec fn brings_on(self, inc: IncomingModel, p: PacketModel) -> bool {
        ||| exists|i: int| #[trigger]
            self.is_part(p, i) && i < inc.order.len() && !inc.parts.contains_key(
                self.sender.out.hashes[i],
            )
        ||| self.is_update(p, inc.order.len() as int)
    }

    /// Whether a packet on its way to the sender brings the transfer on: a request for a part
    /// that the receiver knows of and lacks, or for the next hashmap slice.
    pub open spec fn calls_for(self, inc: IncomingModel, p: PacketModel) -> bool {
        ||| exists|wanted: Seq<Seq<u8>>, i: int|
            #![trigger self.asks_parts(p, wanted), self.sender.out.hashes[i]]
            self.asks_parts(p, wanted) && 0 <= i < inc.order.len() && wanted.contains(
                self.sender.out.hashes[i],
            ) && !inc.parts.contains_key(self.sender.out.hashes[i])
        ||| self.asks_more(p, inc.order.len() as int)
    }
}

/// What is missing, looked at element by element.
pub proof fn lemma_missing(order: Seq<Seq<u8>>, parts: Map<Seq<u8>, Seq<u8>>)
    ensures
        ({
            let missing = resource::missing_of(order, parts);
            &&& forall|i: int|
                0 <= i < missing.len() ==> order.contains(#[trigger] missing[i])
                    && !parts.contains_key(missing[i])
            &&& forall|i: int|
                0 <= i < order.len() && !parts.contains_key(#[trigger] order[i])
                    ==> missing.contains(order[i])
        }),
    decreases order.len(),
{
    if order.len() > 0 {
        let front = order.drop_last();
        lemma_missing(front, parts);
        let before = resource::missing_of(front, parts);
        let missing = resource::missing_of(order, parts);
        assert forall|i: int| 0 <= i < missing.len() implies order.contains(#[trigger] missing[i])
            && !parts.contains_key(missing[i]) by {
            if i < before.len() {
                assert(missing[i] == before[i]);
                let j = choose|j: int| 0 <= j < front.len() && front[j] == before[i];
                assert(order[j] == missing[i]);
            } else {
                assert(order[order.len() - 1] == missing[i]);
            }
        }
        assert forall|i: int|
            0 <= i < order.len() && !parts.contains_key(#[trigger] order[i]) implies
            missing.contains(order[i]) by {
            if i < front.len() {
                assert(front[i] == order[i]);
                assert(before.contains(front[i]));
                let j = choose|j: int| 0 <= j < before.len() && before[j] == front[i];
                assert(missing[j] == order[i]);
            } else {
                assert(missing[missing.len() - 1] == order[i]);
            }
        }
    }
}

/// Whether a part is one whose map hash is wanted.
pub open spec fn serves(
    wanted: Seq<Seq<u8>>,
    hashes: Seq<Seq<u8>>,
    parts: Seq<Seq<u8>>,
    part: Seq<u8>,
) -> bool {
    exists|i: int|
        0 <= i < parts.len() && #[trigger] parts[i] == part && wanted.contains(hashes[i])
}

/// Every part is served that is asked for, and nothing else.
pub proof fn lemma_served(wanted: Seq<Seq<u8>>, hashes: Seq<Seq<u8>>, parts: Seq<Seq<u8>>)
    requires
        hashes.no_duplicates(),
        hashes.len() == parts.len(),
    ensures
        ({
            let served = resource::served(wanted, hashes, parts);
            &&& forall|k: int|
                0 <= k < served.len() ==> serves(wanted, hashes, parts, #[trigger] served[k])
            &&& forall|i: int|
                0 <= i < hashes.len() && wanted.contains(#[trigger] hashes[i])
                    ==> served.contains(parts[i])
        }),
    decreases wanted.len(),
{
    if wanted.len() > 0 {
        let front = wanted.drop_last();
        lemma_served(front, hashes, parts);
        let before = resource::served(front, hashes, parts);
        let served = resource::served(wanted, hashes, parts);
        hashes.index_of_first_ensures(wanted.last());
        assert forall|k: int| 0 <= k < served.len() implies serves(
            wanted,
            hashes,
            parts,
            #[trigger] served[k],
        ) by {
            if k < before.len() {
                assert(served[k] == before[k]);
                assert(serves(front, hashes, parts, before[k]));
                let i = choose|i: int|
                    0 <= i < parts.len() && #[trigger] parts[i] == before[k] && front.contains(
                        hashes[i],
                    );
                let j = choose|j: int| 0 <= j < front.len() && front[j] == hashes[i];
                assert(wanted[j] == hashes[i]);
                assert(wanted.contains(hashes[i]));
            } else {
                let at = hashes.index_of_first(wanted.last())->0;
                assert(served[k] == parts[at]);
                assert(wanted[wanted.len() - 1] == hashes[at]);
                assert(wanted.contains(hashes[at]));
            }
        }
        assert forall|i: int|
            0 <= i < hashes.len() && wanted.contains(#[trigger] hashes[i]) implies
            served.contains(parts[i]) by {
            if hashes[i] == wanted.last() {
                let at = hashes.index_of_first(wanted.last())->0;
                assert(hashes[at] == hashes[i]);
                assert(at == i);
                assert(served[served.len() - 1] == parts[i]);
            } else {
                let j = choose|j: int| 0 <= j < wanted.len() && wanted[j] == hashes[i];
                assert(front[j] == hashes[i]);
                assert(front.contains(hashes[i]));
                let k = choose|k: int| 0 <= k < before.len() && before[k] == parts[i];
                assert(served[k] == parts[i]);
            }
        }
    }
}

/// What an offered resource looks like: it has a part, and each map hash has four bytes and is
/// its part's own.
pub proof fn lemma_offered(r: Published)
    requires
        r.offered(),
    ensures
        r.count() > 0,
        r.sender.out.parts.len() == r.count(),
        forall|i: int|
            0 <= i < r.count() ==> (#[trigger] r.sender.out.hashes[i]).len() == 4
                && r.sender.out.hashes[i] == resource::map_hash_of(
                r.sender.out.parts[i],
                r.random_hash,
            ),
{
    let pieces = bytes::chunks(r.sealed, resource::SDU as nat);
    bytes::law_chunks_join(r.sealed, resource::SDU as nat);
    if pieces.len() == 0 {
        assert(bytes::joined(pieces) =~= Seq::<u8>::empty());
    }
    assert forall|i: int| 0 <= i < r.count() implies (#[trigger] r.sender.out.hashes[i]).len() == 4
        by {
        assert(r.sender.out.hashes[i] == resource::hashes_in(r.sender.out.full.hashmap)[i]);
    }
}

/// A receiver that knows of every part and holds them all has the data.
pub proof fn lemma_complete_is_data(r: Published, receiver: ReceiverModel, inc: IncomingModel)
    requires
        r.offered(),
        receiver.link == r.sender.link,
        r.known_by(inc),
        inc.complete(),
    ensures
        receiver.payload(inc) == Some(r.data),
        r.sender.proved_by(
            link::on_link(
                r.sender.link.id,
                CTX_RESOURCE_PRF,
                resource_transfer::receipt_payload(inc, r.data),
            ),
        ),
{
    let hashes = r.sender.out.hashes;
    assert(inc.order =~= hashes);
    assert forall|i: int| 0 <= i < inc.order.len() implies inc.parts[#[trigger] inc.order[i]]
        == bytes::chunks(r.sealed, resource::SDU as nat)[i] by {
        assert(inc.parts.contains_key(inc.order[i]));
        assert(hashes[i] == inc.order[i]);
    }
    resource::law_parts_make_the_token(r.sealed, inc.order, inc.parts);
    resource::law_sent_data_is_recovered(inc, r.data);
    resource_transfer::law_the_receipt_is_accepted(r.sender, inc, r.data);
    assert(resource_transfer::receipt_payload(inc, r.data).skip(32) =~= r.sender.out.receipt);
}

/// What a receiver says while a transfer is incomplete brings it on.
proof fn lemma_request_calls(
    r: Published,
    receiver: ReceiverModel,
    v: Seq<u8>,
    said: Seq<PacketModel>,
)
    requires
        r.offered(),
        receiver.link == r.sender.link,
        receiver.inc is Some,
        r.known_by(receiver.inc->0),
        receiver.sends(receiver.request(), v, said),
    ensures
        forall|k: int| 0 <= k < said.len() ==> r.is_request(#[trigger] said[k]),
        !receiver.inc->0.complete() ==> said.len() > 0 && r.calls_for(receiver.inc->0, said[0]),
{
    let inc = receiver.inc->0;
    let hashes = r.sender.out.hashes;
    let missing = inc.missing();
    let n = inc.order.len() as int;
    lemma_offered(r);
    lemma_missing(inc.order, inc.parts);
    if missing.len() > 0 {
        assert forall|i: int| 0 <= i < missing.len() implies (#[trigger] missing[i]).len() == 4 by {
            assert(inc.order.contains(missing[i]));
            let j = choose|j: int| 0 <= j < inc.order.len() && inc.order[j] == missing[i];
            assert(hashes[j].len() == 4);
        }
        assert(r.asks_parts(said[0], missing));
        assert(inc.order.contains(missing[0]));
        let j = choose|j: int| 0 <= j < inc.order.len() && inc.order[j] == missing[0];
        assert(hashes[j] == missing[0]);
        assert(missing.contains(hashes[j]));
        assert(r.calls_for(inc, said[0]));
    } else if n < inc.total {
        assert(inc.order.last() == hashes[n - 1]);
        assert(r.asks_more(said[0], n));
    } else {
        assert forall|i: int| 0 <= i < inc.order.len() implies inc.parts.contains_key(
            #[trigger] inc.order[i],
        ) by {
            if !inc.parts.contains_key(inc.order[i]) {
                assert(missing.contains(inc.order[i]));
            }
        }
    }
}

/// The advertisement that goes out can be begun from, and tells the first slice.
proof fn lemma_first_slice(r: Published)
    requires
        r.offered(),
    ensures
        ({
            let adv = r.sender.out.advertisement();
            &&& adv.hashmap.len() <= 4 * HASHMAP_SLICE
            &&& resource::begins(adv)
            &&& r.known_by(resource::awaiting(adv))
            &&& !resource::awaiting(adv).complete()
        }),
{
    let out = r.sender.out;
    let adv = out.advertisement();
    lemma_offered(r);
    let inc = resource::awaiting(adv);
    let n = inc.order.len() as int;
    assert forall|i: int| 0 <= i < n implies #[trigger] inc.order[i] == out.hashes[i] by {
        assert(adv.hashmap.subrange(4 * i, 4 * i + 4) =~= out.full.hashmap.subrange(
            4 * i,
            4 * i + 4,
        ));
        assert(resource::hashes_in(out.full.hashmap)[i] == out.hashes[i]);
    }
    assert(inc.order =~= out.hashes.take(n));
    assert(!inc.parts.contains_key(inc.order[0]));
}

/// The advertisement tells a receiver the first slice.
pub proof fn lemma_advertisement_arrives(r: Published, receiver: ReceiverModel, p: PacketModel)
    requires
        r.offered(),
        receiver.link == r.sender.link,
        r.is_advertisement(p),
    ensures
        ({
            let (next, reply) = receiver.step(p);
            &&& next.link == receiver.link
            &&& next.data == receiver.data
            &&& next.inc == Some(resource::awaiting(r.sender.out.advertisement()))
            &&& r.known_by(next.inc->0)
            &&& !next.inc->0.complete()
            &&& reply == next.request()
        }),
{
    lemma_first_slice(r);
    advertisement::law_advertisement_round_trip(r.sender.out.advertisement());
}

/// A part that comes in is kept if the receiver knows of it, and changes nothing otherwise.
pub proof fn lemma_part_arrives(r: Published, receiver: ReceiverModel, p: PacketModel, i: int)
    requires
        r.offered(),
        receiver.link == r.sender.link,
        receiver.inc is Some,
        r.known_by(receiver.inc->0),
        r.is_part(p, i),
    ensures
        ({
            let inc = receiver.inc->0;
            let (next, reply) = receiver.step(p);
            let grown = next.inc->0;
            &&& next.link == receiver.link
            &&& next.inc is Some
            &&& r.known_by(grown)
            &&& grown.order == inc.order
            &&& grown.parts == if i < inc.order.len() {
                inc.parts.insert(r.sender.out.hashes[i], r.sender.out.parts[i])
            } else {
                inc.parts
            }
            &&& grown.complete() ==> next.data == Some(r.data) && reply == ReplyModel::Receipt(
                resource_transfer::receipt_payload(grown, r.data),
            )
            &&& !grown.complete() ==> next.data == receiver.data && reply == next.request()
        }),
{
    let inc = receiver.inc->0;
    let out = r.sender.out;
    let m = out.hashes[i];
    lemma_offered(r);
    assert(m == resource::map_hash_of(p.payload, inc.random_hash));
    if inc.order.contains(m) {
        let j = choose|j: int| 0 <= j < inc.order.len() && inc.order[j] == m;
        assert(out.hashes[j] == m);
        assert(j == i);
    } else if i < inc.order.len() {
        assert(inc.order[i] == m);
    }
    let grown = inc.with_part(p.payload);
    assert forall|k: int|
        0 <= k < r.count() && grown.parts.contains_key(#[trigger] out.hashes[k]) implies k
        < grown.order.len() && grown.parts[out.hashes[k]] == out.parts[k] by {
        if k != i {
            assert(out.hashes[k] != out.hashes[i]);
        }
    }
    assert(r.known_by(grown));
    let next = ReceiverModel { inc: Some(grown), ..receiver };
    if grown.complete() {
        lemma_complete_is_data(r, next, grown);
    }
}

/// The slice from hash `at` on holds the hashes from there on: a whole slice, or what is left.
proof fn lemma_slice(r: Published, at: int)
    requires
        r.offered(),
        0 < at < r.count(),
    ensures
        ({
            let map = r.sender.out.slice_from(at);
            let more = resource::hashes_in(map);
            let end = at + more.len();
            &&& map.len() == 4 * more.len()
            &&& 0 < more.len() <= HASHMAP_SLICE
            &&& end <= r.count()
            &&& end == r.count() || more.len() == HASHMAP_SLICE
            &&& forall|i: int|
                0 <= i < more.len() ==> #[trigger] more[i] == r.sender.out.hashes[at + i]
        }),
{
    let out = r.sender.out;
    let map = out.slice_from(at);
    let more = resource::hashes_in(map);
    assert forall|i: int| 0 <= i < more.len() implies #[trigger] more[i] == out.hashes[at + i] by {
        assert(map.subrange(4 * i, 4 * i + 4) =~= out.full.hashmap.subrange(
            4 * (at + i),
            4 * (at + i) + 4,
        ));
        assert(resource::hashes_in(out.full.hashmap)[at + i] == out.hashes[at + i]);
    }
}

/// What a hashmap update reads as.
pub proof fn lemma_update_reads(r: Published, at: int)
    requires
        r.offered(),
        0 < at < r.count(),
    ensures
        ({
            let out = r.sender.out;
            resource::read_hmu(out.hmu_after(out.hashes[at - 1])) == Some(
                (resource::HmuModel {
                    resource_hash: out.full.resource_hash,
                    segment: (at / HASHMAP_SLICE as int) as nat,
                    hashmap: out.slice_from(at),
                }),
            )
        }),
{
    let out = r.sender.out;
    lemma_slice(r, at);
    out.hashes.index_of_first_ensures(out.hashes[at - 1]);
    let first = out.hashes.index_of_first(out.hashes[at - 1])->0;
    assert(out.hashes[first] == out.hashes[at - 1]);
    assert(first == at - 1);
    resource::law_hmu_round_trip(
        out.full.resource_hash,
        (at / HASHMAP_SLICE as int) as u64,
        out.slice_from(at),
    );
}

/// A hashmap update that carries on from what the receiver knows tells it the next slice, and any
/// other changes nothing.
pub proof fn lemma_update_arrives(r: Published, receiver: ReceiverModel, p: PacketModel, at: int)
    requires
        r.offered(),
        receiver.link == r.sender.link,
        receiver.inc is Some,
        r.known_by(receiver.inc->0),
        r.is_update(p, at),
    ensures
        ({
            let inc = receiver.inc->0;
            let (next, reply) = receiver.step(p);
            let grown = next.inc->0;
            &&& next.link == receiver.link
            &&& next.data == receiver.data
            &&& next.inc is Some
            &&& r.known_by(grown)
            &&& grown.parts == inc.parts
            &&& at != inc.order.len() ==> grown == inc
            &&& at == inc.order.len() ==> grown.order.len() > inc.order.len()
            &&& reply == next.request()
        }),
{
    let inc = receiver.inc->0;
    lemma_slice(r, at);
    lemma_update_reads(r, at);
    let out = r.sender.out;
    let map = out.slice_from(at);
    let more = resource::hashes_in(map);
    let end = at + more.len();
    let hmu = resource::HmuModel {
        resource_hash: out.full.resource_hash,
        segment: (at / HASHMAP_SLICE as int) as nat,
        hashmap: map,
    };
    assert(hmu.segment * HASHMAP_SLICE == at);
    let grown = inc.with_hmu(hmu);
    assert(inc.takes_hmu(hmu) == (at == inc.order.len()));
    if at == inc.order.len() {
        assert(grown.order =~= out.hashes.take(end));
    }
    assert(r.known_by(grown));
}

/// A request for parts is answered with parts, and with each known one that it names.
proof fn lemma_parts_answered(
    r: Published,
    sender: SenderModel,
    p: PacketModel,
    wanted: Seq<Seq<u8>>,
    v: Seq<u8>,
    said: Seq<PacketModel>,
)
    requires
        r.offered(),
        sender.link == r.sender.link,
        sender.out == r.sender.out,
        r.asks_parts(p, wanted),
        sender.sends(sender.answer(p), v, said),
    ensures
        forall|k: int| 0 <= k < said.len() ==> r.is_answer(#[trigger] said[k]),
        forall|i: int|
            0 <= i < r.count() && wanted.contains(#[trigger] r.sender.out.hashes[i])
                ==> exists|k: int| 0 <= k < said.len() && r.is_part(#[trigger] said[k], i),
{
    let out = r.sender.out;
    lemma_offered(r);
    resource::law_request_round_trip(out.full.resource_hash, wanted);
    lemma_served(wanted, out.hashes, out.parts);
    let served = resource::served(wanted, out.hashes, out.parts);
    assert(sender.answer(p) == (AnswerModel { parts: served, hmu: None }));
    assert forall|k: int| 0 <= k < said.len() implies r.is_answer(#[trigger] said[k]) by {
        assert(serves(wanted, out.hashes, out.parts, served[k]));
        let i = choose|i: int| 0 <= i < out.parts.len() && #[trigger] out.parts[i] == served[k];
        assert(r.is_part(said[k], i));
    }
    assert forall|i: int|
        0 <= i < r.count() && wanted.contains(#[trigger] r.sender.out.hashes[i]) implies exists|
        k: int,
    | 0 <= k < said.len() && r.is_part(#[trigger] said[k], i) by {
        assert(served.contains(out.parts[i]));
        let k = choose|k: int| 0 <= k < served.len() && served[k] == out.parts[i];
        assert(r.is_part(said[k], i));
    }
}

/// A request for more map hashes is answered with the slice it asks for.
pub proof fn lemma_more_answered(
    r: Published,
    sender: SenderModel,
    p: PacketModel,
    at: int,
    v: Seq<u8>,
    said: Seq<PacketModel>,
)
    requires
        r.offered(),
        sender.link == r.sender.link,
        sender.out == r.sender.out,
        r.asks_more(p, at),
        sender.sends(sender.answer(p), v, said),
    ensures
        said.len() == 1,
        r.is_update(said[0], at),
{
    let out = r.sender.out;
    lemma_offered(r);
    let last = out.hashes[at - 1];
    let plain = seq![0xff_u8] + last + out.full.resource_hash;
    assert(plain.subrange(1, 5) =~= last);
    assert(resource::hashes_in(plain.skip(37)) =~= Seq::<Seq<u8>>::empty());
    assert(resource::read_request(plain) is Some);
    assert(sender.answer(p).parts =~= Seq::<Seq<u8>>::empty());
    assert(sender.answer(p).hmu == Some(out.hmu_after(last)));
}

/// A transfer in progress: the two ends, and the packets under way in each direction.
#[verifier::ext_equal]
pub struct Transfer {
    pub sender: SenderModel,
    pub receiver: ReceiverModel,
    /// On the way to the receiver.
    pub outbound: Seq<PacketModel>,
    /// On the way to the sender.
    pub inbound: Seq<PacketModel>,
}

/// One packet delivered, by its place among those under way, and what the end that takes it sends
/// in return.
pub enum Delivery {
    ToReceiver(int, Seq<PacketModel>),
    ToSender(int, Seq<PacketModel>),
}

impl Transfer {
    /// Whether a delivery can happen: the packet is under way, and what is sent in return is what
    /// the end that takes it says to it.
    pub open spec fn allows(self, d: Delivery) -> bool {
        match d {
            Delivery::ToReceiver(i, said) => 0 <= i < self.outbound.len() && exists|v: Seq<u8>|
                #[trigger] self.receiver.sends(self.receiver.step(self.outbound[i]).1, v, said),
            Delivery::ToSender(i, said) => 0 <= i < self.inbound.len() && exists|v: Seq<u8>|
                #[trigger] self.sender.sends(self.sender.answer(self.inbound[i]), v, said),
        }
    }

    /// What is so after a delivery.
    pub open spec fn after(self, d: Delivery) -> Transfer {
        match d {
            Delivery::ToReceiver(i, said) => Transfer {
                receiver: self.receiver.step(self.outbound[i]).0,
                outbound: self.outbound.remove(i),
                inbound: self.inbound + said,
                ..self
            },
            Delivery::ToSender(i, said) => Transfer {
                sender: self.sender.after(self.inbound[i]),
                inbound: self.inbound.remove(i),
                outbound: self.outbound + said,
                ..self
            },
        }
    }

    /// What is so after a run of deliveries.
    pub open spec fn after_all(self, run: Seq<Delivery>) -> Transfer
        decreases run.len(),
    {
        if run.len() == 0 {
            self
        } else {
            self.after_all(run.drop_last()).after(run.last())
        }
    }

    /// Whether every delivery of a run can happen in its turn.
    pub open spec fn allows_all(self, run: Seq<Delivery>) -> bool
        decreases run.len(),
    {
        run.len() == 0 || self.allows_all(run.drop_last()) && self.after_all(
            run.drop_last(),
        ).allows(run.last())
    }

    /// Whether some packet under way brings the transfer on.
    pub open spec fn moves(self, r: Published, inc: IncomingModel) -> bool {
        ||| exists|k: int|
            0 <= k < self.outbound.len() && r.brings_on(inc, #[trigger] self.outbound[k])
        ||| exists|k: int|
            0 <= k < self.inbound.len() && r.calls_for(inc, #[trigger] self.inbound[k])
    }

    /// Whether the receipt has reached the sender or is on its way.
    pub open spec fn acknowledged(self) -> bool {
        ||| self.sender.done
        ||| exists|k: int|
            0 <= k < self.inbound.len() && self.sender.proved_by(#[trigger] self.inbound[k])
    }

    /// What holds throughout a transfer of `r`. Before the advertisement has arrived, it is all
    /// that is under way. After that, what the receiver knows is what the sender offers; while
    /// parts are missing the receiver hands out nothing and some packet brings the transfer on;
    /// and once none are missing the receiver has the data and the receipt is under way or there.
    pub open spec fn sound(self, r: Published) -> bool {
        &&& self.sender.out == r.sender.out
        &&& self.sender.link == r.sender.link
        &&& self.receiver.link == r.sender.link
        &&& match self.receiver.inc {
            None => {
                &&& self.receiver.data is None
                &&& self.outbound.len() == 1
                &&& r.is_advertisement(self.outbound[0])
                &&& self.inbound.len() == 0
            },
            Some(inc) => {
                &&& r.known_by(inc)
                &&& forall|k: int|
                    0 <= k < self.outbound.len() ==> r.is_answer(#[trigger] self.outbound[k])
                &&& forall|k: int|
                    0 <= k < self.inbound.len() ==> r.is_request(#[trigger] self.inbound[k])
                &&& inc.complete() ==> self.receiver.data == Some(r.data) && self.acknowledged()
                &&& !inc.complete() ==> self.receiver.data is None && self.moves(r, inc)
            },
        }
    }
}

/// Whatever reaches the receiver, the transfer stays sound.
proof fn lemma_receiver_step(r: Published, t: Transfer, i: int, said: Seq<PacketModel>)
    requires
        r.offered(),
        t.sound(r),
        t.allows(Delivery::ToReceiver(i, said)),
    ensures
        t.after(Delivery::ToReceiver(i, said)).sound(r),
{
    let p = t.outbound[i];
    let next = t.after(Delivery::ToReceiver(i, said));
    let (receiver, reply) = t.receiver.step(p);
    let v = choose|v: Seq<u8>| #[trigger] t.receiver.sends(reply, v, said);
    match t.receiver.inc {
        None => {
            lemma_advertisement_arrives(r, t.receiver, p);
            assert(receiver.sends(receiver.request(), v, said));
            lemma_request_calls(r, receiver, v, said);
            assert(next.inbound =~= said);
            assert(r.calls_for(receiver.inc->0, next.inbound[0]));
        },
        Some(inc) => {
            assert(r.is_answer(p));
            if exists|j: int| #[trigger] r.is_part(p, j) {
                let j = choose|j: int| #[trigger] r.is_part(p, j);
                lemma_part_arrives(r, t.receiver, p, j);
            } else {
                let at = choose|at: int| #[trigger] r.is_update(p, at);
                lemma_update_arrives(r, t.receiver, p, at);
                if inc.complete() {
                    assert(receiver.inc->0 == inc);
                } else if at == inc.order.len() {
                    lemma_new_slice_is_incomplete(r, inc, receiver.inc->0);
                }
            }
            let grown = receiver.inc->0;
            lemma_reply_is_request(r, receiver, reply, v, said);
            let base = t.inbound.len() as int;
            assert forall|k: int| 0 <= k < next.inbound.len() implies r.is_request(
                #[trigger] next.inbound[k],
            ) by {
                if k < base {
                    assert(next.inbound[k] == t.inbound[k]);
                } else {
                    assert(next.inbound[k] == said[k - base]);
                }
            }
            assert forall|k: int| 0 <= k < next.outbound.len() implies r.is_answer(
                #[trigger] next.outbound[k],
            ) by {
                assert(next.outbound[k] == t.outbound[if k < i { k } else { k + 1 }]);
            }
            if grown.complete() {
                if reply is Receipt {
                    assert(next.inbound[base] == said[0]);
                    assert(t.sender.proved_by(next.inbound[base]));
                } else if !t.sender.done {
                    let k = choose|k: int|
                        0 <= k < t.inbound.len() && t.sender.proved_by(#[trigger] t.inbound[k]);
                    assert(next.inbound[k] == t.inbound[k]);
                }
            } else {
                assert(next.inbound[base] == said[0]);
                assert(r.calls_for(grown, next.inbound[base]));
            }
        },
    }
}

/// The hashes of a new slice stand for parts that are not held yet.
proof fn lemma_new_slice_is_incomplete(r: Published, inc: IncomingModel, grown: IncomingModel)
    requires
        r.offered(),
        r.known_by(inc),
        r.known_by(grown),
        grown.parts == inc.parts,
        grown.order.len() > inc.order.len(),
    ensures
        !grown.complete(),
{
    let n = inc.order.len() as int;
    assert(grown.order[n] == r.sender.out.hashes[n]);
    assert(!inc.parts.contains_key(r.sender.out.hashes[n]));
}

/// What a receiver says is a request, which brings an incomplete transfer on, or the receipt.
proof fn lemma_reply_is_request(
    r: Published,
    receiver: ReceiverModel,
    reply: ReplyModel,
    v: Seq<u8>,
    said: Seq<PacketModel>,
)
    requires
        r.offered(),
        receiver.link == r.sender.link,
        receiver.inc is Some,
        r.known_by(receiver.inc->0),
        receiver.sends(reply, v, said),
        reply == receiver.request() || receiver.inc->0.complete() && reply == ReplyModel::Receipt(
            resource_transfer::receipt_payload(receiver.inc->0, r.data),
        ),
    ensures
        forall|k: int| 0 <= k < said.len() ==> r.is_request(#[trigger] said[k]),
        !receiver.inc->0.complete() ==> said.len() > 0 && r.calls_for(receiver.inc->0, said[0]),
        reply is Receipt ==> said.len() == 1 && r.sender.proved_by(said[0]),
{
    if reply == receiver.request() {
        lemma_request_calls(r, receiver, v, said);
    } else {
        lemma_complete_is_data(r, receiver, receiver.inc->0);
        assert(said[0] == link::on_link(
            r.sender.link.id,
            CTX_RESOURCE_PRF,
            resource_transfer::receipt_payload(receiver.inc->0, r.data),
        ));
    }
}

/// What a sender says is parts and hashmap updates; and to a request that brings the transfer on
/// it says something that does.
proof fn lemma_answer_brings_on(
    r: Published,
    sender: SenderModel,
    inc: IncomingModel,
    p: PacketModel,
    v: Seq<u8>,
    said: Seq<PacketModel>,
)
    requires
        r.offered(),
        sender.link == r.sender.link,
        sender.out == r.sender.out,
        r.known_by(inc),
        r.is_request(p),
        sender.sends(sender.answer(p), v, said),
    ensures
        forall|k: int| 0 <= k < said.len() ==> r.is_answer(#[trigger] said[k]),
        r.calls_for(inc, p) ==> exists|k: int|
            0 <= k < said.len() && r.brings_on(inc, #[trigger] said[k]),
{
    let hashes = r.sender.out.hashes;
    let n = inc.order.len() as int;
    if exists|wanted: Seq<Seq<u8>>| #[trigger] r.asks_parts(p, wanted) {
        let wanted = choose|wanted: Seq<Seq<u8>>| #[trigger] r.asks_parts(p, wanted);
        lemma_parts_answered(r, sender, p, wanted, v, said);
    } else if exists|at: int| #[trigger] r.asks_more(p, at) {
        let at = choose|at: int| #[trigger] r.asks_more(p, at);
        lemma_more_answered(r, sender, p, at, v, said);
        assert(r.is_update(said[0], at));
    } else {
        assert(said.len() == 0);
    }
    if r.calls_for(inc, p) {
        if r.asks_more(p, n) {
            lemma_more_answered(r, sender, p, n, v, said);
            assert(r.brings_on(inc, said[0]));
        } else {
            let (wanted, i) = choose|wanted: Seq<Seq<u8>>, i: int|
                #![trigger r.asks_parts(p, wanted), hashes[i]]
                r.asks_parts(p, wanted) && 0 <= i < n && wanted.contains(hashes[i])
                    && !inc.parts.contains_key(hashes[i]);
            lemma_parts_answered(r, sender, p, wanted, v, said);
            let k = choose|k: int| 0 <= k < said.len() && r.is_part(#[trigger] said[k], i);
            assert(r.brings_on(inc, said[k]));
        }
    }
}

/// Whatever reaches the sender, the transfer stays sound.
proof fn lemma_sender_step(r: Published, t: Transfer, i: int, said: Seq<PacketModel>)
    requires
        r.offered(),
        t.sound(r),
        t.allows(Delivery::ToSender(i, said)),
    ensures
        t.after(Delivery::ToSender(i, said)).sound(r),
{
    let p = t.inbound[i];
    let next = t.after(Delivery::ToSender(i, said));
    let inc = t.receiver.inc->0;
    let v = choose|v: Seq<u8>| #[trigger] t.sender.sends(t.sender.answer(p), v, said);
    assert(r.is_request(p));
    lemma_answer_brings_on(r, t.sender, inc, p, v, said);
    let base = t.outbound.len() as int;
    assert forall|k: int| 0 <= k < next.outbound.len() implies r.is_answer(
        #[trigger] next.outbound[k],
    ) by {
        if k < base {
            assert(next.outbound[k] == t.outbound[k]);
        } else {
            assert(next.outbound[k] == said[k - base]);
        }
    }
    assert forall|k: int| 0 <= k < next.inbound.len() implies r.is_request(
        #[trigger] next.inbound[k],
    ) by {
        assert(next.inbound[k] == t.inbound[if k < i { k } else { k + 1 }]);
    }
    if inc.complete() {
        if !t.sender.done && !t.sender.proved_by(p) {
            let k = choose|k: int|
                0 <= k < t.inbound.len() && t.sender.proved_by(#[trigger] t.inbound[k]);
            let at = if k < i { k } else { k - 1 };
            assert(next.inbound[at] == t.inbound[k]);
            assert(next.sender.proved_by(next.inbound[at]));
        }
        assert(next.acknowledged());
    } else if exists|k: int|
        0 <= k < t.outbound.len() && r.brings_on(inc, #[trigger] t.outbound[k]) {
        let k = choose|k: int|
            0 <= k < t.outbound.len() && r.brings_on(inc, #[trigger] t.outbound[k]);
        assert(next.outbound[k] == t.outbound[k]);
    } else {
        let k = choose|k: int|
            0 <= k < t.inbound.len() && r.calls_for(inc, #[trigger] t.inbound[k]);
        if k == i {
            let j = choose|j: int| 0 <= j < said.len() && r.brings_on(inc, #[trigger] said[j]);
            assert(next.outbound[base + j] == said[j]);
        } else {
            let at = if k < i { k } else { k - 1 };
            assert(next.inbound[at] == t.inbound[k]);
        }
    }
}

/// The start of a transfer: the resource is published, the receiver knows nothing, and the
/// advertisement is on its way.
pub open spec fn begun(r: Published, advertisement: PacketModel) -> Transfer {
    Transfer {
        sender: r.sender,
        receiver: ReceiverModel { link: r.sender.link, inc: None, data: None },
        outbound: seq![advertisement],
        inbound: Seq::empty(),
    }
}

/// A transfer stays sound throughout a run.
pub proof fn lemma_run(r: Published, start: Transfer, run: Seq<Delivery>)
    requires
        r.offered(),
        start.sound(r),
        start.allows_all(run),
    ensures
        start.after_all(run).sound(r),
    decreases run.len(),
{
    if run.len() > 0 {
        lemma_run(r, start, run.drop_last());
        let before = start.after_all(run.drop_last());
        match run.last() {
            Delivery::ToReceiver(i, said) => lemma_receiver_step(r, before, i, said),
            Delivery::ToSender(i, said) => lemma_sender_step(r, before, i, said),
        }
    }
}

/// A transfer ends with the published data at the receiver: publish a resource, advertise it to a
/// fresh receiver at the other end of the link, and deliver each packet that either side returns
/// to the other, in any order and without loss, hashmap slices included. At every moment the
/// receiver has handed out nothing or the published data; and when no packet is under way any
/// more, it has handed out the published data and the sender knows that it is received.
pub proof fn law_published_data_arrives(
    r: Published,
    advertisement: PacketModel,
    run: Seq<Delivery>,
)
    requires
        r.offered(),
        r.is_advertisement(advertisement),
    ensures
        ({
            let start = begun(r, advertisement);
            let end = start.after_all(run);
            start.allows_all(run) ==> {
                &&& end.receiver.data is None || end.receiver.data == Some(r.data)
                &&& end.outbound.len() == 0 && end.inbound.len() == 0 ==> end.receiver.data
                    == Some(r.data) && end.sender.done
            }
        }),
{
    let start = begun(r, advertisement);
    assert(start.sound(r));
    if start.allows_all(run) {
        lemma_run(r, start, run);
    }
}

/// A transfer does not stall: at every moment of such a run, until the receiver has the data, some
/// packet under way is the advertisement, a part or hashmap slice that the receiver needs next, or
/// a request for one.
pub proof fn law_a_transfer_does_not_stall(
    r: Published,
    advertisement: PacketModel,
    run: Seq<Delivery>,
)
    requires
        r.offered(),
        r.is_advertisement(advertisement),
    ensures
        ({
            let start = begun(r, advertisement);
            let end = start.after_all(run);
            start.allows_all(run) && end.receiver.data is None ==> match end.receiver.inc {
                None => end.outbound.len() == 1 && r.is_advertisement(end.outbound[0]),
                Some(inc) => end.moves(r, inc),
            }
        }),
{
    let start = begun(r, advertisement);
    assert(start.sound(r));
    if start.allows_all(run) {
        lemma_run(r, start, run);
    }
}

/// The last missing part completes a transfer: a receiver that knows of every part and holds all
/// but the `k`th, and is given that one, has the published data, and its reply is the receipt that
/// ends the transfer at the sender.
pub proof fn law_the_last_part_completes(
    r: Published,
    receiver: ReceiverModel,
    packet: PacketModel,
    k: int,
)
    requires
        r.offered(),
        receiver.link == r.sender.link,
        receiver.inc is Some,
        r.known_by(receiver.inc->0),
        receiver.inc->0.order.len() == r.count(),
        forall|i: int|
            0 <= i < r.count() && i != k ==> receiver.inc->0.parts.contains_key(
                #[trigger] r.sender.out.hashes[i],
            ),
        r.is_part(packet, k),
    ensures
        ({
            let (next, reply) = receiver.step(packet);
            let receipt = resource_transfer::receipt_payload(receiver.inc->0, r.data);
            &&& next.data == Some(r.data)
            &&& reply == ReplyModel::Receipt(receipt)
            &&& r.sender.after(
                link::on_link(r.sender.link.id, CTX_RESOURCE_PRF, receipt),
            ).done
        }),
{
    lemma_part_arrives(r, receiver, packet, k);
    let grown = receiver.step(packet).0.inc->0;
    assert forall|i: int| 0 <= i < grown.order.len() implies grown.parts.contains_key(
        #[trigger] grown.order[i],
    ) by {
        assert(grown.order[i] == r.sender.out.hashes[i]);
    }
    lemma_complete_is_data(r, receiver, grown);
}

/// A stalled transfer starts again: whatever was lost, what a receiver sends on a stall is a
/// request that brings the transfer on, or, once it has the data, the receipt that ends it.
pub proof fn law_a_stalled_receiver_asks_again(
    r: Published,
    receiver: ReceiverModel,
    v: Seq<u8>,
    said: Seq<PacketModel>,
)
    requires
        r.offered(),
        receiver.link == r.sender.link,
        receiver.inc is Some,
        r.known_by(receiver.inc->0),
        receiver.data == if receiver.inc->0.complete() {
            Some(r.data)
        } else {
            None
        },
        receiver.sends(receiver.stalled(), v, said),
    ensures
        said.len() == 1,
        receiver.data is None ==> r.calls_for(receiver.inc->0, said[0]),
        receiver.data is Some ==> r.sender.after(said[0]).done,
{
    lemma_reply_is_request(r, receiver, receiver.stalled(), v, said);
}

/// A part that comes before any advertisement changes nothing and gets no reply.
pub proof fn law_early_parts_are_ignored(receiver: ReceiverModel, packet: PacketModel)
    requires
        receiver.inc is None,
        packet.context == CTX_RESOURCE,
    ensures
        receiver.step(packet) == (receiver, ReplyModel::Nothing),
{
}

} // verus!
