//! What the router owes each kind of packet, from the packet and the tables alone.
//!
//! Every packet that comes in is one of four things to a router: a packet of a link that is
//! bridged through it, a packet addressed to it as the transport hop, an announce, or traffic of
//! its own. The laws here say for each what comes of it: where a packet goes out, with what in it,
//! what is accepted and delivered, and what is learned on the way.

use crate::announce;
use crate::announce::AnnounceModel;
use crate::error::Error;
use crate::hash;
use crate::hash::AddressHash;
use crate::link;
use crate::link::{LinkMode, LinkModel};
use crate::packet::{HeaderType, PacketModel, PacketType};
use crate::router;
use crate::router::{ActionModel, InterfaceId, PathEntry, Registered, RouterModel};
use crate::token;
use vstd::prelude::*;

verus! {

/// Whether a packet is this router's own to handle: it is neither on a link bridged through a
/// transport node nor addressed to one as the hop.
pub open spec fn for_us(r: RouterModel, p: PacketModel) -> bool {
    !r.routing || !(r.bridges.contains_key(p.destination@) || (p.header_type == HeaderType::Type2
        && p.transport == Some(r.own)))
}

/// Whether two packets carry the same thing: they differ at most in how far they have come and in
/// the transport node that they are addressed through.
pub open spec fn same_content(a: PacketModel, b: PacketModel) -> bool {
    &&& a.packet_type == b.packet_type
    &&& a.destination == b.destination
    &&& a.destination_type == b.destination_type
    &&& a.context == b.context
    &&& a.context_flag == b.context_flag
    &&& a.propagation == b.propagation
    &&& a.ifac == b.ifac
    &&& a.payload == b.payload
}

/// Whether a packet that leaves on `out` is addressed for it: through the transport node known
/// there, or to nobody in particular.
pub open spec fn addressed_on(r: RouterModel, out: InterfaceId, p: PacketModel) -> bool {
    if r.next_hops.contains_key(out) {
        p.header_type == HeaderType::Type2 && p.transport == Some(r.next_hops[out])
    } else {
        p.header_type == HeaderType::Type1 && p.transport is None
    }
}

/// A packet addressed to a transport node as the hop, with a hop left and a route learned over an
/// attached interface, is sent exactly once: on the route's interface, one hop on, with the same
/// content. If it is a link request, the two interfaces are the sides of the link's bridge from
/// then on; if not, nothing changes.
pub proof fn law_packets_for_the_hop_are_forwarded(
    r: RouterModel,
    from: InterfaceId,
    p: PacketModel,
    secret: Seq<u8>,
)
    requires
        r.routing,
        p.packet_type != PacketType::Announce,
        p.header_type == HeaderType::Type2,
        p.transport == Some(r.own),
        !r.bridges.contains_key(p.destination@),
        p.hops < 128,
        r.paths.contains_key(p.destination@),
        r.interfaces.contains(r.paths[p.destination@].iface),
    ensures
        ({
            let (after, actions) = r.routed(from, p, secret);
            let out = r.paths[p.destination@].iface;
            let id = hash::address_of(link::link_id_preimage(p));
            &&& actions.len() == 1
            &&& actions[0] is Send
            &&& actions[0]->Send_iface == out
            &&& same_content(actions[0]->Send_packet, p)
            &&& actions[0]->Send_packet.hops == p.hops + 1
            &&& addressed_on(r, out, actions[0]->Send_packet)
            &&& after == RouterModel { bridges: after.bridges, ..r }
            &&& if p.packet_type == PacketType::LinkRequest && p.payload.len() >= 64 {
                after.bridges == r.bridges.insert(id, (from, out))
            } else {
                after.bridges == r.bridges
            }
        }),
{
}

/// A packet for the hop that has no route, or no hop left, goes nowhere and changes nothing.
pub proof fn law_packets_without_a_way_on_are_dropped(
    r: RouterModel,
    from: InterfaceId,
    p: PacketModel,
    secret: Seq<u8>,
)
    requires
        r.routing,
        p.packet_type != PacketType::Announce,
        p.header_type == HeaderType::Type2,
        p.transport == Some(r.own),
        !r.bridges.contains_key(p.destination@),
        p.hops >= 128 || !r.paths.contains_key(p.destination@),
    ensures
        r.routed(from, p, secret).0 == r,
        r.routed(from, p, secret).1.len() == 0,
{
}

/// A packet of a bridged link with a hop left goes out once, on the other side of the bridge, one
/// hop on and with the same content.
pub proof fn law_bridged_packets_cross(
    r: RouterModel,
    from: InterfaceId,
    to: InterfaceId,
    p: PacketModel,
    secret: Seq<u8>,
)
    requires
        r.routing,
        p.packet_type != PacketType::Announce,
        r.bridges.contains_key(p.destination@),
        r.bridges[p.destination@] == (from, to) || (r.bridges[p.destination@] == (to, from)),
        p.hops < 128,
        r.interfaces.contains(to),
    ensures
        ({
            let (after, actions) = r.routed(from, p, secret);
            &&& after == r
            &&& actions.len() == 1
            &&& actions[0] is Send
            &&& actions[0]->Send_iface == to
            &&& same_content(actions[0]->Send_packet, p)
            &&& actions[0]->Send_packet.hops == p.hops + 1
            &&& addressed_on(r, to, actions[0]->Send_packet)
        }),
{
}

/// A link whose request was forwarded is bridged both ways: its packets go back the way the
/// request came and on the way that it went.
pub proof fn law_a_forwarded_request_opens_a_way_back(
    r: RouterModel,
    from: InterfaceId,
    request: PacketModel,
    p: PacketModel,
    secret: Seq<u8>,
)
    requires
        r.routing,
        request.packet_type == PacketType::LinkRequest,
        request.payload.len() >= 64,
        request.header_type == HeaderType::Type2,
        request.transport == Some(r.own),
        !r.bridges.contains_key(request.destination@),
        request.hops < 128,
        r.paths.contains_key(request.destination@),
        r.interfaces.contains(from),
        r.interfaces.contains(r.paths[request.destination@].iface),
        p.packet_type != PacketType::Announce,
        p.destination@ == hash::address_of(link::link_id_preimage(request)),
        p.hops < 128,
    ensures
        ({
            let out = r.paths[request.destination@].iface;
            let after = r.routed(from, request, secret).0;
            let back = after.routed(out, p, secret).1;
            let on = after.routed(from, p, secret).1;
            &&& back.len() == 1 && back[0] is Send && back[0]->Send_iface == from
            &&& on.len() == 1 && on[0] is Send && on[0]->Send_iface == out
            &&& same_content(back[0]->Send_packet, p)
            &&& same_content(on[0]->Send_packet, p)
        }),
{
    law_packets_for_the_hop_are_forwarded(r, from, request, secret);
    let out = r.paths[request.destination@].iface;
    let after = r.routed(from, request, secret).0;
    law_bridged_packets_cross(after, out, from, p, secret);
    law_bridged_packets_cross(after, from, out, p, secret);
}

/// The first registration of a destination is what is found for it.
proof fn lemma_first_registration(list: Seq<Registered>, i: int)
    requires
        0 <= i < list.len(),
        forall|j: int| 0 <= j < i ==> list[j].dest != list[i].dest,
    ensures
        router::registration(list, list[i].dest) == Some(list[i].reliable),
    decreases list.len(),
{
    if i > 0 {
        assert(list[0].dest != list[i].dest);
        let rest = list.skip(1);
        assert(rest[i - 1] == list[i]);
        assert forall|j: int| 0 <= j < i - 1 implies (#[trigger] rest[j]).dest != rest[i
            - 1].dest by {
            assert(rest[j] == list[j + 1]);
        }
        lemma_first_registration(rest, i - 1);
    }
}

/// Nothing is found for a destination that is not registered.
proof fn lemma_no_registration(list: Seq<Registered>, dest: AddressHash)
    requires
        forall|j: int| 0 <= j < list.len() ==> list[j].dest != dest,
    ensures
        router::registration(list, dest) is None,
    decreases list.len(),
{
    if list.len() > 0 {
        assert(list[0].dest != dest);
        let rest = list.skip(1);
        assert forall|j: int| 0 <= j < rest.len() implies rest[j].dest != dest by {
            assert(rest[j] == list[j + 1]);
        }
        lemma_no_registration(rest, dest);
    }
}

/// What accepting the request `p` owes: a link under the request's id, keyed by the asker's
/// ephemeral key, surfaced last, the proof before it where the interface is attached, and a
/// best-effort link live from then on.
pub open spec fn accepted_with(
    r: RouterModel,
    iface: InterfaceId,
    p: PacketModel,
    secret: Seq<u8>,
    reliable: bool,
) -> bool {
    let (after, actions) = r.routed(iface, p, secret);
    let id = hash::address_of(link::link_id_preimage(p));
    let last = actions.last();
    let opened: LinkModel = last->Accepted_link;
    &&& r.accepts(p)
    &&& actions.len() == if r.interfaces.contains(iface) {
        2int
    } else {
        1
    }
    &&& last is Accepted
    &&& last->Accepted_iface == iface
    &&& last->Accepted_destination == p.destination
    &&& last->Accepted_reliable == reliable
    &&& opened.id == hash::address_from(id)
    &&& opened.keys == link::link_keys(id, secret, p.payload.take(32))
    &&& opened.mode == LinkMode::Aes256Cbc
    &&& opened.mtu == 500
    &&& r.interfaces.contains(iface) ==> {
        &&& actions[0] is Send
        &&& actions[0]->Send_iface == iface
        &&& actions[0]->Send_packet.packet_type == PacketType::Proof
        &&& actions[0]->Send_packet.destination == opened.id
        &&& actions[0]->Send_packet.payload == link::proof_payload(
            opened.id@,
            r.seed,
            secret,
            router::own_trailer(),
        )
    }
    &&& if reliable {
        after == r
    } else {
        &&& after == RouterModel { links: after.links, ..r }
        &&& after.links.dom() == r.links.dom().insert(opened.id@)
        &&& after.links[opened.id@].link == opened
        &&& !after.links[opened.id@].reliable
        &&& forall|other: Seq<u8>|
            r.links.contains_key(other) && other != opened.id@ ==> #[trigger] after.links[other]
                == r.links[other]
    }
}

/// Every registered destination accepts links, at whatever place it stands in the list: a request
/// of at least the two keys for it that is ours to handle is accepted, and handled as its first
/// registration says.
pub proof fn law_registered_destinations_accept_links(
    r: RouterModel,
    iface: InterfaceId,
    p: PacketModel,
    secret: Seq<u8>,
    i: int,
)
    requires
        0 <= i < r.registered.len(),
        forall|j: int| 0 <= j < i ==> r.registered[j].dest != r.registered[i].dest,
        p.packet_type == PacketType::LinkRequest,
        p.destination == r.registered[i].dest,
        p.payload.len() >= 64,
        for_us(r, p),
    ensures
        accepted_with(r, iface, p, secret, r.registered[i].reliable),
{
    lemma_first_registration(r.registered, i);
}

/// The first place at which a destination stands in the list.
proof fn lemma_first_entry(list: Seq<Registered>, i: int) -> (first: int)
    requires
        0 <= i < list.len(),
    ensures
        0 <= first <= i,
        list[first].dest == list[i].dest,
        forall|j: int| 0 <= j < first ==> list[j].dest != list[first].dest,
    decreases i,
{
    if exists|j: int| 0 <= j < i && list[j].dest == list[i].dest {
        let j = choose|j: int| 0 <= j < i && list[j].dest == list[i].dest;
        lemma_first_entry(list, j)
    } else {
        i
    }
}

/// Once a destination is registered, links to it are accepted: a request for it that is ours to
/// handle is surfaced, as the new registration says unless an earlier one of the same destination
/// stands.
pub proof fn law_registering_opens_a_destination(
    r: RouterModel,
    entry: Registered,
    iface: InterfaceId,
    p: PacketModel,
    secret: Seq<u8>,
)
    requires
        p.packet_type == PacketType::LinkRequest,
        p.destination == entry.dest,
        p.payload.len() >= 64,
        for_us(r, p),
    ensures
        ({
            let open = RouterModel { registered: r.registered.push(entry), ..r };
            &&& accepted_with(open, iface, p, secret, true) || accepted_with(
                open,
                iface,
                p,
                secret,
                false,
            )
            &&& (forall|j: int|
                0 <= j < r.registered.len() ==> (#[trigger] r.registered[j]).dest != entry.dest)
                ==> accepted_with(open, iface, p, secret, entry.reliable)
        }),
{
    let open = RouterModel { registered: r.registered.push(entry), ..r };
    let n = r.registered.len() as int;
    assert(open.registered[n] == entry);
    let first = lemma_first_entry(open.registered, n);
    law_registered_destinations_accept_links(open, iface, p, secret, first);
    if forall|j: int|
        0 <= j < r.registered.len() ==> (#[trigger] r.registered[j]).dest != entry.dest {
        if first < n {
            assert(open.registered[first] == r.registered[first]);
        }
    }
}

/// A request that is ours to handle is turned away without a trace where its destination is not
/// registered or the keys are not all there.
pub proof fn law_other_requests_are_turned_away(
    r: RouterModel,
    iface: InterfaceId,
    p: PacketModel,
    secret: Seq<u8>,
)
    requires
        p.packet_type == PacketType::LinkRequest,
        for_us(r, p),
        p.payload.len() < 64 || forall|j: int|
            0 <= j < r.registered.len() ==> (#[trigger] r.registered[j]).dest != p.destination,
    ensures
        r.routed(iface, p, secret).0 == r,
        r.routed(iface, p, secret).1.len() == 0,
{
    if forall|j: int|
        0 <= j < r.registered.len() ==> (#[trigger] r.registered[j]).dest != p.destination {
        lemma_no_registration(r.registered, p.destination);
    }
}

/// What is delivered is what was sent: application data sealed under a live best-effort link's
/// keys, however far it has come, is handed over byte for byte, and nothing else happens.
///
/// `iv` and `plain` are any; that opening the token gives `plain` back is what
/// [`data_packet`](crate::link::Link::data_packet) promises of each packet it makes.
pub proof fn law_link_data_is_delivered_as_it_was_sent(
    r: RouterModel,
    iface: InterfaceId,
    id: AddressHash,
    iv: Seq<u8>,
    plain: Seq<u8>,
    p: PacketModel,
    secret: Seq<u8>,
)
    requires
        r.links.contains_key(id@),
        !r.links[id@].reliable,
        r.links[id@].link.id == id,
        p.packet_type == PacketType::Data,
        p.destination == id,
        p.context == 0,
        p.payload == token::sealed(r.links[id@].link.keys, iv, plain),
        token::opened(r.links[id@].link.keys, p.payload) == Ok::<Seq<u8>, Error>(plain),
        for_us(r, p),
    ensures
        r.routed(iface, p, secret).1 == seq![ActionModel::Deliver { link_id: id, data: plain }],
        r.routed(iface, p, secret).0 == r,
{
}

/// What arrives on a link and does not open under its keys is delivered to nobody.
pub proof fn law_what_does_not_open_is_not_delivered(
    r: RouterModel,
    iface: InterfaceId,
    p: PacketModel,
    secret: Seq<u8>,
    i: int,
)
    requires
        0 <= i < r.routed(iface, p, secret).1.len(),
        r.routed(iface, p, secret).1[i] is Deliver,
    ensures
        ({
            let given = r.routed(iface, p, secret).1[i];
            let id = given->Deliver_link_id;
            &&& r.links.contains_key(id@)
            &&& !r.links[id@].reliable
            &&& id == p.destination
            &&& p.packet_type == PacketType::Data
            &&& p.context == 0
            &&& token::opened(r.links[id@].link.keys, p.payload) == Ok::<Seq<u8>, Error>(
                given->Deliver_data,
            )
        }),
{
    if r.bridges_packet(p) || r.is_hop_for(p) {
    } else if p.packet_type == PacketType::Announce {
        lemma_heard_sends(r, iface, p);
    }
}

/// Hearing an announce surfaces it and sends, and does nothing else.
proof fn lemma_heard_sends(r: RouterModel, iface: InterfaceId, p: PacketModel)
    ensures
        forall|i: int|
            0 <= i < r.heard(iface, p).1.len() ==> #[trigger] r.heard(iface, p).1[i] is Send
                || r.heard(iface, p).1[i] is Announced,
{
    let stamped = PacketModel {
        hops: (p.hops + 1) as u8,
        header_type: HeaderType::Type2,
        transport: Some(r.own),
        ..p
    };
    lemma_all_sends(r, iface, stamped, r.interfaces.len());
    let tail = r.broadcast_except(iface, stamped, r.interfaces.len());
    assert forall|i: int| 0 <= i < r.heard(iface, p).1.len() implies #[trigger] r.heard(
        iface,
        p,
    ).1[i] is Send || r.heard(iface, p).1[i] is Announced by {
        if i > 0 {
            assert(r.heard(iface, p).1[i] == tail[i - 1]);
        }
    }
}

proof fn lemma_all_sends(r: RouterModel, except: InterfaceId, p: PacketModel, n: nat)
    requires
        n <= r.interfaces.len(),
    ensures
        forall|i: int|
            0 <= i < r.broadcast_except(except, p, n).len() ==> #[trigger] r.broadcast_except(
                except,
                p,
                n,
            )[i] is Send,
    decreases n,
{
    if n > 0 {
        lemma_all_sends(r, except, p, (n - 1) as nat);
        let front = r.broadcast_except(except, p, (n - 1) as nat);
        let all = r.broadcast_except(except, p, n);
        assert forall|i: int| 0 <= i < all.len() implies #[trigger] all[i] is Send by {
            if i < front.len() {
                assert(all[i] == front[i]);
            }
        }
    }
}

/// The packets of a reliable link go to its driver whole, data and proofs alike, and touch
/// nothing else.
pub proof fn law_a_reliable_links_packets_reach_its_driver(
    r: RouterModel,
    iface: InterfaceId,
    p: PacketModel,
    secret: Seq<u8>,
)
    requires
        r.links.contains_key(p.destination@),
        r.links[p.destination@].reliable,
        p.packet_type == PacketType::Data || p.packet_type == PacketType::Proof && (
        !r.pending.contains_key(p.destination@) || link::proved(
            r.pending[p.destination@],
            p,
        ) is Err),
        for_us(r, p),
    ensures
        r.routed(iface, p, secret).1 == seq![
            ActionModel::Drive { link_id: p.destination, packet: p },
        ],
        r.routed(iface, p, secret).0 == r,
{
}

/// A peer that closes a best-effort link ends it: the stream is told, and the link, and no other,
/// is live no more.
pub proof fn law_a_closed_link_is_gone(
    r: RouterModel,
    iface: InterfaceId,
    p: PacketModel,
    secret: Seq<u8>,
)
    requires
        r.links.contains_key(p.destination@),
        !r.links[p.destination@].reliable,
        r.links[p.destination@].link.id == p.destination,
        p.packet_type == PacketType::Data,
        p.context == 0xfc,
        for_us(r, p),
    ensures
        ({
            let (after, actions) = r.routed(iface, p, secret);
            &&& actions == seq![ActionModel::Closed { link_id: p.destination }]
            &&& after == RouterModel { links: after.links, ..r }
            &&& !after.links.contains_key(p.destination@)
            &&& forall|other: Seq<u8>|
                other != p.destination@ ==> #[trigger] after.links.contains_key(other)
                    == r.links.contains_key(other) && (r.links.contains_key(other)
                    ==> after.links[other] == r.links[other])
        }),
{
}

/// Traffic of links that are not ours comes to nothing.
pub proof fn law_strange_traffic_is_ignored(
    r: RouterModel,
    iface: InterfaceId,
    p: PacketModel,
    secret: Seq<u8>,
)
    requires
        p.packet_type == PacketType::Data || p.packet_type == PacketType::Proof,
        !r.links.contains_key(p.destination@),
        !r.pending.contains_key(p.destination@),
        for_us(r, p),
    ensures
        r.routed(iface, p, secret).0 == r,
        r.routed(iface, p, secret).1.len() == 0,
{
}

/// A proof that verifies for a link we asked for establishes that link, and only the asking is
/// forgotten.
pub proof fn law_a_verified_proof_establishes(
    r: RouterModel,
    iface: InterfaceId,
    p: PacketModel,
    secret: Seq<u8>,
    opened: LinkModel,
)
    requires
        p.packet_type == PacketType::Proof,
        for_us(r, p),
        r.pending.contains_key(p.destination@),
        link::proved(r.pending[p.destination@], p) == Ok::<LinkModel, Error>(opened),
    ensures
        r.routed(iface, p, secret).1 == seq![ActionModel::Established { link: opened, iface }],
        r.routed(iface, p, secret).0 == (RouterModel {
            pending: r.pending.remove(p.destination@),
            ..r
        }),
{
}

/// Every attached interface but one is among those that a packet is sent out on.
proof fn lemma_sent_on_each(
    r: RouterModel,
    except: InterfaceId,
    p: PacketModel,
    n: nat,
    k: int,
) -> (at: int)
    requires
        n <= r.interfaces.len(),
        0 <= k < n,
        r.interfaces[k] != except,
    ensures
        0 <= at < r.broadcast_except(except, p, n).len(),
        r.broadcast_except(except, p, n)[at] == (ActionModel::Send {
            iface: r.interfaces[k],
            packet: p,
        }),
    decreases n,
{
    let front = r.broadcast_except(except, p, (n - 1) as nat);
    if k == n - 1 {
        front.len() as int
    } else {
        let at = lemma_sent_on_each(r, except, p, (n - 1) as nat, k);
        assert(r.broadcast_except(except, p, n)[at] == front[at]);
        at
    }
}

/// A transport node passes a genuine announce that it has not seen, and that has a hop left, out
/// on each of its other interfaces: one hop on, stamped with its own address, saying the same.
pub proof fn law_new_announces_reach_every_other_interface(
    r: RouterModel,
    iface: InterfaceId,
    p: PacketModel,
    a: AnnounceModel,
    secret: Seq<u8>,
    k: int,
) -> (at: int)
    requires
        announce::announces(p, a),
        r.routing,
        p.hops < 128,
        !r.seen.contains(hash::address_from(hash::address_of(p.identifying_bytes()))),
        0 <= k < r.interfaces.len(),
        r.interfaces[k] != iface,
    ensures
        ({
            let actions = r.routed(iface, p, secret).1;
            &&& 0 <= at < actions.len()
            &&& actions[at] is Send
            &&& actions[at]->Send_iface == r.interfaces[k]
            &&& same_content(actions[at]->Send_packet, p)
            &&& actions[at]->Send_packet.hops == p.hops + 1
            &&& actions[at]->Send_packet.transport == Some(r.own)
            &&& actions[at]->Send_packet.header_type == HeaderType::Type2
        }),
{
    let stamped = PacketModel {
        hops: (p.hops + 1) as u8,
        header_type: HeaderType::Type2,
        transport: Some(r.own),
        ..p
    };
    assert(announce::announced(p) is Some);
    let at = lemma_sent_on_each(r, iface, stamped, r.interfaces.len(), k);
    let tail = r.broadcast_except(iface, stamped, r.interfaces.len());
    assert(r.routed(iface, p, secret).1[at + 1] == tail[at]);
    at + 1
}

/// A genuine announce is surfaced first, with who it is from and what it says; the peer is in the
/// book under its destination from then on, and the destination has a route: this one, unless one
/// no longer was known already. Routes to other destinations and other peers stay.
pub proof fn law_announces_are_learned(
    r: RouterModel,
    iface: InterfaceId,
    p: PacketModel,
    a: AnnounceModel,
    secret: Seq<u8>,
    other: Seq<u8>,
)
    requires
        announce::announces(p, a),
        other != a.destination@,
    ensures
        ({
            let (after, actions) = r.routed(iface, p, secret);
            let dest = a.destination@;
            &&& actions.len() > 0
            &&& actions[0] == (ActionModel::Announced {
                destination: a.destination,
                identity: a.identity,
                app_data: a.app_data,
            })
            &&& after.book.contains_key(dest)
            &&& after.book[dest].identity == a.identity
            &&& after.book[dest].name_hash == a.name_hash
            &&& after.book[dest].app_data == a.app_data
            &&& after.book[dest].ratchet == a.ratchet
            &&& after.paths.contains_key(dest)
            &&& if r.paths.contains_key(dest) && r.paths[dest].hops <= p.hops {
                after.paths[dest] == r.paths[dest]
            } else {
                after.paths[dest] == PathEntry { iface, hops: p.hops }
            }
            &&& p.transport matches Some(t) ==> after.next_hops == r.next_hops.insert(iface, t)
            &&& p.transport is None ==> after.next_hops == r.next_hops
            &&& after.book.contains_key(other) == r.book.contains_key(other)
            &&& r.book.contains_key(other) ==> after.book[other] == r.book[other]
            &&& after.paths.contains_key(other) == r.paths.contains_key(other)
            &&& r.paths.contains_key(other) ==> after.paths[other] == r.paths[other]
            &&& after.links == r.links
            &&& after.pending == r.pending
            &&& after.bridges == r.bridges
        }),
{
    assert(announce::announced(p) is Some);
    let found = announce::announced(p)->0;
    announce::law_an_announce_is_unambiguous(p, a, found);
}

/// An announce that is passed on is remembered until 4095 others have
/// been: of those remembered before, only the oldest makes way, and only when there are so many.
pub proof fn law_announces_are_remembered(
    r: RouterModel,
    iface: InterfaceId,
    p: PacketModel,
    secret: Seq<u8>,
    k: int,
)
    requires
        0 <= k < r.seen.len(),
        r.seen.len() <= 4096,
        r.seen.len() < 4096 || k > 0,
    ensures
        r.routed(iface, p, secret).0.seen.contains(r.seen[k]),
        r.routed(iface, p, secret).0.seen.len() <= r.seen.len() + 1,
        r.routed(iface, p, secret).0.seen.len() <= 4096,
{
    let h = hash::address_from(hash::address_of(p.identifying_bytes()));
    let after = r.routed(iface, p, secret).0.seen;
    let more = r.seen.push(h);
    if after == r.seen {
        assert(after[k] == r.seen[k]);
    } else if more.len() > 4096 {
        assert(after =~= more.skip(1));
        assert(after[k - 1] == r.seen[k]);
    } else {
        assert(after[k] == r.seen[k]);
    }
}

/// What an endpoint sends on one attached interface goes out there once, with its content and its
/// hops as they are; what it broadcasts goes out on each interface once, as it is.
pub proof fn law_sending_reaches_the_interfaces(
    r: RouterModel,
    iface: InterfaceId,
    p: PacketModel,
    k: int,
)
    requires
        r.interfaces.contains(iface),
        0 <= k < r.interfaces.len(),
        p.header_type == HeaderType::Type1,
        p.transport is None,
    ensures
        r.sent_on(iface, p).len() == 1,
        r.sent_on(iface, p)[0] is Send,
        r.sent_on(iface, p)[0]->Send_iface == iface,
        same_content(r.sent_on(iface, p)[0]->Send_packet, p),
        r.sent_on(iface, p)[0]->Send_packet.hops == p.hops,
        addressed_on(r, iface, r.sent_on(iface, p)[0]->Send_packet),
        r.broadcast(p).len() == r.interfaces.len(),
        r.broadcast(p)[k] == (ActionModel::Send { iface: r.interfaces[k], packet: p }),
{
}

/// A packet of a bridged link that comes in on neither side goes to the side that the link's
/// request came from.
pub proof fn law_bridged_packets_from_elsewhere_go_back(
    r: RouterModel,
    from: InterfaceId,
    asked: InterfaceId,
    out: InterfaceId,
    p: PacketModel,
    secret: Seq<u8>,
)
    requires
        r.routing,
        p.packet_type != PacketType::Announce,
        r.bridges.contains_key(p.destination@),
        r.bridges[p.destination@] == (asked, out),
        from != asked,
        p.hops < 128,
        r.interfaces.contains(asked),
    ensures
        ({
            let actions = r.routed(from, p, secret).1;
            &&& actions.len() == 1
            &&& actions[0] is Send
            &&& actions[0]->Send_iface == asked
            &&& same_content(actions[0]->Send_packet, p)
            &&& actions[0]->Send_packet.hops == p.hops + 1
        }),
{
}

} // verus!
