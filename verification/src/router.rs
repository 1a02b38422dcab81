//! The routing decisions of an endpoint.
//!
//! An endpoint holds an identity, an [`AddressBook`], and any number of interfaces. Every
//! inbound packet is tagged with the interface it came in on and dispatched: announces populate
//! the address book, inbound link requests are proved and surfaced as connections, proofs
//! complete pending links, and link data goes to the stream of its link. Announces are
//! broadcast on every interface; a link's traffic goes back out the interface it came in on.
//! An endpoint that opts in is a transport node as well: it forwards announces and packets
//! between its interfaces.
//!
//! [`Router`] does no I/O. Each event gives back the [`Action`]s to perform.

use crate::address_book;
use crate::address_book::{AddressBook, PeerModel};
use crate::announce;
use crate::announce::{Announce, AnnounceModel, RAND_HASH_LEN};
use crate::crypto;
use crate::destination;
use crate::destination::DestinationName;
use crate::error::Error;
use crate::hash;
use crate::hash::AddressHash;
use crate::link;
use crate::link::{Inbound, InboundModel, Link, LinkMode, LinkModel, LinkTrailer};
use crate::link::{PendingLink, PendingModel};
use crate::packet::{HeaderType, Packet, PacketModel, PacketType, MTU};
use crate::rns_identity::{Identity, PrivateIdentity};
use crate::table::Table;
use std::collections::{HashMap, VecDeque};
use vstd::prelude::*;

verus! {

broadcast use vstd::std_specs::hash::group_hash_axioms;

/// Maximum hops an announce or packet may travel before a transport node drops it.
pub const MAX_HOPS: u8 = 128;

/// How many recent announce packet hashes to remember for de-duplication.
pub const SEEN_ANNOUNCES: usize = 4096;

/// Identifies one attached interface.
pub type InterfaceId = u32;

/// A learned route to a destination.
#[derive(Clone, Copy, Debug, PartialEq, Eq, Structural)]
pub struct PathEntry {
    /// The interface to reach it on.
    pub iface: InterfaceId,
    pub hops: u8,
}

/// A destination this endpoint accepts links on.
#[derive(Clone, Copy, Debug)]
pub struct Registered {
    pub dest: AddressHash,
    /// Whether links to it are reliable or best-effort.
    pub reliable: bool,
}

/// A validated announce, surfaced to a consumer that needs the app data binding (e.g. to map an
/// application-level peer id to a destination).
#[derive(Debug)]
pub struct PeerAnnounce {
    /// The destination hash announced.
    pub destination: AddressHash,
    /// The announcing identity.
    pub identity: Identity,
    /// The app data the announce carried (a host binds its own peer id here).
    pub app_data: Vec<u8>,
}

/// A live link and how its inbound traffic is handled.
struct LinkEntry {
    link: Link,
    /// Reliable links get raw packets; best-effort links get decrypted bytes.
    reliable: bool,
}

/// What is known of a live link.
#[verifier::ext_equal]
pub struct LinkEntryModel {
    pub link: LinkModel,
    pub reliable: bool,
}

/// Something for the endpoint to do.
pub enum Action {
    /// Put a packet out on an interface.
    Send { iface: InterfaceId, packet: Packet },
    /// Surface a validated announce.
    Announced { announce: PeerAnnounce },
    /// Surface an inbound link, which was proved.
    Accepted { link: Link, iface: InterfaceId, destination: AddressHash, reliable: bool },
    /// Wake the opener of a link whose proof came in.
    Established { link: Link, iface: InterfaceId },
    /// Hand decrypted bytes to the stream of a best-effort link.
    Deliver { link_id: AddressHash, data: Vec<u8> },
    /// Hand a raw packet to the driver of a reliable link.
    Drive { link_id: AddressHash, packet: Packet },
    /// End the stream of a best-effort link that the peer closed.
    Closed { link_id: AddressHash },
}

/// What an [`Action`] is, with its contents as sequences.
#[verifier::ext_equal]
pub enum ActionModel {
    Send { iface: InterfaceId, packet: PacketModel },
    Announced { destination: AddressHash, identity: Identity, app_data: Seq<u8> },
    Accepted { link: LinkModel, iface: InterfaceId, destination: AddressHash, reliable: bool },
    Established { link: LinkModel, iface: InterfaceId },
    Deliver { link_id: AddressHash, data: Seq<u8> },
    Drive { link_id: AddressHash, packet: PacketModel },
    Closed { link_id: AddressHash },
}

impl View for Action {
    type V = ActionModel;

    open spec fn view(&self) -> ActionModel {
        match self {
            Action::Send { iface, packet } => ActionModel::Send { iface: *iface, packet: packet@ },
            Action::Announced { announce } => ActionModel::Announced {
                destination: announce.destination,
                identity: announce.identity,
                app_data: announce.app_data@,
            },
            Action::Accepted { link, iface, destination, reliable } => ActionModel::Accepted {
                link: link@,
                iface: *iface,
                destination: *destination,
                reliable: *reliable,
            },
            Action::Established { link, iface } => ActionModel::Established {
                link: link@,
                iface: *iface,
            },
            Action::Deliver { link_id, data } => ActionModel::Deliver {
                link_id: *link_id,
                data: data@,
            },
            Action::Drive { link_id, packet } => ActionModel::Drive {
                link_id: *link_id,
                packet: packet@,
            },
            Action::Closed { link_id } => ActionModel::Closed { link_id: *link_id },
        }
    }
}

/// The contents of a list of actions.
pub open spec fn action_models(list: Seq<Action>) -> Seq<ActionModel> {
    list.map_values(|a: Action| a@)
}

/// What a [`Router`] knows.
#[verifier::ext_equal]
pub struct RouterModel {
    /// The X25519 secret of our identity.
    pub secret: Seq<u8>,
    /// The Ed25519 seed of our identity.
    pub seed: Seq<u8>,
    /// The public keys of our identity.
    pub public: Seq<u8>,
    /// The hash of our identity.
    pub own: AddressHash,
    /// The peers learned from announces.
    pub book: Map<Seq<u8>, PeerModel>,
    /// The live links, by id.
    pub links: Map<Seq<u8>, LinkEntryModel>,
    pub registered: Seq<Registered>,
    /// The attached interfaces.
    pub interfaces: Seq<InterfaceId>,
    pub next_iface: InterfaceId,
    /// Whether this endpoint is a transport node.
    pub routing: bool,
    /// Learned routes, by destination.
    pub paths: Map<Seq<u8>, PathEntry>,
    /// The announce hashes seen last, oldest first.
    pub seen: Seq<AddressHash>,
    /// The transport node reachable on each interface.
    pub next_hops: Map<InterfaceId, AddressHash>,
    /// The two interfaces of each link that is forwarded through us.
    pub bridges: Map<Seq<u8>, (InterfaceId, InterfaceId)>,
    /// The links asked for and not yet proved, by id.
    pub pending: Map<Seq<u8>, PendingModel>,
}

/// The mode and MTU that this endpoint asks for and offers.
pub open spec fn own_trailer() -> LinkTrailer {
    LinkTrailer { mode: LinkMode::Aes256Cbc, mtu: 500 }
}

/// How links to `dest` are handled, by its first registration.
pub open spec fn registration(list: Seq<Registered>, dest: AddressHash) -> Option<bool>
    decreases list.len(),
{
    if list.len() == 0 {
        None
    } else if list[0].dest == dest {
        Some(list[0].reliable)
    } else {
        registration(list.skip(1), dest)
    }
}

/// The routes after hearing of `dest` on `iface` at `hops`: the shorter route stays.
pub open spec fn learned(
    paths: Map<Seq<u8>, PathEntry>,
    dest: Seq<u8>,
    iface: InterfaceId,
    hops: u8,
) -> Map<Seq<u8>, PathEntry> {
    if paths.contains_key(dest) && paths[dest].hops <= hops {
        paths
    } else {
        paths.insert(dest, PathEntry { iface, hops })
    }
}

/// The announce hashes remembered after a new one: at most [`SEEN_ANNOUNCES`] of them.
pub open spec fn remembered(seen: Seq<AddressHash>, h: AddressHash) -> Seq<AddressHash> {
    let more = seen.push(h);
    if more.len() > SEEN_ANNOUNCES {
        more.skip(1)
    } else {
        more
    }
}

/// A packet re-addressed for the next hop: one hop further, and without a transport stamp.
pub open spec fn one_hop_on(p: PacketModel) -> PacketModel {
    PacketModel {
        hops: (p.hops + 1) as u8,
        header_type: HeaderType::Type1,
        transport: None,
        ..p
    }
}

impl RouterModel {
    /// A packet addressed for the interface it leaves on: through that interface's transport
    /// node, if it has one.
    pub open spec fn addressed(self, iface: InterfaceId, p: PacketModel) -> PacketModel {
        if self.next_hops.contains_key(iface) {
            PacketModel {
                header_type: HeaderType::Type2,
                transport: Some(self.next_hops[iface]),
                ..p
            }
        } else {
            p
        }
    }

    /// Sending a packet out on one interface, if it is attached.
    pub open spec fn sent_on(self, iface: InterfaceId, p: PacketModel) -> Seq<ActionModel> {
        if self.interfaces.contains(iface) {
            seq![ActionModel::Send { iface, packet: self.addressed(iface, p) }]
        } else {
            Seq::empty()
        }
    }

    /// Sending a packet out on every interface.
    pub open spec fn broadcast(self, p: PacketModel) -> Seq<ActionModel> {
        Seq::new(
            self.interfaces.len(),
            |i: int| ActionModel::Send { iface: self.interfaces[i], packet: p },
        )
    }

    /// Sending a packet out on each of the first `n` interfaces but one.
    pub open spec fn broadcast_except(
        self,
        except: InterfaceId,
        p: PacketModel,
        n: nat,
    ) -> Seq<ActionModel>
        decreases n,
    {
        if n == 0 {
            Seq::empty()
        } else {
            let front = self.broadcast_except(except, p, (n - 1) as nat);
            if self.interfaces[n - 1] != except {
                front.push(ActionModel::Send { iface: self.interfaces[n - 1], packet: p })
            } else {
                front
            }
        }
    }

    /// Whether a packet belongs to a link that is forwarded through us.
    pub open spec fn bridges_packet(self, p: PacketModel) -> bool {
        &&& p.packet_type != PacketType::Announce
        &&& self.routing
        &&& self.bridges.contains_key(p.destination@)
    }

    /// Whether a packet is addressed to us as the transport hop.
    pub open spec fn is_hop_for(self, p: PacketModel) -> bool {
        &&& p.packet_type != PacketType::Announce
        &&& self.routing
        &&& p.header_type == HeaderType::Type2
        &&& p.transport == Some(self.own)
    }

    /// The other side of a bridge.
    pub open spec fn far_side(self, from: InterfaceId, p: PacketModel) -> InterfaceId {
        let (a, b) = self.bridges[p.destination@];
        if from == a {
            b
        } else {
            a
        }
    }

    /// Forwarding a packet addressed to us as a transport hop toward its destination, by the
    /// learned routes. A link request establishes a bridge.
    pub open spec fn forwarded(self, from: InterfaceId, p: PacketModel) -> (
        RouterModel,
        Seq<ActionModel>,
    ) {
        if p.hops >= MAX_HOPS || !self.paths.contains_key(p.destination@) {
            (self, Seq::empty())
        } else {
            let out = self.paths[p.destination@].iface;
            let next = if p.packet_type == PacketType::LinkRequest && p.payload.len() >= 64 {
                RouterModel {
                    bridges: self.bridges.insert(
                        hash::address_of(link::link_id_preimage(p)),
                        (from, out),
                    ),
                    ..self
                }
            } else {
                self
            };
            (next, next.sent_on(out, one_hop_on(p)))
        }
    }

    /// Hearing an announce: what it says is learned and surfaced, and a transport node passes
    /// it on once, out every other interface.
    pub open spec fn heard(self, iface: InterfaceId, p: PacketModel) -> (
        RouterModel,
        Seq<ActionModel>,
    ) {
        match announce::announced(p) {
            None => (self, Seq::empty()),
            Some(a) => {
                let told = RouterModel {
                    book: address_book::ingested(self.book, a),
                    paths: learned(self.paths, a.destination@, iface, p.hops),
                    next_hops: match p.transport {
                        Some(t) => self.next_hops.insert(iface, t),
                        None => self.next_hops,
                    },
                    ..self
                };
                let surfaced = seq![
                    ActionModel::Announced {
                        destination: a.destination,
                        identity: a.identity,
                        app_data: a.app_data,
                    },
                ];
                let h = hash::address_from(hash::address_of(p.identifying_bytes()));
                if self.routing && p.hops < MAX_HOPS && !self.seen.contains(h) {
                    let stamped = PacketModel {
                        hops: (p.hops + 1) as u8,
                        header_type: HeaderType::Type2,
                        transport: Some(self.own),
                        ..p
                    };
                    (
                        RouterModel { seen: remembered(self.seen, h), ..told },
                        surfaced + self.broadcast_except(iface, stamped, self.interfaces.len()),
                    )
                } else {
                    (told, surfaced)
                }
            },
        }
    }

    /// Whether a packet is a link request that this endpoint accepts.
    pub open spec fn accepts(self, p: PacketModel) -> bool {
        &&& p.packet_type == PacketType::LinkRequest
        &&& !self.bridges_packet(p)
        &&& !self.is_hop_for(p)
        &&& registration(self.registered, p.destination) is Some
        &&& p.payload.len() >= link::LINK_KEYS_LEN
    }

    /// The proof that answers a link request.
    pub open spec fn link_proof(self, p: PacketModel, secret: Seq<u8>) -> PacketModel {
        let id = link::accepted_link(p, secret, own_trailer()).id;
        link::proof_on_link(
            id,
            link::CTX_LRPROOF,
            link::proof_payload(id@, self.seed, secret, own_trailer()),
        )
    }

    /// Whether the proof of a link request proves the link to whoever asked for it: it
    /// establishes the link that the request opened here, with the same id and keys.
    pub open spec fn proves_to_the_asker(self, p: PacketModel, secret: Seq<u8>) -> bool {
        forall|pending: PendingModel| #[trigger]
            link::asked_for(pending, p) && pending.peer.ed25519@ == crypto::ed25519_public(
                self.seed,
            ) ==> link::proved(pending, self.link_proof(p, secret)) == Ok::<LinkModel, Error>(
                link::accepted_link(p, secret, own_trailer()),
            )
    }

    /// A link request for a registered destination: the link is accepted, its proof goes back
    /// the way the request came, and it is surfaced. A best-effort link is live from here on.
    pub open spec fn asked(self, iface: InterfaceId, p: PacketModel, secret: Seq<u8>) -> (
        RouterModel,
        Seq<ActionModel>,
    ) {
        match registration(self.registered, p.destination) {
            None => (self, Seq::empty()),
            Some(reliable) => if p.payload.len() < 64 {
                (self, Seq::empty())
            } else {
                let link = link::accepted_link(p, secret, own_trailer());
                let proof = self.link_proof(p, secret);
                let next = if reliable {
                    self
                } else {
                    RouterModel {
                        links: self.links.insert(link.id@, LinkEntryModel { link, reliable }),
                        ..self
                    }
                };
                (
                    next,
                    self.sent_on(iface, proof).push(
                        ActionModel::Accepted {
                            link,
                            iface,
                            destination: p.destination,
                            reliable,
                        },
                    ),
                )
            },
        }
    }

    /// What a proof does to the pending link it is addressed to.
    pub open spec fn proved_link(self, p: PacketModel) -> Option<LinkModel> {
        if self.pending.contains_key(p.destination@) {
            match link::proved(self.pending[p.destination@], p) {
                Ok(link) => Some(link),
                Err(_) => None,
            }
        } else {
            None
        }
    }

    /// Whether `id` is a live reliable link.
    pub open spec fn drives(self, id: Seq<u8>) -> bool {
        self.links.contains_key(id) && self.links[id].reliable
    }

    /// A proof: it completes the pending link that it verifies for, and only then is the
    /// pending link removed. Any other proof goes to the driver of a reliable link.
    pub open spec fn proof_in(self, iface: InterfaceId, p: PacketModel) -> (
        RouterModel,
        Seq<ActionModel>,
    ) {
        match self.proved_link(p) {
            Some(link) => (
                RouterModel { pending: self.pending.remove(p.destination@), ..self },
                seq![ActionModel::Established { link, iface }],
            ),
            None => if self.drives(p.destination@) {
                (self, seq![ActionModel::Drive { link_id: p.destination, packet: p }])
            } else {
                (self, Seq::empty())
            },
        }
    }

    /// Link data: raw to the driver of a reliable link, decrypted to the stream of a
    /// best-effort one. A best-effort link that the peer closes is live no more.
    pub open spec fn data_in(self, p: PacketModel) -> (RouterModel, Seq<ActionModel>) {
        let id = p.destination@;
        if self.drives(id) {
            (self, seq![ActionModel::Drive { link_id: p.destination, packet: p }])
        } else if self.links.contains_key(id) {
            match link::received(self.links[id].link, p) {
                Some(InboundModel::Data(data)) => (
                    self,
                    seq![ActionModel::Deliver { link_id: p.destination, data }],
                ),
                Some(InboundModel::Close) => (
                    RouterModel { links: self.links.remove(id), ..self },
                    seq![ActionModel::Closed { link_id: p.destination }],
                ),
                _ => (self, Seq::empty()),
            }
        } else {
            (self, Seq::empty())
        }
    }

    /// A packet of a link that is forwarded through us: it goes out the other side, unless it
    /// has travelled as far as it may.
    pub open spec fn carried_across(self, from: InterfaceId, p: PacketModel) -> Seq<ActionModel> {
        if p.hops >= MAX_HOPS {
            Seq::empty()
        } else {
            self.sent_on(self.far_side(from, p), one_hop_on(p))
        }
    }

    /// What one inbound packet does, and what there is to do about it.
    pub open spec fn routed(self, iface: InterfaceId, p: PacketModel, secret: Seq<u8>) -> (
        RouterModel,
        Seq<ActionModel>,
    ) {
        if self.bridges_packet(p) {
            (self, self.carried_across(iface, p))
        } else if self.is_hop_for(p) {
            self.forwarded(iface, p)
        } else {
            match p.packet_type {
                PacketType::Announce => self.heard(iface, p),
                PacketType::LinkRequest => self.asked(iface, p, secret),
                PacketType::Proof => self.proof_in(iface, p),
                PacketType::Data => self.data_in(p),
            }
        }
    }
}

/// The routing state of an endpoint.
pub struct Router {
    identity: PrivateIdentity,
    own: AddressHash,
    book: AddressBook,
    links: Table<16, LinkEntry>,
    registered: Vec<Registered>,
    interfaces: Vec<InterfaceId>,
    next_iface: InterfaceId,
    routing: bool,
    paths: Table<16, PathEntry>,
    seen: VecDeque<AddressHash>,
    next_hops: HashMap<InterfaceId, AddressHash>,
    bridges: Table<16, (InterfaceId, InterfaceId)>,
    pending: Table<16, PendingLink>,
}

spec fn link_entries(m: Map<Seq<u8>, LinkEntry>) -> Map<Seq<u8>, LinkEntryModel> {
    m.map_values(|e: LinkEntry| LinkEntryModel { link: e.link@, reliable: e.reliable })
}

spec fn pending_entries(m: Map<Seq<u8>, PendingLink>) -> Map<Seq<u8>, PendingModel> {
    m.map_values(|p: PendingLink| p@)
}

impl View for Router {
    type V = RouterModel;

    closed spec fn view(&self) -> RouterModel {
        RouterModel {
            secret: self.identity.secret(),
            seed: self.identity.seed(),
            public: self.identity.public_bytes(),
            own: self.own,
            book: self.book@,
            links: link_entries(self.links@),
            registered: self.registered@,
            interfaces: self.interfaces@,
            next_iface: self.next_iface,
            routing: self.routing,
            paths: self.paths@,
            seen: self.seen@,
            next_hops: self.next_hops@,
            bridges: self.bridges@,
            pending: pending_entries(self.pending@),
        }
    }
}

fn trailer() -> (t: LinkTrailer)
    ensures
        t == own_trailer(),
{
    LinkTrailer { mode: LinkMode::Aes256Cbc, mtu: MTU as u32 }
}

impl Router {
    /// A router with no interfaces yet.
    pub fn new(identity: PrivateIdentity) -> (router: Self)
        ensures
            router@.own@ == hash::address_of(identity.public_bytes()),
            router@ == (RouterModel {
                secret: identity.secret(),
                seed: identity.seed(),
                public: identity.public_bytes(),
                own: router@.own,
                book: Map::empty(),
                links: Map::empty(),
                registered: Seq::empty(),
                interfaces: Seq::empty(),
                next_iface: 0,
                routing: false,
                paths: Map::empty(),
                seen: Seq::empty(),
                next_hops: Map::empty(),
                bridges: Map::empty(),
                pending: Map::empty(),
            }),
    {
        let own = identity.public().hash();
        let router = Router {
            identity,
            own,
            book: AddressBook::new(),
            links: Table::new(),
            registered: Vec::new(),
            interfaces: Vec::new(),
            next_iface: 0,
            routing: false,
            paths: Table::new(),
            seen: VecDeque::new(),
            next_hops: HashMap::new(),
            bridges: Table::new(),
            pending: Table::new(),
        };
        proof {
            assert(router@.links =~= Map::<Seq<u8>, LinkEntryModel>::empty());
            assert(router@.pending =~= Map::<Seq<u8>, PendingModel>::empty());
            assert(router@.registered =~= Seq::<Registered>::empty());
            assert(router@.interfaces =~= Seq::<InterfaceId>::empty());
            assert(router@.seen =~= Seq::<AddressHash>::empty());
            assert(router@.next_hops =~= Map::<InterfaceId, AddressHash>::empty());
        }
        router
    }

    /// Attach an interface and return its id. Ids count up, and start over when they run out.
    pub fn attach_interface(&mut self) -> (id: InterfaceId)
        ensures
            id == old(self)@.next_iface,
            final(self)@ == (RouterModel {
                interfaces: old(self)@.interfaces.push(id),
                next_iface: ((id + 1) % 0x1_0000_0000) as u32,
                ..old(self)@
            }),
    {
        let id: InterfaceId = self.next_iface;
        self.next_iface = if id == u32::MAX {
            0
        } else {
            id + 1
        };
        self.interfaces.push(id);
        id
    }

    /// Number of interfaces currently attached.
    pub fn interface_count(&self) -> (count: usize)
        ensures
            count as nat == self@.interfaces.len(),
    {
        self.interfaces.len()
    }

    /// Act as a transport node: forward announces (hops+1, de-duplicated, never back the way
    /// they came) and forward packets toward learned destinations. Off by default, since an
    /// endpoint carries only its own traffic unless it opts in.
    pub fn enable_routing(&mut self)
        ensures
            final(self)@ == (RouterModel { routing: true, ..old(self)@ }),
    {
        self.routing = true;
    }

    /// The interface a learned destination is reachable over, and its hop count.
    pub fn route_to(&self, dest: AddressHash) -> (route: Option<(InterfaceId, u8)>)
        ensures
            route == if self@.paths.contains_key(dest@) {
                Some((self@.paths[dest@].iface, self@.paths[dest@].hops))
            } else {
                None
            },
    {
        match self.paths.get(dest.as_bytes()) {
            Some(e) => Some((e.iface, e.hops)),
            None => None,
        }
    }

    /// This endpoint's public identity.
    pub fn identity(&self) -> (identity: &Identity)
        ensures
            identity@ == self@.public,
    {
        self.identity.public()
    }

    /// This endpoint's identity with its secrets.
    pub fn private_identity(&self) -> (identity: PrivateIdentity)
        ensures
            identity.secret() == self@.secret,
            identity.seed() == self@.seed,
            identity.public_bytes() == self@.public,
    {
        self.identity.clone()
    }

    /// The identity of a learned peer.
    pub fn resolve(&self, dest: AddressHash) -> (identity: Option<Identity>)
        ensures
            identity == if self@.book.contains_key(dest@) {
                Some(self@.book[dest@].identity)
            } else {
                None
            },
    {
        match self.book.resolve(dest) {
            Some(p) => Some(p.identity),
            None => None,
        }
    }

    /// Sending a packet out on every interface.
    fn broadcast(&self, packet: &Packet) -> (actions: Vec<Action>)
        ensures
            action_models(actions@) == self@.broadcast(packet@),
    {
        let mut actions: Vec<Action> = Vec::new();
        let mut i: usize = 0;
        while i < self.interfaces.len()
            invariant
                i <= self.interfaces@.len(),
                actions@.len() == i,
                forall|j: int|
                    0 <= j < i ==> (#[trigger] actions@[j])@ == self@.broadcast(packet@)[j],
            decreases self.interfaces@.len() - i,
        {
            actions.push(Action::Send { iface: self.interfaces[i], packet: packet.clone() });
            i += 1;
        }
        assert(action_models(actions@) =~= self@.broadcast(packet@));
        actions
    }

    /// Sending a packet out on every interface except one.
    fn broadcast_except(&self, except: InterfaceId, packet: &Packet, actions: &mut Vec<Action>)
        ensures
            action_models(final(actions)@) == action_models(old(actions)@)
                + self@.broadcast_except(except, packet@, self@.interfaces.len()),
    {
        let ghost first = action_models(actions@);
        let mut i: usize = 0;
        assert(first + self@.broadcast_except(except, packet@, 0) =~= first);
        while i < self.interfaces.len()
            invariant
                i <= self.interfaces@.len(),
                action_models(actions@) == first + self@.broadcast_except(
                    except,
                    packet@,
                    i as nat,
                ),
            decreases self.interfaces@.len() - i,
        {
            let ghost before = action_models(actions@);
            if self.interfaces[i] != except {
                let action = Action::Send { iface: self.interfaces[i], packet: packet.clone() };
                let ghost model = action@;
                actions.push(action);
                assert(action_models(actions@) =~= before.push(model));
            }
            assert(action_models(actions@) =~= first + self@.broadcast_except(
                except,
                packet@,
                (i + 1) as nat,
            ));
            i += 1;
        }
    }

    /// Wrap a packet for the interface it will go out on: if that interface reaches a transport
    /// node, make it a second-type packet with the node's id in the transport field so the node
    /// forwards it toward the destination. A directly-connected interface leaves it as is.
    fn address_for(&self, iface: InterfaceId, packet: Packet) -> (addressed: Packet)
        ensures
            addressed@ == self@.addressed(iface, packet@),
    {
        let mut packet = packet;
        match self.next_hops.get(&iface) {
            Some(t) => {
                packet.header_type = HeaderType::Type2;
                packet.transport = Some(*t);
                packet
            },
            None => packet,
        }
    }

    fn is_attached(&self, iface: InterfaceId) -> (attached: bool)
        ensures
            attached == self@.interfaces.contains(iface),
    {
        let mut i: usize = 0;
        while i < self.interfaces.len()
            invariant
                i <= self.interfaces@.len(),
                forall|j: int| 0 <= j < i ==> self.interfaces@[j] != iface,
            decreases self.interfaces@.len() - i,
        {
            if self.interfaces[i] == iface {
                assert(self.interfaces@[i as int] == iface);
                return true;
            }
            i += 1;
        }
        false
    }

    /// Send a packet out one interface, addressed through that interface's transport node if it
    /// has one.
    pub fn send_on(&self, iface: InterfaceId, packet: Packet) -> (actions: Vec<Action>)
        ensures
            action_models(actions@) == self@.sent_on(iface, packet@),
    {
        let mut actions: Vec<Action> = Vec::new();
        if self.is_attached(iface) {
            let action = Action::Send { iface, packet: self.address_for(iface, packet) };
            actions.push(action);
        }
        assert(action_models(actions@) =~= self@.sent_on(iface, packet@));
        actions
    }

    /// Register a destination to accept links on, and announce it. `rand_hash` is fresh
    /// randomness for the announce.
    pub fn register(
        &mut self,
        name: &DestinationName,
        app_data: &[u8],
        reliable: bool,
        rand_hash: &[u8; RAND_HASH_LEN],
    ) -> (actions: Vec<Action>)
        ensures
            ({
                let entry = final(self)@.registered.last();
                &&& final(self)@ == (RouterModel {
                    registered: old(self)@.registered.push(entry),
                    ..old(self)@
                })
                &&& entry.reliable == reliable
                &&& entry.dest@ == destination::single_destination(
                    hash::name_of(name@),
                    old(self)@.public,
                )
                &&& announces_everywhere(
                    old(self)@,
                    action_models(actions@),
                    hash::name_of(name@),
                    app_data@,
                    rand_hash@,
                )
            }),
    {
        let dest = name.destination_hash(self.identity.public());
        let actions = self.announce(name, app_data, rand_hash);
        self.registered.push(Registered { dest, reliable });
        actions
    }

    /// Emit an announce for a destination on every interface. `rand_hash` is fresh randomness.
    pub fn announce(
        &self,
        name: &DestinationName,
        app_data: &[u8],
        rand_hash: &[u8; RAND_HASH_LEN],
    ) -> (actions: Vec<Action>)
        ensures
            announces_everywhere(
                self@,
                action_models(actions@),
                hash::name_of(name@),
                app_data@,
                rand_hash@,
            ),
    {
        let public: Identity = *self.identity.public();
        let name_hash = name.name_hash();
        let packet = announce::build(&self.identity, name_hash, rand_hash, None, app_data);
        let actions = self.broadcast(&packet);
        proof {
            let a = AnnounceModel {
                destination: packet@.destination,
                identity: public,
                name_hash,
                rand_hash: *rand_hash,
                ratchet: None,
                app_data: app_data@,
            };
            assert(announce::announces(packet@, a));
            assert(action_models(actions@) == self@.broadcast(
                announce::announce_packet(self@.seed, a),
            ));
        }
        actions
    }

    /// Begin to open a link to `dest`, whose identity is `peer`: the request goes toward the
    /// destination on the interface that its route names (addressed via its transport node if
    /// remote), or out everywhere if there is no route yet. Returns the id that the proof will
    /// be addressed to.
    pub fn open_link(&mut self, dest: AddressHash, peer: Identity, ephemeral_seed: &[u8; 64]) -> (
        opened: (AddressHash, Vec<Action>))
        ensures
            ({
                let request = link::fresh_packet(
                    crate::packet::DestinationType::Single,
                    PacketType::LinkRequest,
                    dest,
                    0,
                    link::request_payload(
                        ephemeral_seed@.take(32),
                        ephemeral_seed@.skip(32),
                        own_trailer(),
                    ),
                );
                let id = hash::address_from(hash::address_of(link::link_id_preimage(request)));
                let pending = PendingModel {
                    secret: ephemeral_seed@.take(32),
                    peer,
                    link_id: id,
                    requested: own_trailer(),
                };
                &&& opened.0 == id
                &&& link::asked_for(pending, request)
                &&& final(self)@ == (RouterModel {
                    pending: old(self)@.pending.insert(id@, pending),
                    ..old(self)@
                })
                &&& action_models(opened.1@) == if old(self)@.paths.contains_key(dest@) {
                    old(self)@.sent_on(old(self)@.paths[dest@].iface, request)
                } else {
                    old(self)@.broadcast(request)
                }
            }),
    {
        let (pending, request) = PendingLink::open(dest, peer, ephemeral_seed, trailer());
        let id = pending.link_id();
        let ghost model = pending@;
        self.pending.insert(*id.as_bytes(), pending);
        assert(pending_entries(self.pending@) =~= old(self)@.pending.insert(id@, model));
        let actions = match self.paths.get(dest.as_bytes()) {
            Some(e) => self.send_on(e.iface, request),
            None => self.broadcast(&request),
        };
        (id, actions)
    }

    /// Give up a link that was asked for and not proved.
    pub fn abandon_link(&mut self, id: AddressHash)
        ensures
            final(self)@ == (RouterModel { pending: old(self)@.pending.remove(id@), ..old(self)@ }),
    {
        self.pending.remove(id.as_bytes());
        assert(pending_entries(self.pending@) =~= old(self)@.pending.remove(id@));
    }

    /// Make a link live, so that its traffic is dispatched.
    pub fn register_link(&mut self, link: &Link, reliable: bool)
        ensures
            final(self)@ == (RouterModel {
                links: old(self)@.links.insert(
                    link@.id@,
                    LinkEntryModel { link: link@, reliable },
                ),
                ..old(self)@
            }),
    {
        let id = link.id();
        self.links.insert(*id.as_bytes(), LinkEntry { link: link.clone(), reliable });
        assert(link_entries(self.links@) =~= old(self)@.links.insert(
            link@.id@,
            LinkEntryModel { link: link@, reliable },
        ));
    }

    /// End the dispatch of a link's traffic.
    pub fn remove_link(&mut self, id: AddressHash)
        ensures
            final(self)@ == (RouterModel { links: old(self)@.links.remove(id@), ..old(self)@ }),
    {
        self.links.remove(id.as_bytes());
        assert(link_entries(self.links@) =~= old(self)@.links.remove(id@));
    }

    /// Record that `dest` is reachable via `iface` at `hops`, keeping the shortest route.
    fn learn_path(&mut self, dest: AddressHash, iface: InterfaceId, hops: u8)
        ensures
            final(self)@ == (RouterModel {
                paths: learned(old(self)@.paths, dest@, iface, hops),
                ..old(self)@
            }),
    {
        let keep: bool = match self.paths.get(dest.as_bytes()) {
            Some(e) => e.hops <= hops,
            None => false,
        };
        if !keep {
            self.paths.insert(*dest.as_bytes(), PathEntry { iface, hops });
        }
    }

    /// Whether this announce (by packet hash) is new; records it if so.
    fn announce_is_new(&mut self, digest: AddressHash) -> (new: bool)
        ensures
            new == !old(self)@.seen.contains(digest),
            final(self)@ == (RouterModel {
                seen: if new {
                    remembered(old(self)@.seen, digest)
                } else {
                    old(self)@.seen
                },
                ..old(self)@
            }),
    {
        let mut i: usize = 0;
        while i < self.seen.len()
            invariant
                i <= self.seen@.len(),
                forall|j: int| 0 <= j < i ==> self.seen@[j] != digest,
            decreases self.seen@.len() - i,
        {
            if self.seen[i].same(&digest) {
                assert(self.seen@[i as int] == digest);
                return false;
            }
            i += 1;
        }
        self.seen.push_back(digest);
        if self.seen.len() > SEEN_ANNOUNCES {
            self.seen.pop_front();
        }
        assert(self.seen@ =~= remembered(old(self)@.seen, digest));
        true
    }

    /// Re-address a forwarded packet for the interface it leaves on (stripping our transport
    /// stamp, so [`send_on`](Self::send_on) re-adds the next hop's if there is one), bump hops,
    /// and send.
    fn forward_on(&self, out: InterfaceId, packet: Packet) -> (actions: Vec<Action>)
        requires
            packet.hops < 255,
        ensures
            action_models(actions@) == self@.sent_on(out, one_hop_on(packet@)),
    {
        let mut packet = packet;
        packet.hops = packet.hops + 1;
        packet.header_type = HeaderType::Type1;
        packet.transport = None;
        self.send_on(out, packet)
    }

    /// Forward a second-type packet addressed to us as a transport hop, toward its destination.
    /// `from` is the interface it arrived on.
    fn forward(&mut self, from: InterfaceId, packet: Packet) -> (actions: Vec<Action>)
        ensures
            (final(self)@, action_models(actions@)) == old(self)@.forwarded(from, packet@),
    {
        let out: Option<InterfaceId> = match self.paths.get(packet.destination.as_bytes()) {
            Some(e) => Some(e.iface),
            None => None,
        };
        if packet.hops < MAX_HOPS {
            if let Some(out) = out {
                if packet.packet_type == PacketType::LinkRequest {
                    if let Ok(id) = link::link_id(&packet) {
                        self.bridges.insert(*id.as_bytes(), (from, out));
                    }
                }
                return self.forward_on(out, packet);
            }
        }
        let actions: Vec<Action> = Vec::new();
        assert(action_models(actions@) =~= Seq::<ActionModel>::empty());
        actions
    }

    /// Take in an announce that arrived on `iface`.
    fn hear(&mut self, iface: InterfaceId, packet: Packet) -> (actions: Vec<Action>)
        ensures
            (final(self)@, action_models(actions@)) == old(self)@.heard(iface, packet@),
    {
        let ghost start = self@;
        let mut actions: Vec<Action> = Vec::new();
        assert(action_models(actions@) =~= Seq::<ActionModel>::empty());
        let announce = match Announce::decode(&packet) {
            Ok(a) => a,
            Err(_) => {
                return actions;
            },
        };
        self.book.ingest(&announce);
        self.learn_path(announce.destination, iface, packet.hops);
        if let Some(t) = packet.transport {
            self.next_hops.insert(iface, t);
        }
        let surfaced = Action::Announced {
            announce: PeerAnnounce {
                destination: announce.destination,
                identity: announce.identity,
                app_data: announce.app_data,
            },
        };
        let ghost model = surfaced@;
        actions.push(surfaced);
        assert(action_models(actions@) =~= seq![model]);
        if self.routing && packet.hops < MAX_HOPS {
            let digest = packet.hash();
            proof {
                hash::lemma_address_from(digest);
            }
            if self.announce_is_new(digest) {
                let mut onward = packet;
                onward.hops = onward.hops + 1;
                onward.header_type = HeaderType::Type2;
                onward.transport = Some(self.own);
                self.broadcast_except(iface, &onward, &mut actions);
                proof {
                    lemma_broadcast_except(self@, start, iface, onward@, start.interfaces.len());
                }
            }
        }
        actions
    }

    fn find_registered(&self, dest: &AddressHash) -> (reliable: Option<bool>)
        ensures
            reliable == registration(self@.registered, *dest),
    {
        let mut i: usize = 0;
        assert(self.registered@.skip(0) =~= self.registered@);
        while i < self.registered.len()
            invariant
                i <= self.registered@.len(),
                registration(self.registered@, *dest) == registration(
                    self.registered@.skip(i as int),
                    *dest,
                ),
            decreases self.registered@.len() - i,
        {
            assert(self.registered@.skip(i as int)[0] == self.registered@[i as int]);
            assert(self.registered@.skip(i as int).skip(1) =~= self.registered@.skip(i + 1));
            if self.registered[i].dest.same(dest) {
                return Some(self.registered[i].reliable);
            }
            i += 1;
        }
        None
    }

    /// Answer a link request that arrived on `iface`.
    fn answer_request(
        &mut self,
        iface: InterfaceId,
        packet: &Packet,
        ephemeral_seed: &[u8; 64],
    ) -> (actions: Vec<Action>)
        requires
            packet@.packet_type == PacketType::LinkRequest,
        ensures
            (final(self)@, action_models(actions@)) == old(self)@.asked(
                iface,
                packet@,
                ephemeral_seed@.take(32),
            ),
            old(self)@.accepts(packet@) ==> old(self)@.proves_to_the_asker(
                packet@,
                ephemeral_seed@.take(32),
            ),
    {
        let dest = packet.destination;
        if let Some(reliable) = self.find_registered(&dest) {
            if let Ok((link, proof)) = link::accept(
                packet,
                &self.identity,
                ephemeral_seed,
                trailer(),
            ) {
                let mut actions = self.send_on(iface, proof);
                let ghost sent = action_models(actions@);
                if !reliable {
                    self.register_link(&link, false);
                }
                let accepted = Action::Accepted { link, iface, destination: dest, reliable };
                let ghost model = accepted@;
                actions.push(accepted);
                assert(action_models(actions@) =~= sent.push(model));
                return actions;
            }
        }
        let actions: Vec<Action> = Vec::new();
        assert(action_models(actions@) =~= Seq::<ActionModel>::empty());
        actions
    }

    /// Take in a proof that arrived on `iface`: complete a pending outbound link, binding it to
    /// the interface it came in on, or hand the proof to a reliable link's driver.
    ///
    /// The proof is validated against the pending link BEFORE that is removed: a forged proof
    /// addressed to a real pending link id must not be able to evict it and strand the genuine
    /// proof that follows.
    fn take_proof(&mut self, iface: InterfaceId, packet: Packet) -> (actions: Vec<Action>)
        ensures
            (final(self)@, action_models(actions@)) == old(self)@.proof_in(iface, packet@),
    {
        let mut actions: Vec<Action> = Vec::new();
        let proved: Option<Link> = match self.pending.get(packet.destination.as_bytes()) {
            Some(pending) => match pending.prove(&packet) {
                Ok(link) => Some(link),
                Err(_) => None,
            },
            None => None,
        };
        match proved {
            Some(link) => {
                self.abandon_link(packet.destination);
                actions.push(Action::Established { link, iface });
            },
            None => {
                let drives: bool = match self.links.get(packet.destination.as_bytes()) {
                    Some(e) => e.reliable,
                    None => false,
                };
                if drives {
                    actions.push(Action::Drive { link_id: packet.destination, packet });
                }
            },
        }
        assert(action_models(actions@) =~= old(self)@.proof_in(iface, packet@).1);
        actions
    }

    /// Take in link data.
    fn take_data(&mut self, packet: Packet) -> (actions: Vec<Action>)
        ensures
            (final(self)@, action_models(actions@)) == old(self)@.data_in(packet@),
    {
        let mut actions: Vec<Action> = Vec::new();
        let link_id = packet.destination;
        let mut closed: bool = false;
        match self.links.get(link_id.as_bytes()) {
            Some(e) => {
                if e.reliable {
                    actions.push(Action::Drive { link_id, packet });
                } else {
                    match e.link.receive(&packet) {
                        Some(Inbound::Data(data)) => {
                            actions.push(Action::Deliver { link_id, data });
                        },
                        Some(Inbound::Close) => {
                            closed = true;
                        },
                        _ => {},
                    }
                }
            },
            None => {},
        }
        if closed {
            self.remove_link(link_id);
            actions.push(Action::Closed { link_id });
        }
        assert(action_models(actions@) =~= old(self)@.data_in(packet@).1);
        actions
    }

    /// Dispatch one inbound packet that arrived on `iface`. `ephemeral_seed` is a fresh key
    /// seed, used only when a link is accepted.
    ///
    /// Transport-node forwarding comes first (announces are re-forwarded when they are taken
    /// in, so they still populate our address book). A packet whose destination is a link we
    /// bridge goes to the opposite side, whatever its header type: the two endpoints may
    /// address it differently. It is dropped if it has travelled [`MAX_HOPS`].
    ///
    /// The proof that answers a link request establishes the link with whoever asked for it.
    pub fn route(&mut self, iface: InterfaceId, packet: Packet, ephemeral_seed: &[u8; 64]) -> (
        actions: Vec<Action>)
        ensures
            (final(self)@, action_models(actions@)) == old(self)@.routed(
                iface,
                packet@,
                ephemeral_seed@.take(32),
            ),
            old(self)@.accepts(packet@) ==> old(self)@.proves_to_the_asker(
                packet@,
                ephemeral_seed@.take(32),
            ),
    {
        if packet.packet_type != PacketType::Announce && self.routing {
            if let Some(bridge) = self.bridges.get(packet.destination.as_bytes()) {
                let far: InterfaceId = if iface == bridge.0 {
                    bridge.1
                } else {
                    bridge.0
                };
                if packet.hops >= MAX_HOPS {
                    let actions: Vec<Action> = Vec::new();
                    assert(action_models(actions@) =~= Seq::<ActionModel>::empty());
                    return actions;
                }
                return self.forward_on(far, packet);
            }
            if packet.header_type == HeaderType::Type2 {
                if let Some(t) = packet.transport {
                    if t.same(&self.own) {
                        return self.forward(iface, packet);
                    }
                }
            }
        }
        match packet.packet_type {
            PacketType::Announce => self.hear(iface, packet),
            PacketType::LinkRequest => self.answer_request(iface, &packet, ephemeral_seed),
            PacketType::Proof => self.take_proof(iface, packet),
            PacketType::Data => self.take_data(packet),
        }
    }
}

/// Broadcasting looks only at the interfaces.
proof fn lemma_broadcast_except(
    a: RouterModel,
    b: RouterModel,
    except: InterfaceId,
    p: PacketModel,
    n: nat,
)
    requires
        a.interfaces == b.interfaces,
    ensures
        a.broadcast_except(except, p, n) == b.broadcast_except(except, p, n),
    decreases n,
{
    if n > 0 {
        lemma_broadcast_except(a, b, except, p, (n - 1) as nat);
    }
}

/// Whether `actions` puts one announce of ours out on every interface: the name hash, app data
/// and randomness are those given, and it decodes as our announce.
pub open spec fn announces_everywhere(
    router: RouterModel,
    actions: Seq<ActionModel>,
    name_hash: Seq<u8>,
    app_data: Seq<u8>,
    rand_hash: Seq<u8>,
) -> bool {
    exists|a: AnnounceModel|
        {
            &&& #[trigger] announce::announces(announce::announce_packet(router.seed, a), a)
            &&& a.identity@ == router.public
            &&& a.name_hash@ == name_hash
            &&& a.rand_hash@ == rand_hash
            &&& a.ratchet is None
            &&& a.app_data == app_data
            &&& actions == router.broadcast(announce::announce_packet(router.seed, a))
        }
}

/// An endpoint carries only its own traffic unless it opts in: without routing, nothing is ever
/// sent but the proof of a link that was accepted.
pub proof fn law_an_endpoint_forwards_nothing(
    router: RouterModel,
    iface: InterfaceId,
    p: PacketModel,
    secret: Seq<u8>,
)
    requires
        !router.routing,
    ensures
        p.packet_type != PacketType::LinkRequest ==> forall|i: int|
            0 <= i < router.routed(iface, p, secret).1.len() ==> !(#[trigger] router.routed(
                iface,
                p,
                secret,
            ).1[i] is Send),
        router.routed(iface, p, secret).0.bridges == router.bridges,
{
}

/// Announces are passed on with one hop more, never past the hop limit, and never back the way
/// they came.
pub proof fn law_announces_are_passed_on_outward(
    router: RouterModel,
    iface: InterfaceId,
    p: PacketModel,
    secret: Seq<u8>,
)
    requires
        p.packet_type == PacketType::Announce,
    ensures
        forall|i: int|
            0 <= i < router.routed(iface, p, secret).1.len() && (#[trigger] router.routed(
                iface,
                p,
                secret,
            ).1[i]) is Send ==> {
                let sent = router.routed(iface, p, secret).1[i];
                &&& router.routing
                &&& p.hops < MAX_HOPS
                &&& sent->Send_iface != iface
                &&& sent->Send_packet.hops == p.hops + 1
                &&& sent->Send_packet.transport == Some(router.own)
            },
{
    let stamped = PacketModel {
        hops: (p.hops + 1) as u8,
        header_type: HeaderType::Type2,
        transport: Some(router.own),
        ..p
    };
    let n = router.interfaces.len();
    lemma_sends_stamped(router, iface, stamped, n);
    let out = router.routed(iface, p, secret).1;
    let tail = router.broadcast_except(iface, stamped, n);
    assert forall|i: int| 0 <= i < out.len() && (#[trigger] out[i]) is Send implies router.routing
        && p.hops < MAX_HOPS && out[i]->Send_iface != iface && out[i]->Send_packet.hops == p.hops
        + 1 && out[i]->Send_packet.transport == Some(router.own) by {
        assert(out.len() == tail.len() + 1);
        assert(out[i] == tail[i - 1]);
    }
}

proof fn lemma_sends_stamped(
    router: RouterModel,
    except: InterfaceId,
    p: PacketModel,
    n: nat,
)
    requires
        n <= router.interfaces.len(),
    ensures
        forall|i: int|
            0 <= i < router.broadcast_except(except, p, n).len() ==> {
                let a = #[trigger] router.broadcast_except(except, p, n)[i];
                a is Send && a->Send_iface != except && a->Send_packet == p
            },
    decreases n,
{
    if n > 0 {
        lemma_sends_stamped(router, except, p, (n - 1) as nat);
        let front = router.broadcast_except(except, p, (n - 1) as nat);
        let all = router.broadcast_except(except, p, n);
        assert forall|i: int| 0 <= i < all.len() implies ({
            let a = #[trigger] all[i];
            a is Send && a->Send_iface != except && a->Send_packet == p
        }) by {
            if i < front.len() {
                assert(all[i] == front[i]);
            }
        }
    }
}

/// An announce is passed on once: heard again while it is remembered, it is not sent anywhere.
pub proof fn law_announces_are_passed_on_once(
    router: RouterModel,
    first: InterfaceId,
    again: InterfaceId,
    p: PacketModel,
    secret: Seq<u8>,
)
    requires
        p.packet_type == PacketType::Announce,
        router.seen.len() <= SEEN_ANNOUNCES,
    ensures
        ({
            let after = router.routed(first, p, secret).0;
            let out = after.routed(again, p, secret).1;
            forall|i: int| 0 <= i < out.len() ==> !(#[trigger] out[i] is Send)
        }),
        router.routed(first, p, secret).0.seen.len() <= SEEN_ANNOUNCES,
{
    let h = hash::address_from(hash::address_of(p.identifying_bytes()));
    let more = router.seen.push(h);
    let kept = remembered(router.seen, h);
    assert(kept.contains(h)) by {
        assert(kept[kept.len() - 1] == h);
    }
}

/// The shortest route is kept: hearing of a destination never makes its route longer, and a
/// shorter one replaces a longer one.
pub proof fn law_the_shortest_route_is_kept(
    paths: Map<Seq<u8>, PathEntry>,
    dest: Seq<u8>,
    iface: InterfaceId,
    hops: u8,
    other: Seq<u8>,
)
    requires
        other != dest,
    ensures
        learned(paths, dest, iface, hops).contains_key(dest),
        learned(paths, dest, iface, hops)[dest].hops <= hops,
        paths.contains_key(dest) ==> learned(paths, dest, iface, hops)[dest].hops
            <= paths[dest].hops,
        learned(paths, dest, iface, hops).contains_key(other) == paths.contains_key(other),
        paths.contains_key(other) ==> learned(paths, dest, iface, hops)[other] == paths[other],
{
}

/// A forged proof does not strand link setup: a proof that does not verify for the pending link
/// it names leaves that link pending, so the genuine proof still establishes it.
pub proof fn law_a_forged_proof_leaves_the_link_pending(
    router: RouterModel,
    iface: InterfaceId,
    forged: PacketModel,
    genuine: PacketModel,
    secret: Seq<u8>,
)
    requires
        forged.packet_type == PacketType::Proof,
        !router.bridges_packet(forged),
        !router.is_hop_for(forged),
        genuine.destination == forged.destination,
        router.proved_link(forged) is None,
    ensures
        router.routed(iface, forged, secret).0.pending == router.pending,
        router.routed(iface, forged, secret).0.proved_link(genuine) == router.proved_link(
            genuine,
        ),
{
}

/// A proof that establishes a link takes it out of those pending, so it is established once.
pub proof fn law_a_link_is_established_once(
    router: RouterModel,
    iface: InterfaceId,
    p: PacketModel,
    secret: Seq<u8>,
)
    requires
        p.packet_type == PacketType::Proof,
        !router.bridges_packet(p),
        !router.is_hop_for(p),
        router.proved_link(p) is Some,
    ensures
        router.routed(iface, p, secret).1 == seq![
            ActionModel::Established { link: router.proved_link(p)->0, iface },
        ],
        router.routed(iface, p, secret).0.proved_link(p) is None,
{
}

/// The book learns from genuine announces only: whatever a packet changes in it, the packet is
/// an announce whose signature verifies, and the change is that announce.
pub proof fn law_only_genuine_announces_are_learned(
    router: RouterModel,
    iface: InterfaceId,
    p: PacketModel,
    secret: Seq<u8>,
)
    ensures
        router.routed(iface, p, secret).0.book == router.book || exists|a: AnnounceModel| #[trigger]
            announce::announces(p, a) && router.routed(iface, p, secret).0.book
                == address_book::ingested(router.book, a),
{
    if let Some(a) = announce::announced(p) {
        assert(announce::announces(p, a));
    }
}

/// Whether every entry is filed under the destination that its own keys and name give.
pub open spec fn filed_under_own_destination(book: Map<Seq<u8>, PeerModel>) -> bool {
    forall|d: Seq<u8>| #[trigger]
        book.contains_key(d) ==> d == destination::single_destination(
            book[d].name_hash@,
            book[d].identity@,
        )
}

/// No packet can file an identity under a destination that is not its own.
pub proof fn law_identities_stay_under_their_own_destinations(
    router: RouterModel,
    iface: InterfaceId,
    p: PacketModel,
    secret: Seq<u8>,
)
    requires
        filed_under_own_destination(router.book),
    ensures
        filed_under_own_destination(router.routed(iface, p, secret).0.book),
{
    law_only_genuine_announces_are_learned(router, iface, p, secret);
}

/// Everything sent about a link request that is accepted goes back out the interface that the
/// request came in on.
pub proof fn law_proofs_go_back_the_way_requests_came(
    router: RouterModel,
    iface: InterfaceId,
    p: PacketModel,
    secret: Seq<u8>,
)
    requires
        router.accepts(p),
    ensures
        forall|i: int|
            0 <= i < router.routed(iface, p, secret).1.len() ==> match #[trigger] router.routed(
                iface,
                p,
                secret,
            ).1[i] {
                ActionModel::Send { iface: out, .. } => out == iface,
                ActionModel::Accepted { iface: at, destination, .. } => at == iface && destination
                    == p.destination,
                _ => false,
            },
{
}

/// A proof that is valid for a pending link establishes it, however it was addressed on the way:
/// what the asker holds then is what the answering endpoint holds.
pub proof fn law_an_answered_request_is_established(
    asker: RouterModel,
    answerer: RouterModel,
    iface: InterfaceId,
    request: PacketModel,
    arrived: PacketModel,
    secret: Seq<u8>,
    unused: Seq<u8>,
)
    requires
        asker.pending.contains_key(arrived.destination@),
        link::asked_for(asker.pending[arrived.destination@], request),
        !asker.bridges_packet(arrived),
        !asker.is_hop_for(arrived),
        arrived.packet_type == PacketType::Proof,
    ensures
        answerer.proves_to_the_asker(request, secret)
            && asker.pending[arrived.destination@].peer.ed25519@ == crypto::ed25519_public(
            answerer.seed,
        ) && arrived.destination == answerer.link_proof(request, secret).destination
            && arrived.payload == answerer.link_proof(request, secret).payload
            ==> asker.routed(iface, arrived, unused).1 == seq![
            ActionModel::Established {
                link: link::accepted_link(request, secret, own_trailer()),
                iface,
            },
        ],
{
}

/// A transport node passes nothing on past the hop limit: what has travelled the maximum is sent
/// nowhere, whether it is an announce, a packet of a bridged link, or a packet to be forwarded.
/// (The proof that answers a link request to us is our own packet.)
pub proof fn law_nothing_is_passed_on_past_the_hop_limit(
    router: RouterModel,
    iface: InterfaceId,
    p: PacketModel,
    secret: Seq<u8>,
)
    requires
        p.hops >= MAX_HOPS,
        !router.accepts(p),
    ensures
        forall|i: int|
            0 <= i < router.routed(iface, p, secret).1.len() ==> !(#[trigger] router.routed(
                iface,
                p,
                secret,
            ).1[i] is Send),
        router.routed(iface, p, secret).0.bridges == router.bridges,
{
}

/// The two sides of a bridge are each other's: what comes in on one goes out on the other, as long
/// as it has a hop left.
pub proof fn law_bridges_join_two_sides(
    router: RouterModel,
    p: PacketModel,
    a: InterfaceId,
    b: InterfaceId,
    secret: Seq<u8>,
)
    requires
        router.bridges_packet(p),
        router.bridges[p.destination@] == (a, b),
        p.hops < MAX_HOPS,
    ensures
        router.routed(a, p, secret).1 == router.sent_on(b, one_hop_on(p)),
        router.routed(b, p, secret).1 == router.sent_on(a, one_hop_on(p)),
        router.routed(a, p, secret).0 == router,
        router.routed(b, p, secret).0 == router,
{
}

} // verus!
