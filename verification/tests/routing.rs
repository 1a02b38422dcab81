//! Routing decisions: announces, link setup, delivery, and transport-node forwarding.

use retinue::destination::DestinationName;
use retinue::hash::AddressHash;
use retinue::link::{link_id, Link, CTX_CHANNEL, CTX_LRPROOF};
use retinue::packet::{DestinationType, HeaderType, Packet, PacketType, Propagation};
use retinue::rns_identity::PrivateIdentity;
use retinue::router::{Action, Router, MAX_HOPS};

fn name() -> DestinationName {
    DestinationName::new("retinue", ["dos"])
}

fn sends(actions: Vec<Action>) -> Vec<(u32, Packet)> {
    actions
        .into_iter()
        .filter_map(|a| match a {
            Action::Send { iface, packet } => Some((iface, packet)),
            _ => None,
        })
        .collect()
}

fn only_packet(actions: Vec<Action>) -> Packet {
    let mut sent = sends(actions);
    assert_eq!(sent.len(), 1);
    sent.remove(0).1
}

fn endpoint(seed: u8) -> Router {
    Router::new(PrivateIdentity::from_secret_bytes(&[seed; 64]))
}

fn announce_of(router: &Router) -> Packet {
    only_packet(router.announce(&name(), b"app", &[7; 10]))
}

#[test]
fn announces_are_learned_and_surfaced() {
    let mut server = endpoint(0x22);
    server.attach_interface();
    let mut client = endpoint(0x11);
    let iface = client.attach_interface();
    assert_eq!(client.interface_count(), 1);
    let mut packet = announce_of(&server);
    packet.hops = 3;
    let dest = packet.destination;
    assert!(client.resolve(dest).is_none());
    let actions = client.route(iface, packet, &[0; 64]);
    assert_eq!(actions.len(), 1);
    match &actions[0] {
        Action::Announced { announce } => {
            assert_eq!(announce.destination, dest);
            assert_eq!(announce.identity, *server.identity());
            assert_eq!(announce.app_data, b"app");
        }
        _ => panic!("expected the announce"),
    }
    assert_eq!(client.resolve(dest), Some(*server.identity()));
    assert_eq!(client.route_to(dest), Some((iface, 3)));
    assert_eq!(dest, name().destination_hash(server.identity()));
}

#[test]
fn the_shortest_route_is_kept() {
    let mut server = endpoint(0x22);
    server.attach_interface();
    let mut client = endpoint(0x11);
    let near = client.attach_interface();
    let far = client.attach_interface();
    let mut packet = announce_of(&server);
    let dest = packet.destination;
    packet.hops = 5;
    client.route(far, packet.clone(), &[0; 64]);
    packet.hops = 2;
    client.route(near, packet.clone(), &[0; 64]);
    packet.hops = 2;
    client.route(far, packet.clone(), &[0; 64]);
    assert_eq!(client.route_to(dest), Some((near, 2)));
    // An announce that does not verify teaches nothing.
    let mut forged = packet;
    forged.hops = 0;
    forged.payload[0] ^= 1;
    assert!(client.route(far, forged, &[0; 64]).is_empty());
    assert_eq!(client.route_to(dest), Some((near, 2)));
}

/// Open a link from a client to a server over one pipe; `meddle` sees the request first.
fn established(
    client: &mut Router,
    server: &mut Router,
    reliable: bool,
    meddle: &mut dyn FnMut(&mut Router, &Packet),
) -> (Link, Link) {
    let (c, s) = (client.attach_interface(), server.attach_interface());
    let peer = *server.identity();
    server.register(&name(), b"", reliable, &[1; 10]);
    let dest = name().destination_hash(&peer);
    let (id, actions) = client.open_link(dest, peer, &[0x33; 64]);
    let request = only_packet(actions);
    assert_eq!(link_id(&request).unwrap(), id);
    meddle(client, &request);
    let mut proof = None;
    let mut accepted = None;
    for action in server.route(s, request, &[0x99; 64]) {
        match action {
            Action::Send { packet, iface } => {
                assert_eq!(iface, s);
                proof = Some(packet);
            }
            Action::Accepted { link, destination, iface, reliable: r } => {
                assert_eq!((destination, iface, r), (dest, s, reliable));
                accepted = Some(link);
            }
            _ => panic!("unexpected action"),
        }
    }
    let mut actions = client.route(c, proof.unwrap(), &[0; 64]);
    assert_eq!(actions.len(), 1);
    match actions.remove(0) {
        Action::Established { link, iface } => {
            assert_eq!(iface, c);
            assert_eq!(link.id(), id);
            (link, accepted.unwrap())
        }
        _ => panic!("expected the link"),
    }
}

#[test]
fn a_link_opens_and_carries_data_both_ways() {
    let (mut client, mut server) = (endpoint(0x11), endpoint(0x22));
    let (ours, theirs) = established(&mut client, &mut server, false, &mut |_, _| {});
    client.register_link(&ours, false);
    let packet = ours.data_packet(b"ping", &[4; 16]);
    match &server.route(0, packet, &[0; 64])[..] {
        [Action::Deliver { link_id, data }] => {
            assert_eq!(*link_id, ours.id());
            assert_eq!(data, b"ping");
        }
        _ => panic!("expected the bytes"),
    }
    // The server's stream was registered when it accepted; the peer's close ends it, once.
    let actions = server.route(0, ours.close_packet(), &[0; 64]);
    assert!(matches!(&actions[..], [Action::Closed { link_id }] if *link_id == theirs.id()));
    assert!(server.route(0, ours.close_packet(), &[0; 64]).is_empty());
    client.remove_link(ours.id());
    assert!(client.route(0, theirs.data_packet(b"late", &[5; 16]), &[0; 64]).is_empty());
}

#[test]
fn a_reliable_link_gets_raw_packets() {
    let (mut client, mut server) = (endpoint(0x11), endpoint(0x22));
    let (ours, theirs) = established(&mut client, &mut server, true, &mut |_, _| {});
    let packet = ours.sealed_packet(CTX_CHANNEL, b"raw", &[4; 16]);
    // Not registered until its driver is bound.
    assert!(server.route(0, packet.clone(), &[0; 64]).is_empty());
    server.register_link(&theirs, true);
    let actions = server.route(0, packet.clone(), &[0; 64]);
    assert!(matches!(&actions[..], [Action::Drive { packet: p, .. }] if *p == packet));
    let proof = ours.data_proof(&packet, &client.private_identity());
    let actions = server.route(0, proof.clone(), &[0; 64]);
    assert!(matches!(&actions[..], [Action::Drive { packet: p, .. }] if *p == proof));
}

#[test]
fn a_forged_proof_does_not_strand_link_setup() {
    let (mut client, mut server) = (endpoint(0x11), endpoint(0x22));
    established(&mut client, &mut server, false, &mut |client, request| {
        // Right link id, wrong signature: 99 bytes of zeroes.
        let forged = Packet {
            ifac: false,
            header_type: HeaderType::Type1,
            context_flag: false,
            propagation: Propagation::Broadcast,
            destination_type: DestinationType::Link,
            packet_type: PacketType::Proof,
            hops: 0,
            transport: None,
            destination: link_id(request).unwrap(),
            context: CTX_LRPROOF,
            payload: vec![0u8; 99],
        };
        assert!(client.route(0, forged, &[0; 64]).is_empty());
    });
}

#[test]
fn an_abandoned_link_cannot_be_proved() {
    let (mut client, mut server) = (endpoint(0x11), endpoint(0x22));
    client.attach_interface();
    let s = server.attach_interface();
    server.register(&name(), b"", false, &[1; 10]);
    let peer = *server.identity();
    let (id, actions) = client.open_link(name().destination_hash(&peer), peer, &[0x33; 64]);
    let request = only_packet(actions);
    client.abandon_link(id);
    let proof = only_packet(server.route(s, request, &[0x99; 64]));
    assert!(client.route(0, proof, &[0; 64]).is_empty());
}

#[test]
fn requests_for_unknown_destinations_are_ignored() {
    let (mut client, mut server) = (endpoint(0x11), endpoint(0x22));
    client.attach_interface();
    server.attach_interface();
    let peer = *server.identity();
    let (_, actions) = client.open_link(AddressHash::from_bytes([8; 16]), peer, &[0x33; 64]);
    assert!(server.route(0, only_packet(actions), &[0x99; 64]).is_empty());
}

#[test]
fn an_endpoint_forwards_nothing_unless_it_opts_in() {
    let mut server = endpoint(0x22);
    server.attach_interface();
    let packet = announce_of(&server);
    let mut hub = endpoint(0x55);
    let a = hub.attach_interface();
    let b = hub.attach_interface();
    assert!(sends(hub.route(a, packet.clone(), &[0; 64])).is_empty());
    hub.enable_routing();
    let sent = sends(hub.route(a, packet.clone(), &[0; 64]));
    assert_eq!(sent.len(), 1);
    let (iface, onward) = &sent[0];
    assert_eq!(*iface, b);
    assert_eq!(onward.hops, packet.hops + 1);
    assert_eq!(onward.header_type, HeaderType::Type2);
    assert_eq!(onward.transport, Some(hub.identity().hash()));
    // Once is enough, wherever it comes in again.
    assert!(sends(hub.route(b, packet.clone(), &[0; 64])).is_empty());
}

#[test]
fn announces_stop_at_the_hop_limit() {
    let mut server = endpoint(0x22);
    server.attach_interface();
    let mut hub = endpoint(0x55);
    let a = hub.attach_interface();
    hub.attach_interface();
    hub.enable_routing();
    let mut packet = announce_of(&server);
    packet.hops = MAX_HOPS;
    let actions = hub.route(a, packet, &[0; 64]);
    assert!(matches!(&actions[..], [Action::Announced { .. }]));
}

#[test]
fn a_transport_node_bridges_a_link() {
    let mut hub = endpoint(0x55);
    let to_client = hub.attach_interface();
    let to_server = hub.attach_interface();
    hub.enable_routing();
    let (mut client, mut server) = (endpoint(0x11), endpoint(0x22));
    client.attach_interface();
    server.attach_interface();

    // The server's announce reaches the client through the hub.
    let announced = only_packet(server.register(&name(), b"", false, &[1; 10]));
    let onward = sends(hub.route(to_server, announced, &[0; 64])).remove(0);
    assert_eq!(onward.0, to_client);
    client.route(0, onward.1, &[0; 64]);
    let dest = name().destination_hash(server.identity());
    assert_eq!(client.route_to(dest), Some((0, 1)));

    // The request is addressed through the hub, which forwards it and remembers the bridge.
    let (id, actions) = client.open_link(dest, *server.identity(), &[0x33; 64]);
    let request = only_packet(actions);
    assert_eq!(request.header_type, HeaderType::Type2);
    assert_eq!(request.transport, Some(hub.identity().hash()));
    let sent = sends(hub.route(to_client, request, &[0; 64]));
    assert_eq!(sent.len(), 1);
    let (iface, forwarded) = sent.into_iter().next().unwrap();
    assert_eq!(iface, to_server);
    assert_eq!((forwarded.hops, forwarded.header_type, forwarded.transport), (1, HeaderType::Type1, None));

    // The proof comes back the other way, and data goes both ways.
    let proof = only_packet(server.route(0, forwarded, &[0x99; 64]));
    let back = sends(hub.route(to_server, proof, &[0; 64])).remove(0);
    assert_eq!(back.0, to_client);
    let mut actions = client.route(0, back.1, &[0; 64]);
    let link = match actions.remove(0) {
        Action::Established { link, .. } => link,
        _ => panic!("expected the link"),
    };
    assert_eq!(link.id(), id);
    let data = link.data_packet(b"through", &[6; 16]);
    // The hop limit holds on a bridge too: the last hop is counted, and no more.
    for (hops, passed) in [(0, true), (MAX_HOPS - 1, true), (MAX_HOPS, false), (255, false)] {
        let mut far = data.clone();
        far.hops = hops;
        let sent = sends(hub.route(to_client, far, &[0; 64]));
        assert_eq!(sent.len(), passed as usize);
        if passed {
            assert_eq!((sent[0].0, sent[0].1.hops), (to_server, hops + 1));
        }
    }
    let out = sends(hub.route(to_client, data, &[0; 64])).remove(0);
    assert_eq!(out.0, to_server);
    assert!(matches!(&server.route(0, out.1, &[0; 64])[..], [Action::Deliver { data, .. }] if data == b"through"));
}

#[test]
fn packets_for_a_hop_without_a_route_are_dropped() {
    let mut hub = endpoint(0x55);
    let a = hub.attach_interface();
    hub.attach_interface();
    hub.enable_routing();
    let mut client = endpoint(0x11);
    client.attach_interface();
    let peer = *endpoint(0x22).identity();
    let (_, actions) = client.open_link(AddressHash::from_bytes([8; 16]), peer, &[0x33; 64]);
    let mut request = only_packet(actions);
    request.header_type = HeaderType::Type2;
    request.transport = Some(hub.identity().hash());
    assert!(hub.route(a, request, &[0; 64]).is_empty());
}
