//! Links, hashes, packets, announces, and the address book.

use retinue::address_book::AddressBook;
use retinue::announce;
use retinue::announce::Announce;
use retinue::destination::DestinationName;
use retinue::entropy;
use retinue::error::Error;
use retinue::hash::{full_hash, AddressHash, NameHash, ADDRESS_HASH_LEN, NAME_HASH_LEN};
use retinue::link::{
    accept, link_id, Inbound, LinkMode, LinkTrailer, PendingLink, CTX_LRPROOF, CTX_LRRTT,
    CTX_REQUEST, CTX_RESPONSE, KEEPALIVE_REQUEST, KEEPALIVE_RESPONSE, LINK_REQUEST_LEN,
};
use retinue::packet::{DestinationType, HeaderType, Packet, PacketType, Propagation};
use retinue::path::{path_request, path_request_destination, TAG_LEN};
use retinue::rns_identity::{Identity, PrivateIdentity};
use retinue::token::DerivedKeys;

fn unhex(text: &str) -> Vec<u8> {
    let digits: Vec<char> = text.chars().filter(|c| c.is_ascii_hexdigit()).collect();
    digits
        .chunks(2)
        .map(|pair| {
            let digit = |c: char| c.to_digit(16).unwrap() as u8;
            digit(pair[0]) * 16 + digit(pair[1])
        })
        .collect()
}

fn request(dest_hex: &str, payload_hex: &str) -> Packet {
    Packet {
        ifac: false,
        header_type: HeaderType::Type1,
        context_flag: false,
        propagation: Propagation::Broadcast,
        destination_type: DestinationType::Single,
        packet_type: PacketType::LinkRequest,
        hops: 0,
        transport: None,
        destination: AddressHash::from_slice(&unhex(dest_hex)).unwrap(),
        context: 0,
        payload: unhex(payload_hex),
    }
}

/// Captured: RNS proved back to this link id for a 64-byte request sent to it.
#[test]
fn link_id_matches_the_captured_proof_address() {
    let p = request(
        "a8725a7e212dace39e9f99a8ac5da28c",
        "0faa684ed28867b97f4a6a2dee5df8ce974e76b7018e3f22a1c4cf2678570f20\
         a09aa5f47a6759802ff955f8dc2d2a14a5c99d23be97f864127ff9383455a4f0",
    );
    assert_eq!(
        link_id(&p).unwrap().to_string(),
        "7c88505173382e78aaaae5ecdf122eec",
    );
}

/// Captured: RNS reported this link id for the 67-byte request it sent. The
/// trailer must NOT feed the hash, and this is the case that proves it.
#[test]
fn link_id_ignores_the_trailer() {
    let p = request(
        "19208507854a8a0b871f881170d475aa",
        "f72075eeade493f3a3fd94d98cba8b628cf5cce2532b0903b48b1c2024676164\
         f7cf9beb5793e668eb8c589096d382c616db7a7ebdd0ec6407e8a7d89452dd4e\
         202000",
    );
    assert_eq!(p.payload.len(), LINK_REQUEST_LEN);
    assert_eq!(
        link_id(&p).unwrap().to_string(),
        "5452ae4c3251cffa6b080779f943dfa4",
    );
}

#[test]
fn captured_trailers_decode() {
    // What an RNS initiator sends: AES-256, asking for 8192.
    let req = LinkTrailer::decode(&[0x20, 0x20, 0x00]).unwrap();
    assert_eq!(req.mode, LinkMode::Aes256Cbc);
    assert_eq!(req.mtu, 8192);

    // What the responder answers: AES-256, settling on 500 (= Reticulum.MTU).
    let proof = LinkTrailer::decode(&[0x20, 0x01, 0xf4]).unwrap();
    assert_eq!(proof.mode, LinkMode::Aes256Cbc);
    assert_eq!(proof.mtu, 500);
}

#[test]
fn trailers_round_trip() {
    for t in [
        LinkTrailer { mode: LinkMode::Aes256Cbc, mtu: 8192 },
        LinkTrailer { mode: LinkMode::Aes256Cbc, mtu: 500 },
        LinkTrailer { mode: LinkMode::Aes128Cbc, mtu: 500 },
    ] {
        assert_eq!(LinkTrailer::decode(&t.encode()).unwrap(), t);
    }
    assert_eq!(
        LinkTrailer { mode: LinkMode::Aes256Cbc, mtu: 8192 }.encode(),
        [0x20, 0x20, 0x00],
    );
}

#[test]
fn a_short_payload_is_an_error() {
    let p = request("a8725a7e212dace39e9f99a8ac5da28c", "0faa");
    assert!(link_id(&p).is_err());
}

/// Initiator and responder must agree on the link id and the session
/// key, and then talk. This checks the two sides are mutually consistent.
#[test]
fn initiator_and_responder_agree() {
    let dest_identity = PrivateIdentity::from_secret_bytes(&[0x11; 64]);
    let peer = *dest_identity.public();
    let dest_hash = DestinationName::new("retinue", ["test"]).destination_hash(&peer);

    let trailer = LinkTrailer { mode: LinkMode::Aes256Cbc, mtu: 500 };

    // Initiator opens.
    let (pending, request) = PendingLink::open(dest_hash, peer, &[0x33; 64], trailer);

    // Responder accepts and proves.
    let (responder_link, proof) =
        accept(&request, &dest_identity, &[0x99; 64], trailer).unwrap();

    // Initiator verifies the proof and establishes.
    let initiator_link = pending.prove(&proof).unwrap();

    assert_eq!(initiator_link.id(), responder_link.id());
    assert_eq!(initiator_link.id(), pending.link_id());

    // The shared key round-trips: what one encrypts, the other decrypts.
    let msg = b"across the link";
    let packet = initiator_link.data_packet(msg, &[0x01; 16]);
    assert_eq!(responder_link.receive(&packet), Some(Inbound::Data(msg.to_vec())));

    let back = responder_link.data_packet(b"and back", &[0x02; 16]);
    assert_eq!(
        initiator_link.receive(&back),
        Some(Inbound::Data(b"and back".to_vec())),
    );
}

#[test]
fn receive_classifies_link_traffic() {
    let dest_identity = PrivateIdentity::from_secret_bytes(&[0x11; 64]);
    let (_pending, request) = PendingLink::open(
        DestinationName::new("retinue", ["test"]).destination_hash(dest_identity.public()),
        *dest_identity.public(),
        &[0x33; 64],
        LinkTrailer { mode: LinkMode::Aes256Cbc, mtu: 500 },
    );
    let (link, _proof) = accept(
        &request,
        &dest_identity,
        &[0x99; 64],
        LinkTrailer { mode: LinkMode::Aes256Cbc, mtu: 500 },
    )
    .unwrap();

    assert_eq!(
        link.receive(&link.keepalive_packet(KEEPALIVE_REQUEST)),
        Some(Inbound::KeepAliveRequest),
    );
    assert_eq!(
        link.receive(&link.keepalive_packet(KEEPALIVE_RESPONSE)),
        Some(Inbound::KeepAliveResponse),
    );
    assert_eq!(link.receive(&link.close_packet()), Some(Inbound::Close));

    // A packet for a different link id is not ours.
    let mut foreign = link.keepalive_packet(KEEPALIVE_REQUEST);
    foreign.destination = AddressHash::from_bytes([0xAB; 16]);
    assert_eq!(link.receive(&foreign), None);
}

#[test]
fn a_proof_that_is_not_the_peers_establishes_nothing() {
    let server = PrivateIdentity::from_secret_bytes(&[0x11; 64]);
    let dest = DestinationName::new("retinue", ["test"]).destination_hash(server.public());
    let trailer = LinkTrailer { mode: LinkMode::Aes256Cbc, mtu: 500 };
    let (pending, asked) = PendingLink::open(dest, *server.public(), &[0x33; 64], trailer);
    let (_, genuine) = accept(&asked, &server, &[0x99; 64], trailer).unwrap();

    let impostor = PrivateIdentity::from_secret_bytes(&[0x44; 64]);
    let (_, forged) = accept(&asked, &impostor, &[0x99; 64], trailer).unwrap();
    assert_eq!(pending.prove(&forged).err(), Some(Error::BadSignature));

    let mut cut = genuine.clone();
    cut.payload.truncate(95);
    assert_eq!(pending.prove(&cut).err(), Some(Error::Truncated));
    let mut other = genuine.clone();
    other.destination = AddressHash::from_bytes([1; 16]);
    assert_eq!(pending.prove(&other).err(), Some(Error::LinkMismatch));
    assert_eq!(pending.prove(&asked).err(), Some(Error::NotAProof));
    assert_eq!(accept(&genuine, &server, &[0x99; 64], trailer).err(), Some(Error::NotALinkRequest));
    assert_eq!(genuine.context, CTX_LRPROOF);
    assert!(pending.prove(&genuine).is_ok());
    assert_eq!(LinkTrailer::decode(&[0xff, 0, 0]).err(), Some(Error::BadLinkMode));
}

#[test]
fn link_ids_ignore_the_route() {
    let mut p = request("a8725a7e212dace39e9f99a8ac5da28c", &"5a".repeat(64));
    let id = link_id(&p).unwrap();
    p.hops = 9;
    p.header_type = HeaderType::Type2;
    p.transport = Some(AddressHash::from_bytes([3; 16]));
    assert_eq!(link_id(&p).unwrap(), id);
    assert_eq!(p.hash().as_slice(), &p.full_hash()[..16]);
}

#[test]
fn tokens_refuse_tampering() {
    let keys = DerivedKeys::derive(&[7; 32], AddressHash::from_bytes([9; 16]));
    let token = keys.encrypt(b"a secret", &[3; 16]);
    assert_eq!(token[..16], [3; 16]);
    assert_eq!(token.len(), 16 + 16 + 32);
    assert_eq!(keys.decrypt(&token).unwrap(), b"a secret");
    let mut bent = token.clone();
    bent[20] ^= 1;
    assert_eq!(keys.decrypt(&bent), Err(Error::BadHmac));
    assert_eq!(keys.decrypt(&token[..40]), Err(Error::Truncated));
    let others = DerivedKeys::derive(&[8; 32], AddressHash::from_bytes([9; 16]));
    assert_eq!(others.decrypt(&token), Err(Error::BadHmac));
}

#[test]
fn requests_and_responses_are_sealed() {
    let server = PrivateIdentity::from_secret_bytes(&[0x11; 64]);
    let dest = DestinationName::new("retinue", ["test"]).destination_hash(server.public());
    let trailer = LinkTrailer { mode: LinkMode::Aes256Cbc, mtu: 500 };
    let (_, asked) = PendingLink::open(dest, *server.public(), &[0x33; 64], trailer);
    let (link, _) = accept(&asked, &server, &[0x99; 64], trailer).unwrap();
    let packet = link.request_packet(b"packed", &[1; 16]);
    assert_eq!(packet.context, CTX_REQUEST);
    assert_eq!(link.decrypt(&packet).unwrap(), b"packed");
    let packet = link.response_packet(b"answer", &[1; 16]);
    assert_eq!(packet.context, CTX_RESPONSE);
    assert_eq!(link.decrypt(&packet).unwrap(), b"answer");
    // The round trip goes out as a msgpack float: its marker, then the four bytes.
    let packet = link.rtt_packet(&[0x3f, 0x80, 0x00, 0x00], &[1; 16]);
    assert_eq!(packet.context, CTX_LRRTT);
    assert_eq!(link.decrypt(&packet).unwrap(), [0xca, 0x3f, 0x80, 0x00, 0x00]);
    assert_eq!(link.open(&link.seal(b"blob", &[2; 16])).unwrap(), b"blob");
    assert_eq!((link.mode(), link.mtu()), (LinkMode::Aes256Cbc, 500));
}

#[test]
fn truncations_are_prefixes_of_the_full_digest() {
    let data = b"retinue";
    let full = full_hash(data);
    assert_eq!(AddressHash::of(data).as_slice(), &full[..ADDRESS_HASH_LEN]);
    assert_eq!(NameHash::of(data).as_slice(), &full[..NAME_HASH_LEN]);
}

#[test]
fn the_full_hash_is_sha256() {
    assert_eq!(
        full_hash(b"abc").to_vec(),
        unhex("ba7816bf8f01cfea414140de5dae2223b00361a396177a9cb410ff61f20015ad")
    );
    assert_eq!(AddressHash::of(b"abc").to_string(), "ba7816bf8f01cfea414140de5dae2223");
    assert_eq!(NameHash::of(b"abc").to_string(), "ba7816bf8f01cfea4141");
    assert_eq!(AddressHash::from_slice(&[0; 15]), None);
    assert_eq!(NameHash::from_slice(&[0; 9]), None);
    // Read from the front of what is there.
    assert_eq!(NameHash::from_slice(&[4; 11]), Some(NameHash::from_bytes([4; 10])));
}

/// Known answer from capturing `RNS.Transport.request_path`.
#[test]
fn path_request_destination_matches_rns() {
    assert_eq!(
        path_request_destination().to_string(),
        "6b9f66014d9853faab220fba47d02761",
    );
}

#[test]
fn path_request_layout() {
    let target = AddressHash::from_bytes([
        0x00, 0x11, 0x22, 0x33, 0x44, 0x55, 0x66, 0x77, 0x88, 0x99, 0xaa, 0xbb, 0xcc, 0xdd,
        0xee, 0xff,
    ]);
    let tag = [0xAB; TAG_LEN];
    let p = path_request(target, &tag);

    assert_eq!(p.packet_type, PacketType::Data);
    assert_eq!(p.destination_type, DestinationType::Plain);
    assert_eq!(p.destination, path_request_destination());
    assert_eq!(&p.payload[..16], target.as_slice());
    assert_eq!(&p.payload[16..], &tag);

    // Re-decoding a re-encoding preserves it.
    let round = Packet::decode(&p.encode()).unwrap();
    assert_eq!(round.payload, p.payload);
    assert_eq!(round.destination_type, DestinationType::Plain);
}

#[test]
fn packets_round_trip_in_both_header_types() {
    let mut p = request("a8725a7e212dace39e9f99a8ac5da28c", "0102030405");
    p.hops = 4;
    p.context = 0x0e;
    p.context_flag = true;
    assert_eq!(Packet::decode(&p.encode()).unwrap(), p);
    p.header_type = HeaderType::Type2;
    p.transport = Some(AddressHash::from_bytes([7; 16]));
    assert_eq!(Packet::decode(&p.encode()).unwrap(), p);
    assert_eq!(Packet::decode(&[0, 0, 1]).err(), Some(Error::Truncated));
}

fn announced(app_data: &[u8], ratchet: Option<[u8; 32]>) -> Announce {
    let id = PrivateIdentity::from_secret_bytes(&[0x42; 64]);
    let name = DestinationName::new("retinue", ["fixture"]);
    let packet = announce::build(&id, name.name_hash(), &[5; 10], ratchet, app_data);
    Announce::decode(&packet).unwrap()
}

#[test]
fn announces_round_trip_and_refuse_tampering() {
    let a = announced(b"hello", Some([6; 32]));
    let id = PrivateIdentity::from_secret_bytes(&[0x42; 64]);
    assert_eq!(a.identity, *id.public());
    assert_eq!(a.app_data, b"hello");
    assert_eq!(a.ratchet, Some([6; 32]));

    let name = DestinationName::new("retinue", ["fixture"]);
    let packet = announce::build(&id, name.name_hash(), &[5; 10], None, b"hello");
    let mut bent = packet.clone();
    let last = bent.payload.len() - 1;
    bent.payload[last] ^= 1;
    assert_eq!(Announce::decode(&bent).err(), Some(Error::BadSignature));
    let mut moved = packet.clone();
    moved.destination = AddressHash::from_bytes([0; 16]);
    assert!(Announce::decode(&moved).is_err());
    let mut cut = packet.clone();
    cut.payload.truncate(100);
    assert_eq!(Announce::decode(&cut).err(), Some(Error::Truncated));
    let mut other = packet;
    other.packet_type = PacketType::Data;
    assert_eq!(Announce::decode(&other).err(), Some(Error::NotAnAnnounce));
}

#[test]
fn re_ingesting_an_announce_refreshes_its_peer() {
    let mut book = AddressBook::new();
    let plain = announced(b"", None);
    let with_data = announced(b"retinue-r0-fixture", Some([1; 32]));
    assert_eq!(plain.destination, with_data.destination);
    assert!(!book.knows(plain.destination));
    assert!(book.is_empty());
    book.ingest(&plain);
    assert!(book.resolve(plain.destination).unwrap().ratchet.is_none());
    book.ingest(&with_data);
    assert_eq!(book.len(), 1);
    let peer = book.resolve(plain.destination).unwrap();
    assert_eq!(peer.announces_seen, 2);
    assert_eq!(peer.app_data, b"retinue-r0-fixture"); // the later one won
    assert_eq!(peer.identity.hash(), plain.identity.hash());
    assert_eq!(book.destinations(), vec![plain.destination]);
    assert_eq!(book.forget(plain.destination).unwrap().announces_seen, 2);
    assert!(book.forget(plain.destination).is_none());
    assert_eq!(book.len(), 0);
}

#[test]
fn public_keys_come_and_go_as_bytes() {
    let id = *PrivateIdentity::from_secret_bytes(&[0x42; 64]).public();
    let keys = id.to_public_bytes();
    assert_eq!(keys.len(), 64);
    assert_eq!(Identity::from_public_bytes(&keys), Some(id));
    assert_eq!(Identity::from_public_bytes(&keys[..63]), None);
    assert_eq!(id.hash(), AddressHash::of(&keys));
}

#[test]
fn identities_sign_and_agree() {
    let a = PrivateIdentity::from_secret_bytes(&[0x01; 64]);
    let b = PrivateIdentity::from_secret_bytes(&[0x02; 64]);
    let signature = a.sign(b"m");
    assert!(a.public().verify(b"m", &signature));
    assert!(!b.public().verify(b"m", &signature));
    assert_eq!(
        a.diffie_hellman(b.public().x25519_bytes()),
        b.diffie_hellman(a.public().x25519_bytes())
    );
}

#[test]
fn randomness_is_fresh() {
    assert_ne!(entropy::next_iv().unwrap(), entropy::next_iv().unwrap());
    assert_ne!(entropy::rand_hash().unwrap(), [0; 10]);
    assert_ne!(entropy::ephemeral_seed().unwrap().to_vec(), vec![0; 64]);
}

#[test]
fn a_draw_is_taken_as_it_came() {
    assert_eq!(entropy::take_draw::<4>(Some(vec![9, 0, 7, 255])), Ok([9, 0, 7, 255]));
    assert_eq!(entropy::take_draw::<0>(Some(vec![])), Ok([]));
    assert_eq!(entropy::take_draw::<4>(None), Err(Error::NoEntropy));
}
