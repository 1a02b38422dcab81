//! The LoRa meshes: identities and adverts, and the text packets of an encrypted channel.

use retinue::advert::{Advert, MAX_ADVERT_DATA};
use retinue::application;
use retinue::application::{ApplicationEnvelope, ApplicationError, TEXT_PORT};
use retinue::identity::{Identity, LocalIdentity, PUB_KEY_SIZE, SIGNATURE_SIZE};
use retinue::node::{Channel, NodeError};
use retinue::transport::{
    ChannelKey, Header, Packet, TransportError, BROADCAST_DESTINATION, MAX_FRAME,
};

#[test]
fn sign_verify_roundtrip() {
    let li = LocalIdentity::from_seed([7u8; 32]);
    let id = li.identity();
    let sig = li.sign(b"advert body");
    assert!(id.verify(&sig, b"advert body"));
    assert!(!id.verify(&sig, b"advert bodY"));
}

#[test]
fn hash_is_pub_key_prefix() {
    let li = LocalIdentity::from_seed([9u8; 32]);
    let id = li.identity();
    assert_eq!(id.hash()[0], id.pub_key[0]);
    assert!(id.hash_matches(&id.hash()));
}

#[test]
fn bad_sig_len_rejected() {
    let li = LocalIdentity::from_seed([1u8; 32]);
    let id = li.identity();
    assert!(!id.verify(&[0u8; 63], b"m"));
}

#[test]
fn a_hash_matches_only_as_a_prefix() {
    let id = LocalIdentity::from_seed([9u8; 32]).identity();
    assert!(id.hash_matches(&[]));
    assert!(id.hash_matches(&id.pub_key));
    assert!(!id.hash_matches(&[id.pub_key[0], !id.pub_key[1]]));
    let mut long = id.pub_key.to_vec();
    long.push(0);
    assert!(!id.hash_matches(&long));
}

#[test]
fn the_public_key_of_a_seed_is_standard() {
    // RFC 8032, section 7.1, the first test vector.
    let seed = [
        0x9d, 0x61, 0xb1, 0x9d, 0xef, 0xfd, 0x5a, 0x60, 0xba, 0x84, 0x4a, 0xf4, 0x92, 0xec, 0x2c,
        0xc4, 0x44, 0x49, 0xc5, 0x69, 0x7b, 0x32, 0x69, 0x19, 0x70, 0x3b, 0xac, 0x03, 0x1c, 0xae,
        0x7f, 0x60,
    ];
    let id = LocalIdentity::from_seed(seed).identity();
    assert_eq!(
        id.pub_key[..8],
        [0xd7, 0x5a, 0x98, 0x01, 0x82, 0xb1, 0x0a, 0xb7]
    );
}

#[test]
fn shared_secrets_agree() {
    let a = LocalIdentity::from_seed([3u8; 32]);
    let b = LocalIdentity::from_seed([4u8; 32]);
    let ab = a.shared_secret(&b.identity()).unwrap();
    let ba = b.shared_secret(&a.identity()).unwrap();
    assert_eq!(ab, ba);
    assert_ne!(ab, b.identity().pub_key);
    assert_ne!(ab, a.shared_secret(&a.identity()).unwrap());
}

#[test]
fn a_key_off_the_curve_shares_nothing() {
    let a = LocalIdentity::from_seed([3u8; 32]);
    // y = 2 is not the y-coordinate of a point on the curve.
    let mut key = [0u8; 32];
    key[0] = 2;
    assert_eq!(a.shared_secret(&Identity::new(key)), None);
    assert!(!Identity::new(key).verify(&[0u8; SIGNATURE_SIZE], b"m"));
}

fn li() -> LocalIdentity {
    LocalIdentity::from_seed([42u8; 32])
}

#[test]
fn roundtrip() {
    let wire = Advert::encode(&li(), 1_752_969_600, b"Mark's node").unwrap();
    let adv = Advert::decode(&wire).unwrap();
    assert_eq!(adv.identity, li().identity());
    assert_eq!(adv.timestamp, 1_752_969_600);
    assert_eq!(adv.app_data, b"Mark's node");
}

#[test]
fn timestamp_is_little_endian() {
    let wire = Advert::encode(&li(), 0x0102_0304, b"").unwrap();
    assert_eq!(&wire[PUB_KEY_SIZE..PUB_KEY_SIZE + 4], &[4, 3, 2, 1]);
}

#[test]
fn tampered_app_data_rejected() {
    let mut wire = Advert::encode(&li(), 5, b"honest").unwrap();
    let last = wire.len() - 1;
    wire[last] ^= 0xFF;
    assert!(Advert::decode(&wire).is_none());
}

#[test]
fn tampered_timestamp_rejected() {
    let mut wire = Advert::encode(&li(), 5, b"x").unwrap();
    wire[PUB_KEY_SIZE] ^= 1;
    assert!(Advert::decode(&wire).is_none());
}

#[test]
fn truncated_rejected() {
    let wire = Advert::encode(&li(), 5, b"").unwrap();
    assert!(Advert::decode(&wire[..wire.len() - 1]).is_none());
}

#[test]
fn oversize_app_data_refused_on_encode() {
    assert!(Advert::encode(&li(), 5, &[0u8; MAX_ADVERT_DATA + 1]).is_none());
}

#[test]
fn empty_app_data_ok() {
    let wire = Advert::encode(&li(), 9, b"").unwrap();
    assert_eq!(wire.len(), PUB_KEY_SIZE + 4 + SIGNATURE_SIZE);
    assert!(Advert::decode(&wire).is_some());
}

#[test]
fn app_data_past_the_limit_is_cut_before_verification() {
    let full = [0x5a; MAX_ADVERT_DATA];
    let mut wire = Advert::encode(&li(), 9, &full).unwrap();
    wire.extend_from_slice(b"trailing bytes that nobody signed");
    let advert = Advert::decode(&wire).unwrap();
    assert_eq!(advert.app_data, full);
    assert_eq!(advert.clone(), advert);
}

const PUBLIC_LONGFAST: Channel = Channel {
    hash: 8,
    key: ChannelKey::Aes128([
        0xd4, 0xf1, 0xbb, 0x3a, 0x20, 0x29, 0x07, 0x59, 0xf0, 0xbc, 0xff, 0xab, 0xcf, 0x4e,
        0x69, 0x01,
    ]),
};

fn header() -> Header {
    Header {
        destination: BROADCAST_DESTINATION,
        source: 0xf66a_fb28,
        packet_id: 0xb726_0722,
        hop_limit: 3,
        want_ack: false,
        via_mqtt: false,
        hop_start: 3,
        channel_hash: 0,
        next_hop: 0,
        relay_node: 0x28,
    }
}

#[test]
fn channel_seals_the_live_direct_phy_fixture() {
    let frame = PUBLIC_LONGFAST
        .seal_text(header(), "sennet semantic api 0722")
        .unwrap();
    assert_eq!(
        frame,
        [
            0xff, 0xff, 0xff, 0xff, 0x28, 0xfb, 0x6a, 0xf6, 0x22, 0x07, 0x26, 0xb7, 0x63, 0x08,
            0x00, 0x28, 0x4b, 0x7d, 0x51, 0xa4, 0xc9, 0xc7, 0x21, 0x3e, 0xa4, 0x48, 0xe7, 0x5c,
            0x57, 0x82, 0x1c, 0x0e, 0x59, 0xda, 0xb7, 0x32, 0x02, 0xad, 0x10, 0x7f, 0x40, 0x78,
            0x55, 0xd7,
        ]
    );
    let opened = PUBLIC_LONGFAST.open_text(&frame).unwrap().unwrap();
    let mut expected_header = header();
    expected_header.channel_hash = PUBLIC_LONGFAST.hash;
    assert_eq!(opened.header, expected_header);
    assert_eq!(opened.text, "sennet semantic api 0722");
}

#[test]
fn other_channels_are_ignored_before_decryption() {
    let mut frame = PUBLIC_LONGFAST.seal_text(header(), "hello").unwrap();
    frame[13] = 9;
    assert_eq!(PUBLIC_LONGFAST.open_text(&frame).unwrap(), None);
}

#[test]
fn a_256_bit_channel_round_trips_too() {
    let channel = Channel { hash: 3, key: ChannelKey::Aes256([0x17; 32]) };
    let text = "caf\u{e9} \u{1f4fb}";
    let frame = channel.seal_text(header(), text).unwrap();
    assert_eq!(channel.open_text(&frame).unwrap().unwrap().text, text);
    // The payload is not in the clear.
    assert_ne!(frame[16..], application::encode_text(text)[..]);
    // The other key reads something else, if anything.
    let other = Channel { hash: 3, key: ChannelKey::Aes256([0x18; 32]) };
    assert!(!matches!(other.open_text(&frame), Ok(Some(r)) if r.text == text));
}

#[test]
fn transport_refuses_what_the_header_or_radio_cannot_hold() {
    let mut high = header();
    high.hop_limit = 8;
    assert_eq!(
        PUBLIC_LONGFAST.seal_text(high, "x"),
        Err(NodeError::Transport(TransportError::HopsOutOfRange))
    );
    let long = "x".repeat(MAX_FRAME);
    assert_eq!(
        PUBLIC_LONGFAST.seal_text(header(), &long),
        Err(NodeError::Transport(TransportError::TooLong))
    );
    // 16 header bytes, five envelope bytes, and 234 of text make 255.
    assert_eq!(PUBLIC_LONGFAST.seal_text(header(), &"y".repeat(234)).unwrap().len(), 255);
    assert!(PUBLIC_LONGFAST.seal_text(header(), &"y".repeat(235)).is_err());
    assert_eq!(
        PUBLIC_LONGFAST.open_text(&[0; 15]),
        Err(NodeError::Transport(TransportError::Truncated))
    );
    assert_eq!(
        PUBLIC_LONGFAST.open_text(&[0; 256]),
        Err(NodeError::Transport(TransportError::TooLong))
    );
}

#[test]
fn headers_round_trip() {
    let packet = Packet {
        header: Header {
            destination: 0x0102_0304,
            source: 0x0506_0708,
            packet_id: 0x090a_0b0c,
            hop_limit: 5,
            want_ack: true,
            via_mqtt: true,
            hop_start: 7,
            channel_hash: 0x55,
            next_hop: 0x66,
            relay_node: 0x77,
        },
        payload: vec![1, 2, 3],
    };
    let frame = packet.encode().unwrap();
    assert_eq!(
        frame,
        [
            0x04, 0x03, 0x02, 0x01, 0x08, 0x07, 0x06, 0x05, 0x0c, 0x0b, 0x0a, 0x09, 0xfd, 0x55,
            0x66, 0x77, 1, 2, 3,
        ]
    );
    assert_eq!(Packet::decode(&frame).unwrap(), packet);
}

#[test]
fn the_cipher_undoes_itself() {
    let key = ChannelKey::Aes128([1; 16]);
    let mut packet = Packet { header: header(), payload: vec![9; 40] };
    packet.apply_channel_cipher(&key);
    assert_ne!(packet.payload, vec![9; 40]);
    packet.apply_channel_cipher(&key);
    assert_eq!(packet.payload, vec![9; 40]);
}

#[test]
fn envelopes_skip_fields_they_do_not_know() {
    // Port 1, a fixed 32-bit field, a fixed 64-bit field, an unknown varint, then the bytes.
    let wire = [
        0x08, 0x01, 0x1d, 1, 2, 3, 4, 0x21, 1, 2, 3, 4, 5, 6, 7, 8, 0x28, 0xac, 0x02, 0x12, 0x02,
        b'h', b'i',
    ];
    let envelope = ApplicationEnvelope::decode(&wire).unwrap();
    assert_eq!(envelope.port, TEXT_PORT);
    assert_eq!(envelope.text().unwrap(), "hi");
    let blank = ApplicationEnvelope::decode(&[]).unwrap();
    assert_eq!((blank.port, blank.payload), (0, vec![]));
}

#[test]
fn malformed_envelopes_are_errors() {
    for wire in [
        &[0x08][..],
        &[0x12, 0x05, b'x'][..],
        &[0x0b][..],
        &[0x1d, 1, 2][..],
        &[0x21, 1, 2][..],
        &[0x80, 0x80, 0x80, 0x80, 0x80, 0x80, 0x80, 0x80, 0x80, 0x80, 0x01][..],
        &[0x08, 0xff, 0xff, 0xff, 0xff, 0x1f][..],
    ] {
        assert_eq!(ApplicationEnvelope::decode(wire), Err(ApplicationError::Malformed));
    }
    let raw = ApplicationEnvelope { port: TEXT_PORT, payload: vec![0xff, 0xfe] };
    assert_eq!(raw.text(), Err(ApplicationError::NotText));
}

#[test]
fn decrypted_payloads_are_read_as_text_or_not() {
    let h = header();
    let c = PUBLIC_LONGFAST;
    assert_eq!(c.read_text(h, &[0x08, 0x03]).unwrap(), None);
    assert_eq!(
        c.read_text(h, &[0x12, 0x09]),
        Err(NodeError::Application(ApplicationError::Malformed))
    );
    assert_eq!(
        c.read_text(h, &[0x08, 0x01, 0x12, 0x01, 0xff]),
        Err(NodeError::Application(ApplicationError::NotText))
    );
    let read = c.read_text(h, &application::encode_text("ok")).unwrap().unwrap();
    assert_eq!(read.text, "ok");
    assert_eq!(read.clone(), read);
}

#[test]
fn long_text_takes_a_longer_length() {
    let text = "z".repeat(300);
    let wire = application::encode_text(&text);
    assert_eq!(wire[..5], [0x08, 0x01, 0x12, 0xac, 0x02]);
    assert_eq!(ApplicationEnvelope::decode(&wire).unwrap().text().unwrap(), text);
}

#[test]
fn node_errors_say_where_they_came_from() {
    assert_eq!(
        NodeError::Transport(TransportError::Truncated).to_string(),
        "transport: frame is shorter than its header"
    );
    assert_eq!(
        NodeError::Transport(TransportError::TooLong).to_string(),
        "transport: frame is longer than the radio carries"
    );
    assert_eq!(
        NodeError::Transport(TransportError::HopsOutOfRange).to_string(),
        "transport: hop count does not fit the header"
    );
    assert_eq!(
        NodeError::Application(ApplicationError::Malformed).to_string(),
        "application: malformed envelope"
    );
    assert_eq!(
        NodeError::Application(ApplicationError::NotText).to_string(),
        "application: payload is not text"
    );
}
