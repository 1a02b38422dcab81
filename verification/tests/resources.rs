//! Resources: the advertisement codec and whole transfers.

use retinue::advertisement::Advertisement;
use retinue::destination::DestinationName;
use retinue::error::Error;
use retinue::hash::full_hash;
use retinue::link::{accept, Link, LinkMode, LinkTrailer, PendingLink};
use retinue::msgpack::{MapReader, MapWriter};
use retinue::packet::Packet;
use retinue::resource::{
    advertise, compress, content, data_from_content, decompress, map_hash, parse_hmu, parse_proof,
    parse_request, proof_of, resource_hash, split_parts, Incoming, Outgoing, HASHMAP_SLICE, SDU,
};
use retinue::resource_transfer::{ResourceReceiver, ResourceSender};
use retinue::rns_identity::PrivateIdentity;
use retinue::token::IV_LEN;

fn unhex(text: &str) -> Vec<u8> {
    let digits: Vec<char> = text.chars().filter(|c| c.is_ascii_hexdigit()).collect();
    digits
        .chunks(2)
        .map(|pair| {
            let digit = |c: char| c.to_digit(16).unwrap() as u8;
            digit(pair[0]) * 16 + digit(pair[1])
        })
        .collect()
}

/// A deterministic medium: drops and delays by a seeded generator.
struct LossModel {
    state: u64,
    drop_per_mille: u32,
    max_delay: u64,
}

impl LossModel {
    fn new(seed: u64) -> Self {
        LossModel {
            state: seed.wrapping_mul(0x9e37_79b9_7f4a_7c15) ^ 0xd1b5_4a32_d192_ed03,
            drop_per_mille: 0,
            max_delay: 0,
        }
    }
    fn drop_per_mille(mut self, n: u32) -> Self {
        self.drop_per_mille = n;
        self
    }
    fn max_delay_ms(mut self, n: u64) -> Self {
        self.max_delay = n;
        self
    }
    fn next(&mut self) -> u64 {
        self.state ^= self.state << 13;
        self.state ^= self.state >> 7;
        self.state ^= self.state << 17;
        self.state
    }
    fn should_drop(&mut self) -> bool {
        self.next() % 1000 < self.drop_per_mille as u64
    }
    fn delay_ms(&mut self) -> u64 {
        if self.max_delay == 0 {
            0
        } else {
            self.next() % (self.max_delay + 1)
        }
    }
}

/// A real captured advertisement.
const ADV: &str = "8ba174cd02d0a164cd1000a16e02a168c42011b44f89a2dc4d73865701b5174b2\
                   0a532c53325651383a749b33c863b7fb60ea172c404fddb2d74a16fc42011b44f\
                   89a2dc4d73865701b5174b20a532c53325651383a749b33c863b7fb60ea16901a\
                   16c01a171c0a16603a16dc408202ecd18fe3e1fcb";

fn adv_bytes() -> Vec<u8> {
    unhex(ADV)
}

#[test]
fn parses_the_captured_advertisement() {
    let a = Advertisement::parse(&adv_bytes()).unwrap();
    assert_eq!(a.transfer_size, 720);
    assert_eq!(a.data_size, 4096);
    assert_eq!(a.parts, 2);
    assert_eq!(a.flags, 3);
    assert_eq!(a.resource_hash.len(), 32);
    assert_eq!(a.original_hash.len(), 32);
    assert_eq!(a.random_hash.len(), 4);
    assert_eq!(a.random_hash, unhex("fddb2d74"));
    assert_eq!(a.hashmap, unhex("202ecd18fe3e1fcb"));
    assert_eq!(a.hashmap_parts(), 2);
    assert_eq!(a.i, 1);
    assert_eq!(a.l, 1);
    assert_eq!(a.q, None);
}

/// Re-packing the parsed advertisement reproduces the exact captured bytes. This is the
/// proof the codec is faithful, key order and all.
#[test]
fn repacks_to_the_exact_captured_bytes() {
    let a = Advertisement::parse(&adv_bytes()).unwrap();
    assert_eq!(a.pack(), adv_bytes());
}

#[test]
fn proof_packet_round_trips() {
    let h = [0x11; 32];
    let p = [0x22; 32];
    let mut payload = h.to_vec();
    payload.extend_from_slice(&p);
    assert_eq!(parse_proof(&payload), Some((h, p)));
    assert_eq!(parse_proof(&payload[..63]), None);
}

#[test]
fn compress_round_trips() {
    // Compressible input so bz2 actually shrinks it.
    let content: Vec<u8> = (0..8000u32).map(|i| (i / 40) as u8).collect();
    let squished = compress(&content);
    assert!(squished.len() < content.len());
    assert_eq!(decompress(&squished).unwrap(), content);
}

#[test]
fn a_broken_stream_does_not_decompress() {
    assert!(decompress(b"not a bzip2 stream").is_err());
}

#[test]
fn hash_map_and_proof_derivations() {
    let data = b"the quick brown fox";
    let rh = [0x11, 0x22, 0x33, 0x44];
    let h = resource_hash(data, &rh);
    // map hash is a prefix of SHA256(part || rh)
    let mh = map_hash(data, &rh);
    assert_eq!(&full_hash(&[&data[..], &rh[..]].concat())[..4], &mh);
    // proof folds the resource hash back in
    assert_eq!(proof_of(data, &h), full_hash(&[&data[..], &h[..]].concat()));
}

/// The sender and receiver halves agree end to end, through a real AES token: build an
/// advertisement and parts, then receive them back and recover the payload.
#[test]
fn sender_and_receiver_round_trip() {
    // A link to seal/open with.
    let dest_id = PrivateIdentity::from_secret_bytes(&[0x11; 64]);
    let (pending, req) = PendingLink::open(
        DestinationName::new("retinue", ["r"]).destination_hash(dest_id.public()),
        *dest_id.public(),
        &[0x33; 64],
        LinkTrailer { mode: LinkMode::Aes256Cbc, mtu: 500 },
    );
    let (recv_link, proof_pkt) =
        accept(&req, &dest_id, &[0x99; 64], LinkTrailer { mode: LinkMode::Aes256Cbc, mtu: 500 })
            .unwrap();
    let send_link = pending.prove(&proof_pkt).unwrap();

    // Sender: content = rh || data, sealed, split, advertised.
    let data: Vec<u8> = (0..1000u32).map(|i| (i * 3 + 1) as u8).collect();
    let rh = [0xAB, 0xCD, 0xEF, 0x01];
    let token = send_link.seal(&content(&data, &rh), &[7u8; 16]);
    let (adv, parts) = advertise(&data, &token, rh, false);

    // Receiver: parse, collect parts, recover.
    let mut inc = Incoming::new(&adv).unwrap();
    for p in &parts {
        assert!(inc.accept_part(p));
    }
    assert!(inc.is_complete());
    let recovered_content = recv_link.open(&inc.assemble_token().unwrap()).unwrap();
    let recovered = data_from_content(&recovered_content).unwrap();
    assert_eq!(recovered, &data[..]);
    assert!(inc.verify(recovered));
    // Proof round-trips to the value the sender precomputed.
    assert_eq!(inc.proof_of(recovered), proof_of(&data, &inc.resource_hash()));
}

#[test]
fn only_advertised_parts_are_taken() {
    let data = vec![3u8; 1000];
    let rh = [1, 2, 3, 4];
    let token = content(&data, &rh);
    let (adv, parts) = advertise(&data, &token, rh, false);
    assert_eq!(parts.len(), 3);
    assert!(parts.iter().all(|p| p.len() <= SDU));
    assert_eq!(parts.concat(), token);
    let mut inc = Incoming::new(&adv).unwrap();
    assert!(!inc.accept_part(b"something else"));
    assert!(inc.accept_part(&parts[0]));
    assert!(!inc.is_complete());
    assert_eq!(inc.assemble_token().err(), Some(Error::Truncated));
    assert_eq!(inc.missing_known().len(), 2);
    let asked = parse_request(&inc.request_payload()).unwrap();
    assert_eq!(asked.wanted, inc.missing_known());
    assert_eq!(asked.resource_hash, inc.resource_hash());
    assert!(!asked.exhausted);
}

#[test]
fn malformed_payloads_are_errors() {
    assert!(Advertisement::parse(&[0x81, 0xa1]).is_err());
    assert!(parse_request(&[0x00; 10]).is_err());
    assert!(parse_hmu(&[0x00; 10]).is_err());
    assert!(data_from_content(&[1, 2, 3]).is_err());
    let mut adv = Advertisement::parse(&adv_bytes()).unwrap();
    adv.parts = 3;
    assert_eq!(Incoming::new(&adv).err(), Some(Error::BadRequest));
    // A hashmap with a broken hash at its end.
    let mut adv = Advertisement::parse(&adv_bytes()).unwrap();
    adv.hashmap.push(9);
    assert_eq!(Incoming::new(&adv).err(), Some(Error::BadRequest));
    assert_eq!(Incoming::begin(&adv).err(), Some(Error::BadRequest));
}

#[test]
fn a_truncated_advertisement_is_refused_wherever_it_is_cut() {
    let wire = adv_bytes();
    for k in 0..wire.len() {
        assert_eq!(Advertisement::parse(&wire[..k]), Err(Error::BadRequest), "cut at {k}");
    }
    // What follows does not matter.
    let mut longer = wire.clone();
    longer.extend([1, 2, 3]);
    assert_eq!(Advertisement::parse(&longer), Advertisement::parse(&wire));
}

/// The captured advertisement's entries, in the order of `keys`, with an unknown key before each.
fn reordered(keys: &[u8]) -> Vec<u8> {
    let a = Advertisement::parse(&adv_bytes()).unwrap();
    let mut w = MapWriter::blank();
    for (i, key) in keys.iter().enumerate() {
        w.str_key(b'z');
        match i % 3 {
            0 => w.uint(70_000),
            1 => w.nil(),
            _ => w.bin(&[1, 2, 3]),
        }
        w.str_key(*key);
        match *key {
            b't' => w.uint(a.transfer_size),
            b'd' => w.uint(a.data_size),
            b'n' => w.uint(a.parts),
            b'h' => w.bin(&a.resource_hash),
            b'o' => w.bin(&a.original_hash),
            b'r' => w.bin(&a.random_hash),
            b'f' => w.uint(a.flags),
            b'm' => w.bin(&a.hashmap),
            b'i' => w.sint(a.i),
            b'l' => w.sint(a.l),
            _ => w.nil(),
        }
    }
    let mut wire = vec![0xde, 0, 2 * keys.len() as u8];
    wire.extend(w.finish());
    wire
}

#[test]
fn keys_come_in_any_order_but_none_may_be_missing() {
    let expected = Advertisement::parse(&adv_bytes()).unwrap();
    assert_eq!(Advertisement::parse(&reordered(b"mlfqiorhndt")), Ok(expected.clone()));
    // Without `q` it is absent, as with a nil one.
    assert_eq!(Advertisement::parse(&reordered(b"tdnhofrmil")), Ok(expected));
    let all = b"tdnhofrmil";
    for missing in all {
        let rest: Vec<u8> = all.iter().copied().filter(|k| k != missing).collect();
        assert_eq!(Advertisement::parse(&reordered(&rest)), Err(Error::BadRequest));
    }
}

#[test]
fn splitting_and_hashing_go_together() {
    let token = vec![7u8; SDU + 1];
    let (parts, hashmap) = split_parts(&token, &[1, 2, 3, 4]);
    assert_eq!(parts.len(), 2);
    assert_eq!(hashmap.len(), 8);
    assert_eq!(hashmap[..4], map_hash(&parts[0], &[1, 2, 3, 4]));
    assert_eq!(hashmap[4..], map_hash(&parts[1], &[1, 2, 3, 4]));
}

#[test]
fn msgpack_values_have_exact_bytes() {
    let mut w = MapWriter::new(4);
    w.str_key(b't');
    w.uint(300);
    w.str_key(b'i');
    w.sint(-2);
    w.str_key(b'q');
    w.nil();
    w.str_key(b'm');
    w.bin(&[9, 9]);
    let wire = w.finish();
    assert_eq!(
        wire,
        vec![
            0x84, 0xa1, b't', 0xcd, 0x01, 0x2c, 0xa1, b'i', 0xfe, 0xa1, b'q', 0xc0, 0xa1, b'm',
            0xc4, 0x02, 9, 9,
        ]
    );
    let mut r = MapReader::new(&wire);
    assert_eq!(r.map_header().unwrap(), 4);
    assert_eq!(r.str_key().unwrap(), b't');
    assert_eq!(r.uint().unwrap(), 300);
    assert_eq!(r.str_key().unwrap(), b'i');
    assert_eq!(r.sint().unwrap(), -2);
    assert_eq!(r.str_key().unwrap(), b'q');
    assert_eq!(r.int_or_nil().unwrap(), None);
    assert_eq!(r.str_key().unwrap(), b'm');
    assert_eq!(r.bin().unwrap(), &[9, 9]);
    assert!(r.byte().is_err());
}

#[test]
fn a_compressed_resource_is_recovered() {
    let data: Vec<u8> = (0..8000u32).map(|i| (i / 40) as u8).collect();
    let rh = [4, 3, 2, 1];
    let body = content(&compress(&data), &rh);
    let (adv, parts) = advertise(&data, &body, rh, true);
    let mut inc = Incoming::new(&adv).unwrap();
    assert!(inc.is_compressed());
    for p in &parts {
        assert!(inc.accept_part(p));
    }
    let token = inc.assemble_token().unwrap();
    assert_eq!(inc.recover(&token).unwrap(), data);
    // The prefix sits outside the compression; what does not match the hash is refused.
    assert_eq!(inc.recover(&content(&compress(b"other"), &rh)), Err(Error::ResourceCorrupt));
    assert_eq!(inc.recover(&content(b"not a stream", &rh)), Err(Error::BadPadding));
    assert_eq!(inc.recover(&[1, 2]), Err(Error::Truncated));
}

/// An established link between a sender side and a receiver side.
fn link_pair() -> (Link, Link) {
    let server = PrivateIdentity::from_secret_bytes(&[0x22; 64]);
    let trailer = LinkTrailer { mode: LinkMode::Aes256Cbc, mtu: 500 };
    let dest = DestinationName::new("retinue", ["res"]).destination_hash(server.public());
    let (pending, request) = PendingLink::open(dest, *server.public(), &[0x33; 64], trailer);
    let (recv_link, proof) = accept(&request, &server, &[0x99; 64], trailer).unwrap();
    let send_link = pending.prove(&proof).unwrap();
    (send_link, recv_link)
}

fn iv_gen() -> impl FnMut() -> [u8; IV_LEN] {
    let mut n: u64 = 0;
    move || {
        n += 1;
        let mut v = [0u8; IV_LEN];
        v[..8].copy_from_slice(&n.to_le_bytes());
        v
    }
}

fn payload(len: usize) -> Vec<u8> {
    (0..len as u32)
        .map(|i| (i.wrapping_mul(2_654_435_761) >> 11) as u8)
        .collect()
}

/// A clean transfer with no loss: advertise, request, serve, prove — end to end.
#[test]
fn transfers_a_small_resource() {
    let (send_link, recv_link) = link_pair();
    let data = payload(3000);
    let mut ivg = iv_gen();
    let mut sender = ResourceSender::publish(send_link, &data, [0xAB, 0xCD, 0xEF, 0x01], &ivg());
    let mut receiver = ResourceReceiver::new(recv_link);

    // The receiver gets the advertisement and drives to completion.
    let mut to_receiver = vec![sender.advertisement(&ivg())];
    let mut to_sender: Vec<Packet> = Vec::new();
    for _ in 0..100 {
        for pkt in std::mem::take(&mut to_receiver) {
            to_sender.extend(receiver.on_packet(&pkt, &mut ivg));
        }
        for pkt in std::mem::take(&mut to_sender) {
            to_receiver.extend(sender.on_packet(&pkt, &mut ivg));
        }
        if sender.is_done() && receiver.is_complete() {
            break;
        }
    }
    assert!(sender.is_done(), "sender saw the proof");
    assert_eq!(receiver.data(), Some(data.as_slice()), "payload recovered");
}

/// A multi-part transfer over a lossy pipe, exercising retransmission of the
/// advertisement, requests, parts, and the proof, and the HMU path for a large hashmap.
#[test]
fn transfers_a_large_resource_over_loss() {
    let (send_link, recv_link) = link_pair();
    // Big enough to need many parts and stream the hashmap over more than one HMU.
    let data = payload(45_000);
    let mut ivg = iv_gen();
    let mut sender = ResourceSender::publish(send_link, &data, [0x01, 0x02, 0x03, 0x04], &ivg());
    let mut receiver = ResourceReceiver::new(recv_link);

    let mut fwd = LossModel::new(7).drop_per_mille(150).max_delay_ms(3);
    let mut bwd = LossModel::new(0x5151).drop_per_mille(150).max_delay_ms(3);
    let mut to_receiver: Vec<(u64, Packet)> = Vec::new();
    let mut to_sender: Vec<(u64, Packet)> = Vec::new();

    for now in 0..400_000u64 {
        // Retransmit on a tick: the sender re-advertises until acked; the receiver
        // re-requests what it still lacks.
        if now % 50 == 0 {
            if !sender.is_done() {
                let adv = sender.advertisement(&ivg());
                if !fwd.should_drop() {
                    to_receiver.push((now + 1 + fwd.delay_ms(), adv));
                }
            }
            for pkt in receiver.retransmit(&mut ivg) {
                if !bwd.should_drop() {
                    to_sender.push((now + 1 + bwd.delay_ms(), pkt));
                }
            }
        }
        let mut still = Vec::new();
        for (t, pkt) in std::mem::take(&mut to_receiver) {
            if t <= now {
                for out in receiver.on_packet(&pkt, &mut ivg) {
                    if !bwd.should_drop() {
                        to_sender.push((now + 1 + bwd.delay_ms(), out));
                    }
                }
            } else {
                still.push((t, pkt));
            }
        }
        to_receiver = still;
        let mut still = Vec::new();
        for (t, pkt) in std::mem::take(&mut to_sender) {
            if t <= now {
                for out in sender.on_packet(&pkt, &mut ivg) {
                    if !fwd.should_drop() {
                        to_receiver.push((now + 1 + fwd.delay_ms(), out));
                    }
                }
            } else {
                still.push((t, pkt));
            }
        }
        to_sender = still;
        if sender.is_done() && receiver.is_complete() {
            break;
        }
    }
    assert!(sender.is_done(), "sender saw the proof over loss");
    assert_eq!(
        receiver.data(),
        Some(data.as_slice()),
        "large payload recovered exactly over loss"
    );
}

#[test]
fn a_long_hashmap_comes_in_slices() {
    let data = payload(45_000);
    let rh = [1, 2, 3, 4];
    let token = content(&data, &rh);
    let out = Outgoing::new(&data, &token, rh, false);
    let adv = out.advertisement();
    assert_eq!(adv.hashmap.len(), HASHMAP_SLICE * 4);
    assert!(adv.parts as usize > HASHMAP_SLICE);
    let mut inc = Incoming::begin(&adv).unwrap();
    assert!(inc.needs_hmu());
    let first = parse_request(&inc.request_payload()).unwrap();
    for part in out.serve(&first) {
        assert!(inc.accept_part(&part));
    }
    assert!(inc.needs_hmu());
    let ask = parse_request(&inc.solicit_hmu()).unwrap();
    assert!(ask.exhausted);
    let hmu = parse_hmu(&out.hmu_after(&ask.last_map_hash.unwrap())).unwrap();
    assert_eq!(hmu.segment, 1);
    inc.ingest_hmu(&hmu);
    assert!(!inc.needs_hmu());
    let rest = parse_request(&inc.request_payload()).unwrap();
    for part in out.serve(&rest) {
        assert!(inc.accept_part(&part));
    }
    assert!(inc.is_complete());
    assert_eq!(inc.assemble_token().unwrap(), token);
    assert_eq!(out.expected_proof(), inc.proof_of(&data));
}

#[test]
fn a_false_receipt_does_not_end_a_transfer() {
    let (send_link, recv_link) = link_pair();
    let mut ivg = iv_gen();
    let mut sender = ResourceSender::publish(send_link, &payload(100), [9, 9, 9, 9], &ivg());
    let forged = recv_link.resource_proof_packet(&[1; 32], &[2; 32]);
    assert!(sender.on_packet(&forged, &mut ivg).is_empty());
    assert!(!sender.is_done());
}

#[test]
fn a_transfer_is_complete_when_nothing_is_under_way() {
    let (send_link, recv_link) = link_pair();
    let data = payload(3000);
    let mut ivg = iv_gen();
    let mut sender = ResourceSender::publish(send_link.clone(), &data, [9, 8, 7, 6], &ivg());
    let mut receiver = ResourceReceiver::new(recv_link);

    // A part that comes before the advertisement is ignored.
    let early = send_link.framed_packet(0x01, vec![1, 2, 3]);
    assert!(receiver.on_packet(&early, &mut ivg).is_empty());
    assert!(receiver.retransmit(&mut ivg).is_empty());

    let mut outbound = vec![sender.advertisement(&ivg())];
    let mut inbound: Vec<Packet> = Vec::new();
    while !outbound.is_empty() || !inbound.is_empty() {
        // Last in, first out: the order does not matter.
        if let Some(pkt) = outbound.pop() {
            inbound.extend(receiver.on_packet(&pkt, &mut ivg));
        } else if let Some(pkt) = inbound.pop() {
            outbound.extend(sender.on_packet(&pkt, &mut ivg));
        }
        assert!(receiver.data().is_none() || receiver.data() == Some(data.as_slice()));
    }
    assert_eq!(receiver.data(), Some(data.as_slice()));
    assert!(receiver.is_complete());
    assert!(sender.is_done());
    // On a stall, the receipt goes out again and still ends the transfer.
    let again = receiver.retransmit(&mut ivg);
    assert_eq!(again.len(), 1);
    let mut other = ResourceSender::publish(send_link, &data, [9, 8, 7, 6], &ivg());
    assert!(!other.is_done());
    other.on_packet(&again[0], &mut ivg);
    assert!(other.is_done());
}
