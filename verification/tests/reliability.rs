//! The reliable channel and the byte stream over it, through a deterministic lossy pipe.

use retinue::buffer::Buffer;
use retinue::channel::{Channel, Envelope, DEFAULT_RETX_TIMEOUT, WINDOW_INITIAL};
use retinue::destination::DestinationName;
use retinue::driver::{Driver, Event};
use retinue::link::{accept, Link, LinkMode, LinkTrailer, PendingLink};
use retinue::packet::Packet;
use retinue::reliable::ReliableChannel;
use retinue::rns_identity::PrivateIdentity;
use retinue::token::IV_LEN;

/// A deterministic medium: drops and delays by a seeded generator.
struct LossModel {
    state: u64,
    drop_per_mille: u32,
    max_delay: u64,
}

impl LossModel {
    fn new(seed: u64) -> Self {
        LossModel {
            state: seed.wrapping_mul(0x9e37_79b9_7f4a_7c15) ^ 0xd1b5_4a32_d192_ed03,
            drop_per_mille: 0,
            max_delay: 0,
        }
    }
    fn drop_per_mille(mut self, n: u32) -> Self {
        self.drop_per_mille = n;
        self
    }
    fn max_delay_ms(mut self, n: u64) -> Self {
        self.max_delay = n;
        self
    }
    fn next(&mut self) -> u64 {
        self.state ^= self.state << 13;
        self.state ^= self.state >> 7;
        self.state ^= self.state << 17;
        self.state
    }
    fn should_drop(&mut self) -> bool {
        self.next() % 1000 < self.drop_per_mille as u64
    }
    fn delay_ms(&mut self) -> u64 {
        if self.max_delay == 0 {
            0
        } else {
            self.next() % (self.max_delay + 1)
        }
    }
}

#[test]
fn lossless_in_order_delivery() {
    let mut tx = Channel::new(0xABCD);
    let mut rx = Channel::new(0xABCD);
    for i in 0u8..20 {
        tx.send(vec![i]);
    }
    let mut got = Vec::new();
    for now in 0..1000 {
        for e in tx.poll_transmit(now) {
            let seq = e.sequence;
            rx.handle(e);
            tx.on_proof(seq, now); // lossless: every packet is immediately proven
        }
        while let Some(m) = rx.recv() {
            got.push(m[0]);
        }
        if got.len() == 20 {
            break;
        }
    }
    assert_eq!(got, (0u8..20).collect::<Vec<_>>());
}

/// Run a byte stream through two Buffers across a deterministic lossy pipe on a
/// virtual clock, proving each delivered envelope back (subject to loss) — the
/// proof-based model. Returns nothing; asserts exact reconstruction.
fn stream_over_loss(drop_per_mille: u32, max_delay_ticks: u64, seed: u64) {
    let payload: Vec<u8> =
        (0..4000u32).map(|i| (i.wrapping_mul(31).wrapping_add(7)) as u8).collect();
    let mut tx = Buffer::new();
    let mut rx = Buffer::new();
    tx.write(&payload);

    let mut fwd =
        LossModel::new(seed).drop_per_mille(drop_per_mille).max_delay_ms(max_delay_ticks);
    let mut bwd =
        LossModel::new(seed ^ 0xFFFF).drop_per_mille(drop_per_mille).max_delay_ms(max_delay_ticks);

    // In flight: (arrival_tick, item). Forward carries envelopes; back carries the
    // sequence of a proof (the link auto-proves every received packet).
    let mut to_rx: Vec<(u64, Envelope)> = Vec::new();
    let mut to_tx: Vec<(u64, u16)> = Vec::new();
    let mut got: Vec<u8> = Vec::new();

    for now in 0..1_000_000u64 {
        for e in tx.poll_transmit(now) {
            if !fwd.should_drop() {
                to_rx.push((now + 1 + fwd.delay_ms(), e));
            }
        }
        // Deliver due envelopes; prove each one back (dup or not).
        let mut still = Vec::new();
        for (t, e) in std::mem::take(&mut to_rx) {
            if t <= now {
                let seq = e.sequence;
                rx.handle(e);
                if !bwd.should_drop() {
                    to_tx.push((now + 1 + bwd.delay_ms(), seq));
                }
            } else {
                still.push((t, e));
            }
        }
        to_rx = still;
        to_tx.retain(|(t, seq)| {
            if *t <= now {
                tx.on_proof(*seq, now);
                false
            } else {
                true
            }
        });
        got.extend(rx.read_available());
        if got.len() == payload.len() && tx.send_idle() {
            break;
        }
    }
    assert_eq!(got, payload, "stream must reconstruct exactly over loss");
}

#[test]
fn stream_survives_drop() {
    stream_over_loss(300, 0, 11);
}

#[test]
fn stream_survives_drop_reorder_and_delay() {
    stream_over_loss(250, 6, 99);
}

#[test]
fn heavy_loss_still_converges() {
    stream_over_loss(600, 3, 7);
}

#[test]
fn sequence_wraps_past_the_16bit_modulus() {
    // Push more than 65536 messages so the sequence wraps, and confirm order holds
    // across the wrap. Small window keeps it quick.
    let mut tx = Channel::with_params(0x0001, 4, 2);
    let mut rx = Channel::with_params(0x0001, 4, 2);
    let total = 70_000u32; // > SEQ_MODULUS
    let mut sent = 0u32;
    let mut got = 0u32;
    for now in 0..5_000_000u64 {
        while sent < total && tx.in_flight() < 4 {
            tx.send(vec![(sent % 251) as u8]);
            sent += 1;
        }
        for e in tx.poll_transmit(now) {
            let seq = e.sequence;
            rx.handle(e);
            tx.on_proof(seq, now);
        }
        while let Some(m) = rx.recv() {
            assert_eq!(m, vec![(got % 251) as u8], "in order across the wrap");
            got += 1;
        }
        if got == total {
            break;
        }
    }
    assert_eq!(got, total, "all delivered across the sequence wrap");
}

#[test]
fn window_grows_on_sustained_clean_proofs() {
    // A dynamic channel starts at WINDOW_INITIAL. Prove a long run of packets
    // cleanly and promptly (one-tick round trip), and the window climbs step by
    // step into the fast RTT tier — the growth half of RNS's dynamic sizing.
    let mut c = Channel::new(0x0001);
    assert_eq!(c.window(), WINDOW_INITIAL, "starts at the initial window");
    for i in 0..2000u16 {
        c.send(vec![i as u8]);
    }
    let mut now = 0u64;
    let mut proven = 0u32;
    // Each poll sends `window` fresh envelopes; we prove them all one tick later.
    // The outer bound is a safety net — growth reaches the ceiling in ~40 polls.
    for _ in 0..100_000 {
        if proven >= 2000 {
            break;
        }
        let envs = c.poll_transmit(now);
        now += 1;
        for e in envs {
            c.on_proof(e.sequence, now);
            proven += 1;
        }
    }
    assert_eq!(proven, 2000, "proved every packet");
    assert!(c.window() > WINDOW_INITIAL, "window grew (got {})", c.window());
    assert!(c.window() >= 16, "climbed into the fast tier (got {})", c.window());
}

#[test]
fn window_shrinks_on_retransmit() {
    // Grow the window with clean proofs, then let fresh packets go unproven past the
    // retransmit timeout: the retransmit backs the window off toward the tier floor
    // — the shrink half of the dynamic sizing.
    let mut c = Channel::new(0x0001);
    for i in 0..2000u16 {
        c.send(vec![i as u8]);
    }
    let mut now = 0u64;
    let mut proven = 0u32;
    for _ in 0..100_000 {
        if proven >= 2000 {
            break;
        }
        let envs = c.poll_transmit(now);
        now += 1;
        for e in envs {
            c.on_proof(e.sequence, now);
            proven += 1;
        }
    }
    let grown = c.window();
    assert!(grown > 20, "window grew well above the floor first (got {})", grown);

    // New data goes out, and nobody proves it. Past the timeout it retransmits.
    for i in 0..8u16 {
        c.send(vec![i as u8]);
    }
    let fresh = c.poll_transmit(now);
    assert!(!fresh.is_empty(), "fresh data went out");
    now += DEFAULT_RETX_TIMEOUT + 1;
    let resent = c.poll_transmit(now);
    assert!(!resent.is_empty(), "unproven data retransmitted");
    assert!(
        c.window() < grown,
        "window shrank on retransmit ({grown} -> {})",
        c.window()
    );
}

#[test]
fn envelopes_have_exact_bytes() {
    let e = Envelope { msgtype: 0xabcd, sequence: 0x0102, payload: vec![9, 8, 7] };
    assert_eq!(e.encode(), vec![0xab, 0xcd, 0x01, 0x02, 0x00, 0x03, 9, 8, 7]);
    assert_eq!(Envelope::decode(&e.encode()), Some(e));
    assert_eq!(Envelope::decode(&[0xab, 0xcd, 0x01, 0x02, 0x00]), None);
    assert_eq!(Envelope::decode(&[0xab, 0xcd, 0x01, 0x02, 0x00, 0x04, 9, 8, 7]), None);
}

#[test]
fn a_duplicate_is_delivered_once() {
    let mut rx = Channel::new(1);
    let envelope = |sequence: u16, byte: u8| Envelope { msgtype: 1, sequence, payload: vec![byte] };
    rx.handle(envelope(1, 11));
    assert_eq!(rx.recv(), None);
    rx.handle(envelope(0, 10));
    rx.handle(envelope(0, 10));
    rx.handle(envelope(1, 11));
    assert_eq!(rx.recv(), Some(vec![10]));
    assert_eq!(rx.recv(), Some(vec![11]));
    assert_eq!(rx.recv(), None);
}

#[test]
fn at_most_a_window_is_in_flight() {
    let mut tx = Channel::with_params(1, 3, 5);
    for i in 0..10u8 {
        tx.send(vec![i]);
    }
    let sent = tx.poll_transmit(0);
    assert_eq!(sent.iter().map(|e| e.sequence).collect::<Vec<_>>(), vec![0, 1, 2]);
    assert_eq!(tx.in_flight(), 3);
    tx.on_proof(1, 1);
    assert_eq!(tx.in_flight(), 2);
    // A proof of something not outstanding changes nothing.
    tx.on_proof(1, 1);
    assert_eq!(tx.in_flight(), 2);
    assert_eq!(tx.poll_transmit(1).len(), 1);
}

#[test]
fn the_end_of_a_stream_arrives_after_its_bytes() {
    let mut tx = Buffer::new();
    let mut rx = Buffer::new();
    tx.write(b"last words");
    tx.finish();
    for now in 0..10 {
        for e in tx.poll_transmit(now) {
            let seq = e.sequence;
            rx.handle(e);
            tx.on_proof(seq, now);
        }
    }
    let mut head = [0u8; 4];
    assert_eq!(rx.read(&mut head), 4);
    assert_eq!(&head, b"last");
    assert_eq!(rx.read_available(), b" words");
    assert!(rx.recv_finished());
    assert!(tx.send_idle());
}

#[test]
fn an_idle_sender_has_had_everything_delivered() {
    let mut tx = Channel::with_params(7, 3, 2);
    let mut rx = Channel::with_params(7, 3, 2);
    for i in 0..9u8 {
        tx.send(vec![i]);
    }
    // The medium loses every third envelope and repeats the others; only what arrived is proved.
    let mut count = 0;
    let mut got = Vec::new();
    for now in 0..100 {
        for e in tx.poll_transmit(now) {
            count += 1;
            if count % 3 == 0 {
                continue;
            }
            let sequence = e.sequence;
            rx.handle(e.clone());
            rx.handle(e);
            tx.on_proof(sequence, now);
        }
        while let Some(m) = rx.recv() {
            got.push(m[0]);
        }
        assert_eq!(got, (0..got.len() as u8).collect::<Vec<_>>());
        if tx.send_idle() {
            assert_eq!(got.len(), 9);
        }
    }
    assert!(tx.send_idle());
}

#[test]
fn the_reader_has_a_prefix_at_every_moment() {
    let data: Vec<u8> = (0..2000u32).map(|i| (i % 253) as u8).collect();
    let mut tx = Buffer::with_channel(Channel::with_params(1, 4, 3), 100);
    let mut rx = Buffer::with_channel(Channel::with_params(1, 4, 3), 100);
    tx.write(&data);
    let mut loss = LossModel::new(5).drop_per_mille(400);
    let mut got = Vec::new();
    for now in 0..2000 {
        let mut envelopes = tx.poll_transmit(now);
        envelopes.reverse();
        for e in envelopes {
            if !loss.should_drop() {
                let sequence = e.sequence;
                rx.handle(e);
                tx.on_proof(sequence, now);
            }
        }
        got.extend(rx.read_available());
        assert!(data.starts_with(&got));
    }
    assert_eq!(got, data);
}

fn links() -> (Link, Link, PrivateIdentity, PrivateIdentity) {
    let client_id = PrivateIdentity::from_secret_bytes(&[0x11; 64]);
    let server_id = PrivateIdentity::from_secret_bytes(&[0x22; 64]);
    let trailer = LinkTrailer { mode: LinkMode::Aes256Cbc, mtu: 500 };
    let dest = DestinationName::new("retinue", ["test"]).destination_hash(server_id.public());
    let (pending, request) = PendingLink::open(dest, *server_id.public(), &[0x33; 64], trailer);
    let (responder_link, proof) = accept(&request, &server_id, &[0x99; 64], trailer).unwrap();
    let initiator_link = pending.prove(&proof).unwrap();
    (initiator_link, responder_link, client_id, server_id)
}

fn pair() -> (ReliableChannel, ReliableChannel) {
    let (initiator_link, responder_link, client_id, server_id) = links();
    let client = ReliableChannel::new(initiator_link, client_id.clone(), *server_id.public());
    let server = ReliableChannel::new(responder_link, server_id, *client_id.public());
    (client, server)
}

/// Drive `client`'s payload to `server` over a lossy pipe on a virtual clock: channel
/// packets forward (subject to loss), proofs back (subject to loss), retransmits on the
/// clock. Asserts exact, in-order reconstruction and that the server saw eof.
fn drive_over_loss(drop_per_mille: u32, max_delay: u64, seed: u64, len: usize) {
    let (mut client, mut server) = pair();
    let payload: Vec<u8> = (0..len as u32)
        .map(|i| (i.wrapping_mul(31).wrapping_add(7)) as u8)
        .collect();
    client.write(&payload);
    client.finish();

    let mut fwd = LossModel::new(seed)
        .drop_per_mille(drop_per_mille)
        .max_delay_ms(max_delay);
    let mut bwd = LossModel::new(seed ^ 0xABCD)
        .drop_per_mille(drop_per_mille)
        .max_delay_ms(max_delay);

    let mut to_server: Vec<(u64, Packet)> = Vec::new();
    let mut to_client: Vec<(u64, Packet)> = Vec::new();
    let mut got: Vec<u8> = Vec::new();
    let mut ivc: u64 = 0;

    for now in 0..2_000_000u64 {
        let mut iv = || {
            ivc += 1;
            let mut v = [0u8; IV_LEN];
            v[..8].copy_from_slice(&ivc.to_le_bytes());
            v
        };
        for pkt in client.poll_transmit(now, &mut iv) {
            if !fwd.should_drop() {
                to_server.push((now + 1 + fwd.delay_ms(), pkt));
            }
        }
        let mut still = Vec::new();
        for (t, pkt) in std::mem::take(&mut to_server) {
            if t <= now {
                if let Some(proof) = server.on_data_packet(&pkt) {
                    if !bwd.should_drop() {
                        to_client.push((now + 1 + bwd.delay_ms(), proof));
                    }
                }
            } else {
                still.push((t, pkt));
            }
        }
        to_server = still;
        to_client.retain(|(t, proof)| {
            if *t <= now {
                client.on_proof(proof, now);
                false
            } else {
                true
            }
        });
        got.extend(server.read());
        if got.len() == payload.len() && client.send_idle() {
            break;
        }
    }
    assert_eq!(
        got, payload,
        "reliable stream must reconstruct exactly over loss"
    );
    assert!(server.recv_finished(), "server saw the client's eof");
}

#[test]
fn reliable_stream_is_faithful_without_loss() {
    drive_over_loss(0, 0, 1, 5000);
}

#[test]
fn reliable_stream_survives_drop() {
    drive_over_loss(300, 0, 7, 5000);
}

#[test]
fn reliable_stream_survives_drop_reorder_and_delay() {
    drive_over_loss(250, 6, 42, 4000);
}

#[test]
fn reliable_stream_survives_heavy_loss() {
    drive_over_loss(600, 3, 99, 3000);
}

#[test]
fn a_forged_proof_releases_nothing() {
    // A proof signed by the wrong identity, or naming a packet we never sent, must not
    // release an outstanding sequence.
    let (initiator_link, responder_link, client_id, server_id) = links();
    let client_link = initiator_link.clone();
    let mut client = ReliableChannel::new(initiator_link, client_id.clone(), *server_id.public());
    let mut server = ReliableChannel::new(responder_link, server_id, *client_id.public());
    client.write(b"one small message that fits in a single channel packet");
    let mut ivc = 0u64;
    let mut iv = || {
        ivc += 1;
        let mut v = [0u8; IV_LEN];
        v[..8].copy_from_slice(&ivc.to_le_bytes());
        v
    };
    let sent = client.poll_transmit(0, &mut iv);
    assert!(!sent.is_empty());
    server.on_data_packet(&sent[0]).unwrap();

    // A proof from a stranger's identity over the right hash: rejected (wrong signer).
    let stranger = PrivateIdentity::from_secret_bytes(&[0x55; 64]);
    let forged = client_link.data_proof(&sent[0], &stranger);
    assert!(
        !client.on_proof(&forged, 1),
        "wrong-identity proof rejected"
    );
    assert!(!client.send_idle(), "the packet is still outstanding");

    // The genuine proof (server signs with its identity) does release it.
    let real = server.on_data_packet(&sent[0]).unwrap();
    assert!(client.on_proof(&real, 2), "genuine proof accepted");
    assert!(client.send_idle());
    // A second copy of it names nothing outstanding any more.
    assert!(!client.on_proof(&real, 3));
}

#[test]
fn a_packet_that_does_not_open_is_not_proved() {
    let (mut client, mut server) = pair();
    client.write(b"tampered on the way");
    let mut sent = client.poll_transmit(0, || [5u8; IV_LEN]);
    let last = sent[0].payload.len() - 1;
    sent[0].payload[last] ^= 1;
    assert_eq!(server.on_data_packet(&sent[0]), None);
    assert!(server.read().is_empty());
}

/// Two drivers, joined by a lossless pipe until both are done.
#[test]
fn drivers_keep_the_stream_open_until_both_ends_finish() {
    let (initiator_link, responder_link, client_id, server_id) = links();
    let mut a = Driver::new(initiator_link, client_id.clone(), *server_id.public());
    let mut b = Driver::new(responder_link, server_id, *client_id.public());
    let mut ivc = 0u64;
    let mut iv = || {
        ivc += 1;
        let mut v = [0u8; IV_LEN];
        v[..8].copy_from_slice(&ivc.to_le_bytes());
        v
    };

    let mut to_a: Vec<Packet> = Vec::new();
    let mut to_b: Vec<Packet> = Vec::new();
    let mut at_b: Vec<u8> = Vec::new();
    let mut at_a: Vec<u8> = Vec::new();
    let mut b_read_shut = false;
    let mut replied = false;

    a = a.take(Event::Written(b"a request".to_vec())).0;
    a = a.take(Event::WriterClosed).0;
    // Once closed, nothing more is written.
    a = a.take(Event::Written(b"too late".to_vec())).0;

    let mut closes = 0;
    for _ in 0..200 {
        let (next, packets) = a.pump(&mut iv);
        a = next;
        to_b.extend(packets);
        let (next, packets) = b.pump(&mut iv);
        b = next;
        to_a.extend(packets);
        for packet in std::mem::take(&mut to_b) {
            let (next, answer) = b.take(Event::Arrived(packet));
            b = next;
            to_a.extend(answer.ack);
            at_b.extend(answer.deliver);
            b_read_shut = b_read_shut || answer.shut_read;
        }
        for packet in std::mem::take(&mut to_a) {
            let (next, answer) = a.take(Event::Arrived(packet));
            a = next;
            to_b.extend(answer.ack);
            at_a.extend(answer.deliver);
        }
        if b_read_shut && !replied {
            // Half-close: the reply still gets through.
            assert!(b.close_when_done().is_none());
            b = b.take(Event::Written(b"a reply".to_vec())).0;
            b = b.take(Event::WriterClosed).0;
            replied = true;
        }
        a = a.take(Event::Tick).0;
        b = b.take(Event::Tick).0;
        if let (Some(_), Some(close)) = (a.close_when_done(), b.close_when_done()) {
            closes += 1;
            let (_, answer) = a.take(Event::Arrived(close));
            assert!(answer.stop && answer.shut_read);
            break;
        }
    }
    assert_eq!(at_b, b"a request");
    assert_eq!(at_a, b"a reply");
    assert_eq!(closes, 1);
}

#[test]
fn a_retransmit_never_widens_the_window() {
    let mut c = Channel::new(1);
    c.send(vec![7]);
    c.poll_transmit(0);
    assert_eq!(
        c.poll_transmit(4),
        vec![Envelope { msgtype: 1, sequence: 0, payload: vec![7] }]
    );
    assert_eq!(c.window(), 2);
    // A wider window comes down by the step, and no further than its floor.
    let mut wide = Channel::new(1);
    for i in 0..5000u32 {
        wide.send(i.to_be_bytes().to_vec());
    }
    let mut now = 0;
    while wide.window() < 30 {
        for e in wide.poll_transmit(now) {
            wide.on_proof(e.sequence, now + 1);
        }
        now += 1;
    }
    wide.poll_transmit(now);
    let mut expected = wide.window();
    for _ in 0..6 {
        now += 4;
        wide.poll_transmit(now);
        expected = (expected - 4).max(16);
        assert_eq!(wide.window(), expected);
    }
    assert_eq!(wide.window(), 16);
}

#[test]
fn a_proof_of_another_copy_matches_nothing() {
    let (mut client, mut server) = pair();
    client.write(b"sent twice, proved twice");
    let first = client.poll_transmit(0, || [1u8; IV_LEN]);
    let second = client.poll_transmit(4, || [2u8; IV_LEN]);
    assert_eq!((first.len(), second.len()), (1, 1));
    assert_ne!(first[0], second[0]);
    let proof_of_first = server.on_data_packet(&first[0]).unwrap();
    let proof_of_second = server.on_data_packet(&second[0]).unwrap();
    assert!(client.on_proof(&proof_of_second, 5));
    assert!(client.send_idle());
    assert!(!client.on_proof(&proof_of_first, 6));
    assert!(!client.on_proof(&proof_of_second, 6));
    // The next message is released by its own proof only.
    client.write(b"next");
    let next = client.poll_transmit(7, || [3u8; IV_LEN]);
    assert!(!client.on_proof(&proof_of_first, 8));
    assert!(!client.send_idle());
    let proof = server.on_data_packet(&next[0]).unwrap();
    assert!(client.on_proof(&proof, 9));
    assert!(client.send_idle());
    assert_eq!(server.read(), b"sent twice, proved twicenext");
}

#[test]
fn each_envelope_is_sealed_under_its_own_iv() {
    let (mut client, mut server) = pair();
    let envelopes: Vec<Envelope> = (0..3u16)
        .map(|i| Envelope { msgtype: 0xF900, sequence: i, payload: vec![i as u8; 3] })
        .collect();
    let ivs: Vec<[u8; IV_LEN]> = (0..3u8).map(|i| [i + 1; IV_LEN]).collect();
    let packets = client.seal_all(&envelopes, &ivs);
    assert_eq!(packets.len(), 3);
    for (packet, iv) in packets.iter().zip(&ivs) {
        assert_eq!(packet.payload[..IV_LEN], iv[..]);
        server.on_data_packet(packet).unwrap();
    }
    assert_eq!(server.read(), vec![0, 0, 0, 1, 1, 1, 2, 2, 2]);
}

#[test]
fn a_lossless_run_ends_idle_with_everything_delivered() {
    // A timeout of nought sends everything twice in one go; the copies are dropped.
    for timeout in [0, 2] {
        let mut tx = Channel::with_params(9, 3, timeout);
        let mut rx = Channel::with_params(9, 3, timeout);
        let messages: Vec<Vec<u8>> = (0..10u8).map(|i| vec![i, i]).collect();
        for m in &messages {
            tx.send(m.clone());
        }
        let mut rounds = 0;
        while !tx.send_idle() {
            for e in tx.poll_transmit(rounds) {
                let sequence = e.sequence;
                rx.handle(e);
                tx.on_proof(sequence, rounds);
            }
            rounds += 1;
        }
        assert_eq!(rounds, 4);
        let mut got = Vec::new();
        while let Some(m) = rx.recv() {
            got.push(m);
        }
        assert_eq!(got, messages);
    }
}

/// A source of IVs that counts its calls.
struct Counter(u64);

impl Counter {
    fn next(&mut self) -> [u8; IV_LEN] {
        self.0 += 1;
        let mut v = [0u8; IV_LEN];
        v[..8].copy_from_slice(&self.0.to_be_bytes());
        v
    }
}

/// The IVs that packets show, as the numbers that a [`Counter`] gave.
fn shown(packets: &[Packet]) -> Vec<u64> {
    packets
        .iter()
        .map(|p| p.payload[..8].iter().fold(0, |n, b| n * 256 + u64::from(*b)))
        .collect()
}

#[test]
fn every_packet_of_a_poll_has_a_fresh_iv() {
    let (mut client, mut server) = pair();
    let mut source = Counter(0);
    client.write(&[7u8; 384 * 5]);
    let first = client.poll_transmit(0, || source.next());
    assert_eq!(shown(&first), vec![1, 2]);
    // Retransmits draw again, and so does what is sent beside them.
    let again = client.poll_transmit(4, || source.next());
    assert_eq!(shown(&again), vec![3, 4]);
    let ack = server.on_data_packet(&again[0]).unwrap();
    assert!(client.on_proof(&ack, 5));
    let mixed = client.poll_transmit(8, || source.next());
    assert_eq!(shown(&mixed), vec![5, 6]);
    assert_eq!(source.0, 6);
}

#[test]
fn a_driver_draws_one_iv_per_packet() {
    let (link, _, client_id, server_id) = links();
    let mut driver = Driver::new(link, client_id, *server_id.public());
    let mut source = Counter(40);
    driver = driver.take(Event::Written(vec![9; 384 * 3])).0;
    let (mut driver, packets) = driver.pump(|| source.next());
    assert_eq!(shown(&packets), vec![41, 42]);
    for _ in 0..4 {
        driver = driver.take(Event::Tick).0;
    }
    let (_, packets) = driver.pump(|| source.next());
    assert_eq!(shown(&packets), vec![43, 44]);
}

#[test]
fn what_is_due_can_be_sealed_by_hand() {
    let (mut client, mut server) = pair();
    let (mut twin, _) = pair();
    client.write(b"by hand");
    twin.write(b"by hand");
    let envelopes = client.due(0);
    let packets = client.seal_all(&envelopes, &vec![[8u8; IV_LEN]; envelopes.len()]);
    assert_eq!(packets, twin.poll_transmit(0, || [8u8; IV_LEN]));
    let ack = server.on_data_packet(&packets[0]).unwrap();
    assert!(client.on_proof(&ack, 1));
    assert!(client.send_idle());
    assert_eq!(server.read(), b"by hand");
}
