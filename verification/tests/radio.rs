//! The radio layer: airtime, LoRa timing, modems, and the direct-PHY protocol.

use core::time::Duration;
use retinue::airtime::AirtimeBudget;
use retinue::lora::{CodingRate, LoRaParams};
use retinue::modem;
use retinue::modem::{Modem, ModemError, ModemEvent};
use retinue::phy;
use retinue::phy::{Codes, Commands, ConfigOutcome, Profile, Request, TxRefusal};
use std::collections::VecDeque;

/// 1-hour window at 1% (the strict EU sub-band shape).
fn one_percent() -> AirtimeBudget {
    AirtimeBudget::new(3_600_000, 10)
}

#[test]
fn fresh_budget_allows() {
    let mut b = one_percent();
    assert_eq!(b.allowance_ms(), 36_000);
    assert!(b.may_transmit(0, 36_000));
    assert!(!b.may_transmit(0, 36_001));
}

#[test]
fn spending_reduces_allowance() {
    let mut b = one_percent();
    b.record(0, 30_000);
    assert!(b.may_transmit(30_000, 6_000));
    assert!(!b.may_transmit(30_000, 6_001));
}

#[test]
fn budget_ages_out() {
    let mut b = one_percent();
    b.record(0, 36_000);
    assert!(!b.may_transmit(36_000, 1));
    // Whole send outside the window: full budget again.
    assert!(b.may_transmit(3_636_000, 36_000));
}

#[test]
fn straddling_send_counts_partially() {
    let mut b = one_percent();
    b.record(0, 20_000);
    // Window now covers [10_000+20_000-3_600_000.. ] — at t=3_610_000 the
    // cutoff is 10_000, so half the send (10_000ms) is still in-window.
    assert_eq!(b.spent_ms(3_610_000), 10_000);
    assert!(b.may_transmit(3_610_000, 26_000));
    assert!(!b.may_transmit(3_610_000, 26_001));
}

#[test]
fn next_slot_now_when_budget_free() {
    let mut b = one_percent();
    assert_eq!(b.next_slot(500, 1_000), Some(500));
}

#[test]
fn next_slot_waits_for_ageout() {
    let mut b = one_percent();
    b.record(0, 36_000); // budget exhausted at t=36_000
    let slot = b.next_slot(36_000, 36_000).unwrap();
    // The send fully ages out of the window at start+dur+window.
    assert_eq!(slot, 3_636_000);
    assert!(b.may_transmit(slot, 36_000));
}

#[test]
fn next_slot_impossible_duration() {
    let mut b = one_percent();
    assert_eq!(b.next_slot(0, 36_001), None);
}

#[test]
fn next_slot_is_the_earliest() {
    let mut b = one_percent();
    b.record(0, 36_000);
    // One millisecond of the send has left the window one millisecond after its edge reached it.
    assert_eq!(b.next_slot(36_000, 1), Some(3_600_001));
    assert!(!b.may_transmit(3_600_000, 1));
    assert!(b.may_transmit(3_600_001, 1));
}

#[test]
fn next_slot_sees_every_recorded_send() {
    let mut b = AirtimeBudget::new(1_000, 100);
    b.record(0, 60);
    b.record(500, 40);
    // 100 of 100 spent; 60 free once the first send has aged out, 61 when one more has.
    assert_eq!(b.next_slot(540, 60), Some(1_060));
    assert_eq!(b.next_slot(540, 61), Some(1_501));
}

#[test]
fn asking_first_never_overfills_the_window() {
    let mut b = AirtimeBudget::new(1_000, 100);
    let mut now = 0;
    let mut made = 0;
    while made < 50 {
        let slot = b.next_slot(now, 30).unwrap();
        assert!(b.may_transmit(slot, 30));
        b.record(slot, 30);
        assert!(b.spent_ms(slot + 30) <= b.allowance_ms());
        now = slot + 30;
        made += 1;
    }
}

#[test]
fn nothing_to_send_always_fits() {
    let mut b = AirtimeBudget::new(1_000, 0);
    assert_eq!(b.allowance_ms(), 0);
    assert!(b.may_transmit(5, 0));
    assert_eq!(b.next_slot(5, 0), Some(5));
    assert_eq!(b.next_slot(5, 1), None);
}

fn params(sf: u8, bw: u32) -> LoRaParams {
    LoRaParams {
        spreading_factor: sf,
        bandwidth_hz: bw,
        coding_rate: CodingRate::Cr45,
        frequency_hz: 915_000_000,
        tx_power_dbm: 7,
        preamble_syms: 8,
        explicit_header: true,
        crc: true,
    }
}

/// Reference vectors from Semtech AN1200.13 / the SX1276 datasheet, as tabulated by the
/// avbentem and aestechno airtime calculators. Preamble 8, explicit header, CRC on, CR 4/5.
/// `(SF, BW, PL) -> expected ToA ms`. Includes SF7/BW125 and the SF12/BW125 DE=1 cases.
#[test]
fn time_on_air_matches_semtech_reference_vectors() {
    let vectors: &[(u8, u32, usize, f64)] = &[
        (7, 125_000, 12, 41.216),
        (7, 125_000, 20, 56.576),
        (7, 125_000, 64, 118.016),
        (9, 125_000, 20, 185.344),
        (10, 125_000, 20, 370.688),
        (11, 125_000, 20, 741.376),
        (12, 125_000, 12, 1155.072),
        (12, 125_000, 20, 1318.912),
        (12, 125_000, 51, 2465.792),
        (7, 250_000, 20, 28.288),
        (7, 500_000, 20, 14.144),
        (12, 500_000, 20, 329.728),
    ];
    for &(sf, bw, pl, expected_ms) in vectors {
        let got = params(sf, bw).time_on_air(pl).as_secs_f64() * 1000.0;
        assert!(
            (got - expected_ms).abs() < 0.01,
            "SF{sf} BW{bw} PL{pl}: got {got:.3} ms, expected {expected_ms:.3} ms",
        );
    }
}

#[test]
fn low_data_rate_optimize_threshold() {
    // > 16 ms symbol time: SF11/SF12 at 125k, SF12 at 250k, nothing at 500k.
    assert!(!params(10, 125_000).low_data_rate_optimize());
    assert!(params(11, 125_000).low_data_rate_optimize());
    assert!(params(12, 125_000).low_data_rate_optimize());
    assert!(!params(11, 250_000).low_data_rate_optimize());
    assert!(params(12, 250_000).low_data_rate_optimize());
    assert!(!params(12, 500_000).low_data_rate_optimize());
}

#[test]
fn symbol_time_is_two_pow_sf_over_bw() {
    // SF7 @ 125 kHz = 128/125000 = 1.024 ms.
    assert!((params(7, 125_000).symbol_time().as_secs_f64() - 0.001_024).abs() < 1e-9);
}

#[test]
fn time_on_air_ms_rounds() {
    // 118.016 ms -> 118.
    assert_eq!(params(7, 125_000).time_on_air_ms(64), 118);
}

#[test]
fn times_are_exact_to_the_nanosecond() {
    assert_eq!(params(7, 125_000).symbol_time(), Duration::new(0, 1_024_000));
    assert_eq!(params(7, 125_000).time_on_air(12), Duration::new(0, 41_216_000));
    assert_eq!(params(12, 125_000).time_on_air(51), Duration::new(2, 465_792_000));
    // 128 / 41_670 s = 3.0717542596... ms: rounded to the nearest nanosecond.
    assert_eq!(params(7, 41_670).symbol_time(), Duration::new(0, 3_071_754));
    // 128 / 131_072 s = 976_562.5 ns: halfway goes to the even nanosecond.
    assert_eq!(params(7, 131_072).symbol_time(), Duration::new(0, 976_562));
    assert_eq!(params(7, 131_072).symbol_time(), Duration::from_secs_f64(128.0 / 131_072.0));
}

#[test]
fn payload_symbols_follow_the_formula() {
    // SF7, 20 bytes: ceil((160 - 28 + 28 + 16) / 28) = 7, times 5, plus 8.
    assert_eq!(params(7, 125_000).payload_symbols(20), 43);
    // An implicit header and no CRC take 36 bits off the numerator.
    let mut p = params(7, 125_000);
    p.explicit_header = false;
    p.crc = false;
    assert_eq!(p.payload_symbols(20), 33);
    // A numerator that is not positive leaves the eight symbols that are always there.
    let mut slow = params(12, 125_000);
    slow.explicit_header = false;
    slow.crc = false;
    assert_eq!(slow.payload_symbols(0), 8);
    let mut rated = params(7, 125_000);
    rated.coding_rate = CodingRate::Cr48;
    assert_eq!(rated.payload_symbols(20), 64);
    rated.coding_rate = CodingRate::Cr46;
    assert_eq!(rated.payload_symbols(20), 50);
    rated.coding_rate = CodingRate::Cr47;
    assert_eq!(rated.payload_symbols(20), 57);
}

#[test]
fn a_longer_payload_never_takes_less_time() {
    let p = params(9, 125_000);
    let mut last = Duration::new(0, 0);
    for len in 0..=255 {
        let time = p.time_on_air(len);
        assert!(time >= last);
        last = time;
    }
}

#[test]
fn every_radio_frame_has_an_airtime() {
    for sf in 7..=12 {
        for bw in [7_810, 62_500, 125_000, 500_000] {
            let mut p = params(sf, bw);
            p.coding_rate = CodingRate::Cr48;
            assert!(p.payload_symbols(255) >= p.payload_symbols(0));
            assert!(p.time_on_air(255) > Duration::new(0, 0));
        }
    }
}

#[test]
fn half_a_millisecond_rounds_up() {
    // 8 preamble + 4.25 sync + 8 payload symbols of 2 ms each: 40.5 ms.
    let mut p = params(7, 64_000);
    p.explicit_header = false;
    p.crc = false;
    assert_eq!(p.payload_symbols(0), 8);
    assert_eq!(p.time_on_air(0), Duration::new(0, 40_500_000));
    assert_eq!(p.time_on_air_ms(0), 41);
    // One more preamble symbol: 42.5 ms.
    p.preamble_syms = 9;
    assert_eq!(p.time_on_air_ms(0), 43);
}

/// A loopback modem: frames enqueued come straight back out as `Received`, and it reports
/// `TxDone` with the computed airtime. Exists to prove the trait is object-safe and drives
/// like a real radio would through a pump.
struct Loopback {
    params: LoRaParams,
    events: VecDeque<ModemEvent>,
}

impl Loopback {
    fn new() -> Self {
        Loopback {
            params: LoRaParams {
                spreading_factor: 7,
                bandwidth_hz: 125_000,
                coding_rate: CodingRate::Cr45,
                frequency_hz: 915_000_000,
                tx_power_dbm: 7,
                preamble_syms: 8,
                explicit_header: true,
                crc: true,
            },
            events: VecDeque::new(),
        }
    }
}

impl Modem for Loopback {
    fn params(&self) -> LoRaParams {
        self.params
    }
    fn set_params(&mut self, params: LoRaParams) -> Result<(), ModemError> {
        self.params = params;
        Ok(())
    }
    fn max_frame_len(&self) -> usize {
        255
    }
    fn enqueue(&mut self, frame: &[u8]) -> Result<Duration, ModemError> {
        if frame.len() > self.max_frame_len() {
            return Err(ModemError::TooLong {
                max: self.max_frame_len(),
            });
        }
        let airtime = self.params.time_on_air(frame.len());
        self.events.push_back(ModemEvent::TxDone { airtime });
        self.events.push_back(ModemEvent::Received {
            frame: frame.to_vec(),
            rssi_dbm: -80,
            snr_quarter_db: 36,
        });
        Ok(airtime)
    }
    fn poll(&mut self) -> Option<ModemEvent> {
        self.events.pop_front()
    }
}

#[test]
fn drives_as_a_trait_object() {
    let mut modem: Box<dyn Modem> = Box::new(Loopback::new());
    let airtime = modem.enqueue(b"hello over the air").unwrap();
    assert_eq!(airtime, modem.params().time_on_air(18));

    // TxDone then the loopback frame come back on poll.
    assert!(matches!(modem.poll(), Some(ModemEvent::TxDone { .. })));
    match modem.poll() {
        Some(ModemEvent::Received { frame, .. }) => {
            assert_eq!(frame, b"hello over the air");
        }
        other => panic!("expected a received frame, got {other:?}"),
    }
    assert!(modem.poll().is_none());
}

#[test]
fn rejects_an_oversize_frame() {
    let mut modem = Loopback::new();
    let big = vec![0u8; 256];
    assert!(matches!(
        modem.enqueue(&big),
        Err(ModemError::TooLong { max: 255 })
    ));
}

#[test]
fn admission_follows_the_limit_and_the_channel() {
    let p = params(7, 125_000);
    assert_eq!(
        modem::admitted(&p, 255, false, 12).unwrap(),
        Duration::new(0, 41_216_000)
    );
    assert!(matches!(modem::admitted(&p, 255, true, 12), Err(ModemError::Busy)));
    assert!(matches!(
        modem::admitted(&p, 255, true, 256),
        Err(ModemError::TooLong { max: 255 })
    ));
}

#[test]
fn modem_errors_say_what_happened() {
    assert_eq!(ModemError::Busy.to_string(), "modem busy");
    assert_eq!(
        ModemError::TooLong { max: 255 }.to_string(),
        "frame exceeds max length 255"
    );
    assert_eq!(
        ModemError::TooLong { max: 0 }.to_string(),
        "frame exceeds max length 0"
    );
    assert_eq!(ModemError::Unsupported.to_string(), "unsupported parameters");
    assert_eq!(
        ModemError::Transport("line dropped".to_owned()).to_string(),
        "transport error: line dropped"
    );
}

#[test]
fn modem_events_can_be_copied() {
    let heard = ModemEvent::Received { frame: vec![1, 2], rssi_dbm: -90, snr_quarter_db: -13 };
    match heard.clone() {
        ModemEvent::Received { frame, rssi_dbm, snr_quarter_db } => {
            assert_eq!((frame, rssi_dbm, snr_quarter_db), (vec![1, 2], -90, -13));
        }
        other => panic!("expected the same event, got {other:?}"),
    }
    assert!(matches!(ModemEvent::ChannelBusy.clone(), ModemEvent::ChannelBusy));
    assert!(matches!(ModemEvent::ChannelClear.clone(), ModemEvent::ChannelClear));
}

fn codes() -> Codes {
    Codes {
        cmd_tx: 0x01,
        cmd_config: 0x02,
        config_len: 20,
        event_tx: 0x81,
        event_config: 0x82,
        event_rx: 0x83,
    }
}

#[test]
fn a_transmit_command_is_collected_across_packets() {
    let mut c = Commands::new(codes());
    assert!(matches!(c.take(&[0x01, 0x05, 0x00, 1, 2]), Request::Wait));
    // Text requests are answered in between without disturbing the command.
    assert!(matches!(c.take(b"status\n"), Request::Status));
    assert!(matches!(c.take(b"sync\r\n"), Request::Sync));
    match c.take(&[3, 4, 5]) {
        Request::Transmit(frame) => assert_eq!(frame, vec![1, 2, 3, 4, 5]),
        _ => panic!("expected a frame"),
    }
    assert!(matches!(c.take(&[]), Request::Wait));
}

#[test]
fn a_configure_command_has_a_fixed_length() {
    let mut c = Commands::new(codes());
    let mut command = vec![0x02];
    command.extend_from_slice(&[7; 19]);
    assert!(matches!(c.take(&command[..12]), Request::Wait));
    match c.take(&command[12..]) {
        Request::Configure(got) => assert_eq!(got, command),
        _ => panic!("expected a configure command"),
    }
}

#[test]
fn commands_that_do_not_fit_or_are_unknown_are_dropped() {
    let mut c = Commands::new(codes());
    assert!(matches!(c.take(&[0x77, 1, 2, 3]), Request::Unknown));
    // A transmit command must bring its header in one packet.
    assert!(matches!(c.take(&[0x01, 0x05]), Request::Unknown));
    let mut chunk = vec![0x01, 0xff, 0xff];
    chunk.extend_from_slice(&[0; 61]);
    assert!(matches!(c.take(&chunk), Request::Wait));
    assert!(matches!(c.take(&[0; 64]), Request::Wait));
    assert!(matches!(c.take(&[0; 64]), Request::Wait));
    assert!(matches!(c.take(&[0; 64]), Request::Wait));
    assert!(matches!(c.take(&[0; 64]), Request::Overflow));
    match c.take(&[0x01, 0x01, 0x00, 9]) {
        Request::Transmit(frame) => assert_eq!(frame, vec![9]),
        _ => panic!("expected a frame after the overflow"),
    }
}

#[test]
fn the_largest_frame_fills_the_room() {
    let mut c = Commands::new(codes());
    let mut command = vec![0x01, 0xff, 0x00];
    command.extend_from_slice(&[0xee; 255]);
    let mut last = Request::Unknown;
    for chunk in command.chunks(64) {
        last = c.take(chunk);
    }
    match last {
        Request::Transmit(frame) => assert_eq!(frame, vec![0xee; 255]),
        _ => panic!("expected the frame"),
    }
}

#[test]
fn events_have_exact_bytes() {
    assert_eq!(
        phy::rx_event(&codes(), &[0xaa, 0xbb], -80, 9),
        vec![0x83, 0x02, 0x00, 0xb0, 0xff, 0x09, 0x00, 0xaa, 0xbb]
    );
    assert_eq!(phy::tx_event(&codes(), None, 0x0102), vec![0x81, 0, 0x02, 0x01]);
    assert_eq!(phy::tx_event(&codes(), Some(TxRefusal::Radio), 5), vec![0x81, 1, 5, 0]);
    assert_eq!(phy::tx_event(&codes(), Some(TxRefusal::Overflow), 0), vec![0x81, 2, 0, 0]);
    assert_eq!(phy::tx_event(&codes(), Some(TxRefusal::Unknown), 0), vec![0x81, 3, 0, 0]);
    assert_eq!(phy::config_event(&codes(), ConfigOutcome::Applied), vec![0x82, 0]);
    assert_eq!(phy::config_event(&codes(), ConfigOutcome::Undecodable), vec![0x82, 1]);
    assert_eq!(phy::config_event(&codes(), ConfigOutcome::Unsupported), vec![0x82, 2]);
    assert_eq!(phy::config_event(&codes(), ConfigOutcome::Radio), vec![0x82, 3]);
}

#[test]
fn radio_settings_come_from_tables() {
    assert_eq!(phy::spreading_factor(11), Some(phy::SpreadingFactor::Sf11));
    assert_eq!(phy::spreading_factor(4), None);
    assert_eq!(phy::spreading_factor(13), None);
    assert_eq!(phy::bandwidth(250_000), Some(phy::Bandwidth::Khz250));
    assert_eq!(phy::bandwidth(7_810), Some(phy::Bandwidth::Khz7));
    assert_eq!(phy::bandwidth(7_800), None);
    assert_eq!(phy::coding_rate(5), Some(phy::CodingRate::Cr5));
    assert_eq!(phy::coding_rate(9), None);
    assert_eq!(phy::sx126x_sync_word(0x2b), [0x24, 0xb4]);
    assert_eq!(phy::sx126x_sync_word(0x12), [0x14, 0x24]);
    let mut profile = Profile {
        frequency_hz: 906_875_000,
        spreading_factor: 11,
        bandwidth_hz: 250_000,
        coding_rate_denominator: 5,
        preamble_symbols: 16,
        explicit_header: true,
        crc: true,
        invert_iq: false,
        sync_word: 0x2b,
        tx_power_dbm: 17,
    };
    assert_eq!(
        profile.settings(),
        Some((phy::SpreadingFactor::Sf11, phy::Bandwidth::Khz250, phy::CodingRate::Cr5))
    );
    profile.coding_rate_denominator = 4;
    assert_eq!(profile.settings(), None);
}
