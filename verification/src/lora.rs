//! LoRa PHY parameters and time-on-air.
//!
//! Time-on-air (airtime) is what the shared duty-cycle gate ([`crate::airtime`]) debits, so it
//! lives here as a pure function of the modulation parameters. The formula is Semtech's
//! (AN1200.13 / SX1276 datasheet 4.1.1.7):
//!
//! ```text
//! T_sym       = 2^SF / BW
//! T_preamble  = (n_preamble + 4.25) * T_sym
//! symbols     = 8 + max(0, ceil((8*PL - 4*SF + 28 + 16*CRC - 20*IH) / (4*(SF - 2*DE))) * (CR + 4))
//! T_payload   = symbols * T_sym
//! ToA         = T_preamble + T_payload
//! ```
//!
//! where `CR` is 1..=4 (4/5..4/8), `IH` is 1 for an implicit header, `CRC` is 1 when on, and
//! `DE` (low-data-rate optimization) is forced on when the symbol time exceeds 16 ms. `DE` is
//! derived, never stored: storing it invites a transmitter/receiver mismatch.
//!
//! All times are computed on whole numbers and rounded to the nearest nanosecond once, at the
//! end.

use core::time::Duration;
use vstd::arithmetic::power2;
use vstd::prelude::*;

verus! {

/// The duration of so many seconds and nanoseconds.
pub uninterp spec fn duration_of(secs: u64, nanos: u32) -> Duration;

/// `Duration::new`, with the nanoseconds below one second: the duration depends on the two
/// numbers alone.
pub assume_specification[ Duration::new ](secs: u64, nanos: u32) -> (duration: Duration)
    requires
        nanos < 1_000_000_000,
    ensures
        duration == duration_of(secs, nanos),
;

/// LoRa coding rate, `4/(4+n)`. The wire encoding is `1..=4`.
#[derive(Clone, Copy, Debug, PartialEq, Eq, Structural)]
pub enum CodingRate {
    /// 4/5
    Cr45,
    /// 4/6
    Cr46,
    /// 4/7
    Cr47,
    /// 4/8
    Cr48,
}

impl CodingRate {
    /// The `CR` term in the airtime formula (1..=4).
    pub open spec fn term(self) -> int {
        match self {
            CodingRate::Cr45 => 1,
            CodingRate::Cr46 => 2,
            CodingRate::Cr47 => 3,
            CodingRate::Cr48 => 4,
        }
    }

    fn value(self) -> (value: i64)
        ensures
            value == self.term(),
    {
        match self {
            CodingRate::Cr45 => 1,
            CodingRate::Cr46 => 2,
            CodingRate::Cr47 => 3,
            CodingRate::Cr48 => 4,
        }
    }
}

/// The modulation parameters for a LoRa transmission, enough to compute airtime and to key a
/// duty-cycle budget by channel.
#[derive(Clone, Copy, Debug, PartialEq, Eq, Structural)]
pub struct LoRaParams {
    /// Spreading factor, 7..=12.
    pub spreading_factor: u8,
    /// Bandwidth in Hz, e.g. 125_000, 250_000, 500_000.
    pub bandwidth_hz: u32,
    pub coding_rate: CodingRate,
    /// Carrier frequency in Hz (channel identity; not used by the airtime math).
    pub frequency_hz: u32,
    /// Transmit power in dBm. Capped in code to the certified envelope by policy (the
    /// region-lock posture); not used by the airtime math.
    pub tx_power_dbm: u8,
    /// Preamble length in symbols (default 8).
    pub preamble_syms: u16,
    /// Explicit header present (`false` = implicit header, `IH = 1`).
    pub explicit_header: bool,
    /// Payload CRC enabled.
    pub crc: bool,
}

/// `num / den`, rounded up, for a positive `den`.
pub open spec fn ceiling(num: int, den: int) -> int {
    (num + den - 1) / den
}

/// `num / den`, rounded to the nearest whole number; halfway between two, to the even one.
pub open spec fn nearest(num: nat, den: nat) -> nat {
    let down = num / den;
    let left = num % den;
    if 2 * left < den || (2 * left == den && down % 2 == 0) {
        down
    } else {
        down + 1
    }
}

/// `num / den` seconds as nanoseconds, rounded to the nearest, ties to even.
pub open spec fn nearest_nanos(num: nat, den: nat) -> nat {
    nearest(num * 1_000_000_000, den)
}

/// `nanos` nanoseconds as a duration.
pub open spec fn duration_of_nanos(nanos: nat) -> Duration {
    duration_of((nanos / 1_000_000_000) as u64, (nanos % 1_000_000_000) as u32)
}

/// Whether a duration can hold `nanos` nanoseconds.
pub open spec fn duration_holds(nanos: nat) -> bool {
    nanos / 1_000_000_000 <= u64::MAX
}

impl LoRaParams {
    /// `2^SF`, the chips per symbol.
    pub open spec fn chips(self) -> nat {
        power2::pow2(self.spreading_factor as nat)
    }

    /// Whether a symbol lasts longer than 16 ms: `2^SF / BW > 16 / 1000`.
    pub open spec fn slow_symbols(self) -> bool {
        self.chips() * 1000 > 16 * self.bandwidth_hz
    }

    /// The numerator of the payload-symbols formula.
    pub open spec fn symbols_num(self, payload_len: nat) -> int {
        8 * payload_len - 4 * self.spreading_factor + 28 + (if self.crc {
            16int
        } else {
            0
        }) - (if self.explicit_header {
            0int
        } else {
            20
        })
    }

    /// The denominator of the payload-symbols formula.
    pub open spec fn symbols_den(self) -> int {
        4 * (self.spreading_factor - (if self.slow_symbols() {
            2int
        } else {
            0
        }))
    }

    /// The payload symbols of a `payload_len`-byte frame.
    pub open spec fn symbols(self, payload_len: nat) -> int {
        let term = ceiling(self.symbols_num(payload_len), self.symbols_den()) * (
        self.coding_rate.term() + 4);
        8 + if term > 0 {
            term
        } else {
            0
        }
    }

    /// The time on air of a `payload_len`-byte frame, in nanoseconds: preamble, 4.25 symbols of
    /// sync, and payload, each symbol `2^SF / BW` seconds.
    pub open spec fn airtime_nanos(self, payload_len: nat) -> nat {
        nearest_nanos(
            ((4 * (self.preamble_syms + self.symbols(payload_len)) + 17) * self.chips()) as nat,
            (4 * self.bandwidth_hz) as nat,
        )
    }

    /// A spreading factor and bandwidth that the formulas are defined for.
    pub open spec fn in_domain(self) -> bool {
        self.spreading_factor < 64 && self.bandwidth_hz > 0
    }

    fn chip_count(&self) -> (chips: u64)
        requires
            self.spreading_factor < 64,
        ensures
            chips == self.chips(),
            0 < chips <= 0x8000_0000_0000_0000,
    {
        let sf: u8 = self.spreading_factor;
        proof {
            vstd::bits::lemma_u64_pow2_no_overflow(sf as nat);
            vstd::bits::lemma_u64_shl_is_mul(1, sf as u64);
            power2::lemma_pow2_pos(sf as nat);
            power2::lemma2_to64_rest();
            if sf < 63 {
                power2::lemma_pow2_strictly_increases(sf as nat, 63);
            }
            assert(1u64 << (sf as u64) == 1u64 << sf);
        }
        1u64 << sf
    }

    /// The symbol time `T_sym = 2^SF / BW`, to the nearest nanosecond, ties to even.
    pub fn symbol_time(&self) -> (time: Duration)
        requires
            self.in_domain(),
        ensures
            time == duration_of_nanos(nearest_nanos(self.chips(), self.bandwidth_hz as nat)),
    {
        let chips: u64 = self.chip_count();
        proof {
            lemma_nearest_split(chips as int, self.bandwidth_hz as int);
            assert((chips as int) / (self.bandwidth_hz as int) <= chips) by (nonlinear_arith)
                requires
                    self.bandwidth_hz > 0,
            ;
        }
        seconds(chips as u128, self.bandwidth_hz as u128)
    }

    /// Whether low-data-rate optimization applies: symbol time greater than 16 ms (SF11/SF12 at
    /// 125 kHz, SF12 at 250 kHz). Derived, per Semtech, never configured.
    pub fn low_data_rate_optimize(&self) -> (applies: bool)
        requires
            self.in_domain(),
        ensures
            applies == self.slow_symbols(),
    {
        self.chip_count() as u128 * 1000 > 16 * self.bandwidth_hz as u128
    }

    /// The number of payload symbols for a `payload_len`-byte PHY frame.
    pub fn payload_symbols(&self, payload_len: usize) -> (symbols: u32)
        requires
            self.in_domain(),
            self.symbols_den() > 0,
            self.symbols(payload_len as nat) <= u32::MAX,
        ensures
            symbols == self.symbols(payload_len as nat),
    {
        let sf: i128 = self.spreading_factor as i128;
        let pl: i128 = payload_len as i128;
        let crc: i128 = if self.crc {
            16
        } else {
            0
        };
        let ih: i128 = if self.explicit_header {
            0
        } else {
            20
        };
        let de: i128 = if self.low_data_rate_optimize() {
            2
        } else {
            0
        };
        let num: i128 = 8 * pl - 4 * sf + 28 + crc - ih;
        let den: i128 = 4 * (sf - de);
        proof {
            lemma_ceiling(num as int, den as int);
        }
        if num <= 0 {
            assert(ceiling(num as int, den as int) * (self.coding_rate.term() + 4) <= 0)
                by (nonlinear_arith)
                requires
                    ceiling(num as int, den as int) <= 0,
                    self.coding_rate.term() > 0,
            ;
            return 8;
        }
        let rounded: i128 = (num + den - 1) / den;
        assert(0 < rounded * (self.coding_rate.term() + 4) <= 0x1_0000_0000_0000_0000_0000)
            by (nonlinear_arith)
            requires
                0 < rounded <= 0x1_0000_0000_0000_0000_000,
                1 <= self.coding_rate.term() <= 4,
        ;
        let term: i128 = rounded * (self.coding_rate.value() as i128 + 4);
        (8 + term) as u32
    }

    /// The time on air of so many payload symbols, as a fraction of a second: numerator and
    /// denominator.
    fn airtime_fraction(&self, payload_len: usize) -> (fraction: (u128, u128))
        requires
            self.in_domain(),
            self.symbols_den() > 0,
            self.symbols(payload_len as nat) <= u32::MAX,
        ensures
            fraction.0 == (4 * (self.preamble_syms + self.symbols(payload_len as nat)) + 17)
                * self.chips(),
            fraction.1 == 4 * self.bandwidth_hz,
            fraction.0 < 0x10_0000_0000_0000_0000_0000_0000,
    {
        let quarters: u128 = 4 * (self.preamble_syms as u128 + self.payload_symbols(
            payload_len,
        ) as u128) + 17;
        let chips: u128 = self.chip_count() as u128;
        assert(quarters * chips < 0x10_0000_0000_0000_0000_0000_0000) by (nonlinear_arith)
            requires
                quarters < 0x10_0000_0000,
                chips < 0x1_0000_0000_0000_0000,
        ;
        (quarters * chips, 4 * self.bandwidth_hz as u128)
    }

    /// The full time-on-air for a `payload_len`-byte PHY frame, to the nearest nanosecond,
    /// ties to even.
    pub fn time_on_air(&self, payload_len: usize) -> (time: Duration)
        requires
            self.in_domain(),
            self.symbols_den() > 0,
            self.symbols(payload_len as nat) <= u32::MAX,
            duration_holds(self.airtime_nanos(payload_len as nat)),
        ensures
            time == duration_of_nanos(self.airtime_nanos(payload_len as nat)),
    {
        let fraction: (u128, u128) = self.airtime_fraction(payload_len);
        seconds(fraction.0, fraction.1)
    }

    /// Time-on-air in whole milliseconds (rounded, half up), for feeding
    /// [`crate::airtime::AirtimeBudget`].
    pub fn time_on_air_ms(&self, payload_len: usize) -> (millis: u64)
        requires
            self.in_domain(),
            self.symbols_den() > 0,
            self.symbols(payload_len as nat) <= u32::MAX,
            self.airtime_nanos(payload_len as nat) + 500_000 < 1_000_000 * (u64::MAX + 1),
        ensures
            millis == (self.airtime_nanos(payload_len as nat) + 500_000) / 1_000_000,
    {
        let fraction: (u128, u128) = self.airtime_fraction(payload_len);
        let (secs, nanos) = seconds_and_nanos(fraction.0, fraction.1);
        ((secs * 1_000_000_000 + nanos as u128 + 500_000) / 1_000_000) as u64
    }
}

/// `ceiling` is the least whole number not below the quotient.
proof fn lemma_ceiling(num: int, den: int)
    requires
        den > 0,
    ensures
        (ceiling(num, den) - 1) * den < num <= ceiling(num, den) * den,
        num <= 0 ==> ceiling(num, den) <= 0,
        num > 0 ==> 0 < ceiling(num, den) <= num,
{
    let c = ceiling(num, den);
    vstd::arithmetic::div_mod::lemma_fundamental_div_mod(num + den - 1, den);
    let r = (num + den - 1) % den;
    assert(num + den - 1 == c * den + r) by (nonlinear_arith)
        requires
            num + den - 1 == den * c + r,
    ;
    assert((c - 1) * den == c * den - den) by (nonlinear_arith);
    if num <= 0 {
        assert(c <= 0) by (nonlinear_arith)
            requires
                (c - 1) * den < num,
                num <= 0,
                den > 0,
        ;
    } else {
        assert(0 < c <= num) by (nonlinear_arith)
            requires
                (c - 1) * den < num <= c * den,
                num > 0,
                den > 0,
        ;
    }
}

/// Split `num / den` seconds, rounded to the nearest nanosecond, into seconds and nanoseconds.
fn seconds_and_nanos(num: u128, den: u128) -> (parts: (u128, u32))
    requires
        0 < den < 0x10_0000_0000,
        num < 0x10_0000_0000_0000_0000_0000_0000,
    ensures
        parts.0 == nearest_nanos(num as nat, den as nat) / 1_000_000_000,
        parts.1 == nearest_nanos(num as nat, den as nat) % 1_000_000_000,
        parts.0 <= num + 1,
{
    let whole: u128 = num / den;
    let left: u128 = num % den;
    let down: u128 = left * 1_000_000_000 / den;
    let rest: u128 = left * 1_000_000_000 % den;
    proof {
        lemma_nearest_split(num as int, den as int);
    }
    let nanos: u128 = if 2 * rest < den || (2 * rest == den && down % 2 == 0) {
        down
    } else {
        down + 1
    };
    proof {
        assert(whole <= num) by (nonlinear_arith)
            requires
                whole == num / den,
                den > 0,
        ;
    }
    if nanos >= 1_000_000_000 {
        (whole + 1, (nanos - 1_000_000_000) as u32)
    } else {
        (whole, nanos as u32)
    }
}

/// Rounding a fraction splits into its whole seconds and the rounding of what is left.
proof fn lemma_nearest_split(num: int, den: int)
    requires
        0 < den,
        0 <= num,
    ensures
        ({
            let left = num % den;
            let nanos = nearest((left * 1_000_000_000) as nat, den as nat);
            &&& 0 <= left < den
            &&& (left * 1_000_000_000) / den < 1_000_000_000
            &&& nanos <= 1_000_000_000
            &&& nearest_nanos(num as nat, den as nat) == (num / den) * 1_000_000_000 + nanos
        }),
{
    let whole = num / den;
    let left = num % den;
    vstd::arithmetic::div_mod::lemma_fundamental_div_mod(num, den);
    let part = left * 1_000_000_000;
    assert(num * 1_000_000_000 == den * (whole * 1_000_000_000) + part) by (nonlinear_arith)
        requires
            num == den * whole + left,
            part == left * 1_000_000_000,
    ;
    vstd::arithmetic::div_mod::lemma_hoist_over_denominator(
        part,
        whole * 1_000_000_000,
        den as nat,
    );
    vstd::arithmetic::div_mod::lemma_mod_multiples_vanish(whole * 1_000_000_000, part, den);
    let t = num * 1_000_000_000;
    assert(part + (whole * 1_000_000_000) * den == t) by (nonlinear_arith)
        requires
            t == den * (whole * 1_000_000_000) + part,
    ;
    assert(t / den == whole * 1_000_000_000 + part / den);
    assert(t % den == part % den);
    assert((whole * 1_000_000_000 + part / den) % 2 == (part / den) % 2);
    assert(0 <= t) by (nonlinear_arith)
        requires
            0 <= num,
            t == num * 1_000_000_000,
    ;
    assert(0 <= whole) by (nonlinear_arith)
        requires
            0 <= num,
            0 < den,
            whole == num / den,
    ;
    assert(part / den < 1_000_000_000) by (nonlinear_arith)
        requires
            0 <= left < den,
            part == left * 1_000_000_000,
    ;
    assert(0 <= part / den) by (nonlinear_arith)
        requires
            0 <= part,
            0 < den,
    ;
}

/// Rounding keeps the order.
proof fn lemma_nearest_ordered(a: nat, b: nat, den: nat)
    requires
        0 < den,
        a <= b,
    ensures
        nearest(a, den) <= nearest(b, den),
{
    vstd::arithmetic::div_mod::lemma_div_is_ordered(a as int, b as int, den as int);
    vstd::arithmetic::div_mod::lemma_fundamental_div_mod(a as int, den as int);
    vstd::arithmetic::div_mod::lemma_fundamental_div_mod(b as int, den as int);
}

/// `num / den` seconds as a duration, to the nearest nanosecond.
fn seconds(num: u128, den: u128) -> (time: Duration)
    requires
        0 < den < 0x10_0000_0000,
        num < 0x10_0000_0000_0000_0000_0000_0000,
        duration_holds(nearest_nanos(num as nat, den as nat)),
    ensures
        time == duration_of_nanos(nearest_nanos(num as nat, den as nat)),
{
    let (secs, nanos) = seconds_and_nanos(num, den);
    Duration::new(secs as u64, nanos)
}

/// Low-data-rate optimization sets in exactly where the symbol time passes 16 ms: of the usual
/// bandwidths, at SF11 and up for 125 kHz, at SF12 for 250 kHz, and nowhere for 500 kHz.
pub proof fn law_slow_symbols(params: LoRaParams)
    requires
        7 <= params.spreading_factor <= 12,
    ensures
        params.bandwidth_hz == 125_000 ==> params.slow_symbols() == (params.spreading_factor >= 11),
        params.bandwidth_hz == 250_000 ==> params.slow_symbols() == (params.spreading_factor == 12),
        params.bandwidth_hz == 500_000 ==> !params.slow_symbols(),
        params.symbols_den() > 0,
{
    power2::lemma2_to64();
}

/// Every frame that a radio carries has a time on air: with a spreading factor of 7 to 12 and any
/// bandwidth, payloads of up to 255 bytes are within every bound.
pub proof fn law_radio_frames_have_an_airtime(params: LoRaParams, payload_len: nat)
    requires
        7 <= params.spreading_factor <= 12,
        params.bandwidth_hz > 0,
        payload_len <= 255,
    ensures
        params.in_domain(),
        params.symbols_den() > 0,
        8 <= params.symbols(payload_len) <= u32::MAX,
        duration_holds(params.airtime_nanos(payload_len)),
        params.airtime_nanos(payload_len) + 500_000 < 1_000_000 * (u64::MAX + 1),
{
    let num = params.symbols_num(payload_len);
    let den = params.symbols_den();
    let rate = params.coding_rate.term() + 4;
    lemma_ceiling(num, den);
    let c = ceiling(num, den);
    if num > 0 {
        assert(c * rate <= 3000 * 8) by (nonlinear_arith)
            requires
                0 < c <= 3000,
                0 < rate <= 8,
        ;
    } else {
        assert(c * rate <= 0) by (nonlinear_arith)
            requires
                c <= 0,
                0 < rate,
        ;
    }
    power2::lemma2_to64();
    let quarters = 4 * (params.preamble_syms + params.symbols(payload_len)) + 17;
    let chips = params.chips();
    assert(0 <= quarters * chips <= 400_000 * 4096) by (nonlinear_arith)
        requires
            0 <= quarters <= 400_000,
            chips <= 4096,
    ;
    let whole = (quarters * chips) as nat;
    let d = (4 * params.bandwidth_hz) as nat;
    assert((whole * 1_000_000_000) / d <= whole * 1_000_000_000) by (nonlinear_arith)
        requires
            d > 0,
    ;
}

/// A longer payload never takes fewer symbols, nor less time on air.
pub proof fn law_longer_payloads_take_longer(params: LoRaParams, short: nat, long: nat)
    requires
        params.in_domain(),
        params.symbols_den() > 0,
        short <= long,
    ensures
        8 <= params.symbols(short) <= params.symbols(long),
        params.airtime_nanos(short) <= params.airtime_nanos(long),
{
    let den = params.symbols_den();
    let a = params.symbols_num(short);
    let b = params.symbols_num(long);
    vstd::arithmetic::div_mod::lemma_div_is_ordered(a + den - 1, b + den - 1, den);
    let rate = params.coding_rate.term() + 4;
    assert(ceiling(a, den) * rate <= ceiling(b, den) * rate) by (nonlinear_arith)
        requires
            ceiling(a, den) <= ceiling(b, den),
            rate > 0,
    ;
    power2::lemma_pow2_pos(params.spreading_factor as nat);
    let chips = params.chips();
    let quarters_a = 4 * (params.preamble_syms + params.symbols(short)) + 17;
    let quarters_b = 4 * (params.preamble_syms + params.symbols(long)) + 17;
    assert(0 <= quarters_a * chips <= quarters_b * chips) by (nonlinear_arith)
        requires
            0 <= quarters_a <= quarters_b,
    ;
    let d = (4 * params.bandwidth_hz) as nat;
    let num_a = (quarters_a * chips) as nat;
    let num_b = (quarters_b * chips) as nat;
    lemma_nearest_ordered(num_a * 1_000_000_000, num_b * 1_000_000_000, d);
}

/// Adding a whole number of denominators to a numerator adds that number to the ceiling.
proof fn lemma_ceiling_moves(num: int, den: int, times: int)
    requires
        den > 0,
    ensures
        ceiling(num + times * den, den) == ceiling(num, den) + times,
{
    vstd::arithmetic::div_mod::lemma_hoist_over_denominator(num + den - 1, times, den as nat);
}

/// Every byte counts: one more byte is eight more bits to carry, whatever the length. So
/// `SF - 2 DE` more bytes, the bits of two whole blocks, always take two blocks more, of
/// `CR + 4` symbols each, and the number of symbols has no ceiling.
pub proof fn law_every_byte_counts(params: LoRaParams, payload_len: nat)
    requires
        2 < params.spreading_factor,
    ensures
        ({
            let slow: int = if power2::pow2(params.spreading_factor as nat) * 1000 > 16
                * params.bandwidth_hz {
                2
            } else {
                0
            };
            let more = (params.spreading_factor - slow) as nat;
            let rate: int = match params.coding_rate {
                CodingRate::Cr45 => 5,
                CodingRate::Cr46 => 6,
                CodingRate::Cr47 => 7,
                CodingRate::Cr48 => 8,
            };
            &&& more > 0
            &&& params.symbols_num(payload_len + 1) == params.symbols_num(payload_len) + 8
            &&& params.symbols(payload_len) > 8 ==> params.symbols(payload_len + more)
                == params.symbols(payload_len) + 2 * rate
        }),
{
    let den = params.symbols_den();
    let num = params.symbols_num(payload_len);
    let more = (den / 4) as nat;
    let rate = params.coding_rate.term() + 4;
    assert(params.symbols_num(payload_len + more) == num + 2 * den);
    lemma_ceiling_moves(num, den, 2);
    let c = ceiling(num, den);
    assert((c + 2) * rate == c * rate + 2 * rate) by (nonlinear_arith);
}

/// The payload symbols are the eight that every frame has and the fewest whole blocks, of five
/// to eight symbols by the coding rate, that carry the bits: eight for each byte of payload, the
/// header's and the checksum's where they are on, `4 (SF - 2 DE)` bits to a block.
pub proof fn law_symbols_carry_the_payload(params: LoRaParams, payload_len: nat)
    requires
        2 < params.spreading_factor,
    ensures
        ({
            let slow: int = if power2::pow2(params.spreading_factor as nat) * 1000 > 16
                * params.bandwidth_hz {
                2
            } else {
                0
            };
            let rate: int = match params.coding_rate {
                CodingRate::Cr45 => 5,
                CodingRate::Cr46 => 6,
                CodingRate::Cr47 => 7,
                CodingRate::Cr48 => 8,
            };
            let header: int = if params.explicit_header {
                28
            } else {
                8
            };
            let check: int = if params.crc {
                16
            } else {
                0
            };
            let bits = 8 * payload_len + header + check - 4 * params.spreading_factor;
            let block = 4 * (params.spreading_factor - slow);
            let blocks = (params.symbols(payload_len) - 8) / rate;
            &&& params.symbols(payload_len) == 8 + blocks * rate
            &&& 0 <= blocks
            &&& bits <= blocks * block
            &&& blocks > 0 ==> (blocks - 1) * block < bits
        }),
{
    let den = params.symbols_den();
    let num = params.symbols_num(payload_len);
    let rate = params.coding_rate.term() + 4;
    lemma_ceiling(num, den);
    let c = ceiling(num, den);
    let blocks = if num > 0 {
        c
    } else {
        0
    };
    if num > 0 {
        assert(c * rate > 0) by (nonlinear_arith)
            requires
                c > 0,
                rate > 0,
        ;
    } else {
        assert(c * rate <= 0) by (nonlinear_arith)
            requires
                c <= 0,
                rate > 0,
        ;
    }
    assert(params.symbols(payload_len) == 8 + blocks * rate);
    vstd::arithmetic::div_mod::lemma_div_multiples_vanish(blocks, rate);
    vstd::arithmetic::mul::lemma_mul_is_commutative(blocks, rate);
}

/// The time on air is the time of its symbols: four and a quarter for the sync, the preamble's
/// and the payload's, each `2^SF / BW` seconds, to within half a nanosecond. The frequency and
/// the power do not enter into it.
pub proof fn law_airtime_is_the_time_of_its_symbols(
    params: LoRaParams,
    payload_len: nat,
    frequency_hz: u32,
    tx_power_dbm: u8,
)
    requires
        params.bandwidth_hz > 0,
        2 < params.spreading_factor,
    ensures
        ({
            let symbol_nanos = power2::pow2(params.spreading_factor as nat) * 1_000_000_000;
            let quarters = 4 * params.preamble_syms + 17 + 4 * params.symbols(payload_len);
            let exact = quarters * symbol_nanos;
            let found = params.airtime_nanos(payload_len) * (4 * params.bandwidth_hz);
            &&& 2 * (found - exact) <= 4 * params.bandwidth_hz
            &&& 2 * (exact - found) <= 4 * params.bandwidth_hz
        }),
        (LoRaParams { frequency_hz, tx_power_dbm, ..params }).airtime_nanos(payload_len)
            == params.airtime_nanos(payload_len),
{
    law_symbols_carry_the_payload(params, payload_len);
    let chips = params.chips();
    let quarters = 4 * (params.preamble_syms + params.symbols(payload_len)) + 17;
    assert(params.symbols(payload_len) >= 8);
    assert(quarters * chips >= 0) by (nonlinear_arith)
        requires
            quarters >= 0,
    ;
    let d = (4 * params.bandwidth_hz) as nat;
    let num = ((quarters * chips) as nat * 1_000_000_000) as nat;
    assert(num == quarters * (chips * 1_000_000_000)) by (nonlinear_arith)
        requires
            num == (quarters * chips) * 1_000_000_000,
    ;
    vstd::arithmetic::div_mod::lemma_fundamental_div_mod(num as int, d as int);
    let down = num / d;
    let left = num % d;
    assert((down + 1) * d == down * d + d) by (nonlinear_arith);
    assert(d * down == down * d) by (nonlinear_arith);
    assert(params.airtime_nanos(payload_len) == nearest(num, d));
}

/// A longer preamble never makes a frame shorter, and leaves its payload symbols as they are.
pub proof fn law_a_longer_preamble_takes_longer(
    params: LoRaParams,
    payload_len: nat,
    preamble_syms: u16,
)
    requires
        params.bandwidth_hz > 0,
        2 < params.spreading_factor,
        params.preamble_syms <= preamble_syms,
    ensures
        (LoRaParams { preamble_syms, ..params }).symbols(payload_len) == params.symbols(
            payload_len,
        ),
        params.airtime_nanos(payload_len) <= (LoRaParams {
            preamble_syms,
            ..params
        }).airtime_nanos(payload_len),
{
    let other = LoRaParams { preamble_syms, ..params };
    law_symbols_carry_the_payload(params, payload_len);
    let a = 4 * (params.preamble_syms + params.symbols(payload_len)) + 17;
    let b = 4 * (preamble_syms + params.symbols(payload_len)) + 17;
    let chips = params.chips();
    assert(0 <= a * chips <= b * chips) by (nonlinear_arith)
        requires
            0 <= a <= b,
    ;
    lemma_nearest_ordered(
        ((a * chips) as nat * 1_000_000_000) as nat,
        ((b * chips) as nat * 1_000_000_000) as nat,
        (4 * params.bandwidth_hz) as nat,
    );
    assert(other.symbols(payload_len) == params.symbols(payload_len));
}

/// Rounding goes to the nearest whole number: none is closer, and where two are as close it is
/// the even one.
pub proof fn law_rounding_is_to_the_nearest(num: nat, den: nat, other: nat)
    requires
        den > 0,
    ensures
        2 * (nearest(num, den) * den - num) <= den,
        2 * (num - nearest(num, den) * den) <= den,
        2 * (nearest(num, den) * den - num) == den ==> nearest(num, den) % 2 == 0,
        2 * (num - nearest(num, den) * den) == den ==> nearest(num, den) % 2 == 0,
        nearest(other * den, den) == other,
{
    vstd::arithmetic::div_mod::lemma_fundamental_div_mod(num as int, den as int);
    let down = num / den;
    assert((down + 1) * den == down * den + den) by (nonlinear_arith);
    assert(den * down == down * den) by (nonlinear_arith);
    vstd::arithmetic::div_mod::lemma_div_multiples_vanish(other as int, den as int);
    vstd::arithmetic::div_mod::lemma_mod_multiples_basic(other as int, den as int);
    vstd::arithmetic::mul::lemma_mul_is_commutative(other as int, den as int);
}

/// A duration holds all the nanoseconds: whole seconds and the rest, which is less than one.
pub proof fn law_durations_hold_all_the_nanoseconds(secs: u64, nanos: u32)
    requires
        nanos < 1_000_000_000,
    ensures
        duration_of_nanos((secs * 1_000_000_000 + nanos) as nat) == duration_of(secs, nanos),
        duration_holds((secs * 1_000_000_000 + nanos) as nat),
{
    let all = secs * 1_000_000_000 + nanos;
    assert(all / 1_000_000_000 == secs);
    assert(all % 1_000_000_000 == nanos);
}

} // verus!
