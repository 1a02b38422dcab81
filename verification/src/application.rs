//! The application envelope inside a decrypted payload: a protobuf message whose field 1 is the
//! port number and whose field 2 is the port's bytes. Other fields are skipped.

use crate::bytes;
use crate::text::text_from_utf8;
use vstd::prelude::*;
use vstd::string::*;
use vstd::utf8;

verus! {

/// The port of text messages.
pub const TEXT_PORT: u32 = 1;

/// A varint takes at most this many bytes.
const MAX_VARINT: usize = 10;

/// Why an envelope or its text could not be read.
#[derive(Debug, Clone, Copy, PartialEq, Eq, Structural)]
pub enum ApplicationError {
    /// Not a well-formed message.
    Malformed,
    /// The port's bytes are not UTF-8 text.
    NotText,
}

impl ApplicationError {
    /// The text of the error.
    pub open spec fn text(self) -> Seq<char> {
        match self {
            ApplicationError::Malformed => "malformed envelope"@,
            ApplicationError::NotText => "payload is not text"@,
        }
    }

    pub fn to_string(&self) -> (text: String)
        ensures
            text@ == self.text(),
    {
        match self {
            ApplicationError::Malformed => "malformed envelope".to_owned(),
            ApplicationError::NotText => "payload is not text".to_owned(),
        }
    }
}

/// What a decrypted payload carries.
#[derive(Debug, PartialEq, Eq)]
pub struct ApplicationEnvelope {
    pub port: u32,
    pub payload: Vec<u8>,
}

/// The mathematical content of an envelope.
#[verifier::ext_equal]
pub struct EnvelopeModel {
    pub port: u32,
    pub payload: Seq<u8>,
}

impl View for ApplicationEnvelope {
    type V = EnvelopeModel;

    open spec fn view(&self) -> EnvelopeModel {
        EnvelopeModel { port: self.port, payload: self.payload@ }
    }
}

/// A number as a varint: seven bits a byte, low bits first, the top bit set on all but the last.
pub open spec fn varint_wire(v: nat) -> Seq<u8>
    decreases v,
{
    if v < 128 {
        seq![v as u8]
    } else {
        seq![(v % 128 + 128) as u8] + varint_wire(v / 128)
    }
}

/// The number that a varint of at most `max` bytes spells, and what follows it.
pub open spec fn varint(s: Seq<u8>, max: nat) -> Option<(nat, Seq<u8>)>
    decreases max,
{
    if s.len() == 0 || max == 0 {
        None
    } else if s[0] < 128 {
        Some((s[0] as nat, s.skip(1)))
    } else {
        match varint(s.skip(1), (max - 1) as nat) {
            Some((high, rest)) => Some(((high * 128 + s[0] - 128) as nat, rest)),
            None => None,
        }
    }
}

/// A varint that fits 64 bits, and what follows it.
pub open spec fn number(s: Seq<u8>) -> Option<(nat, Seq<u8>)> {
    match varint(s, 10) {
        Some((v, rest)) => if v <= u64::MAX {
            Some((v, rest))
        } else {
            None
        },
        None => None,
    }
}

/// `n` bytes and what follows them.
pub open spec fn span(s: Seq<u8>, n: nat) -> Option<(Seq<u8>, Seq<u8>)> {
    if n <= s.len() {
        Some((s.take(n as int), s.skip(n as int)))
    } else {
        None
    }
}

/// The envelope after one field, and what follows that field; `None` if it is malformed.
pub open spec fn after_field(s: Seq<u8>, env: EnvelopeModel) -> Option<(EnvelopeModel, Seq<u8>)> {
    match number(s) {
        None => None,
        Some((key, body)) => if key % 8 == 0 {
            match number(body) {
                None => None,
                Some((v, rest)) => if key == 8 {
                    if v <= u32::MAX {
                        Some((EnvelopeModel { port: v as u32, ..env }, rest))
                    } else {
                        None
                    }
                } else {
                    Some((env, rest))
                },
            }
        } else if key % 8 == 1 {
            match span(body, 8) {
                None => None,
                Some((_, rest)) => Some((env, rest)),
            }
        } else if key % 8 == 5 {
            match span(body, 4) {
                None => None,
                Some((_, rest)) => Some((env, rest)),
            }
        } else if key % 8 == 2 {
            match number(body) {
                None => None,
                Some((n, rest)) => match span(rest, n) {
                    None => None,
                    Some((bytes, rest)) => if key == 18 {
                        Some((EnvelopeModel { payload: bytes, ..env }, rest))
                    } else {
                        Some((env, rest))
                    },
                },
            }
        } else {
            None
        },
    }
}

/// The envelope that fields spell, on top of `env`: of a repeated field the last counts.
pub open spec fn fields(s: Seq<u8>, env: EnvelopeModel) -> Option<EnvelopeModel>
    decreases s.len(),
{
    if s.len() == 0 {
        Some(env)
    } else {
        match after_field(s, env) {
            None => None,
            Some((next, rest)) => if rest.len() < s.len() {
                fields(rest, next)
            } else {
                None
            },
        }
    }
}

/// The envelope with no field set.
pub open spec fn blank() -> EnvelopeModel {
    EnvelopeModel { port: 0, payload: Seq::empty() }
}

/// A text message on the wire.
pub open spec fn text_wire(text: Seq<char>) -> Seq<u8> {
    let bytes = utf8::encode_utf8(text);
    seq![0x08, 0x01, 0x12] + varint_wire(bytes.len()) + bytes
}

/// Read a varint of at most `max` bytes from `at`: its value and where it ends. `None` if there
/// is none or it does not fit.
fn read_varint(s: &[u8], at: usize, max: usize) -> (read: Option<(u64, usize)>)
    requires
        at <= s@.len(),
    ensures
        match read {
            Some((v, end)) => at < end <= s@.len() && varint(s@.skip(at as int), max as nat) == Some(
                (v as nat, s@.skip(end as int)),
            ),
            None => match varint(s@.skip(at as int), max as nat) {
                Some((v, _)) => v > u64::MAX,
                None => true,
            },
        },
    decreases max,
{
    let len: usize = s.len();
    if at >= len || max == 0 {
        return None;
    }
    let b: u8 = s[at];
    assert(s@.skip(at as int)[0] == b);
    assert(s@.skip(at as int).skip(1) =~= s@.skip(at + 1));
    if b < 128 {
        return Some((b as u64, at + 1));
    }
    match read_varint(s, at + 1, max - 1) {
        Some((high, end)) => {
            let low: u64 = b as u64 - 128;
            if high > (u64::MAX - low) / 128 {
                None
            } else {
                Some((high * 128 + low, end))
            }
        },
        None => None,
    }
}

fn read_number(s: &[u8], at: usize) -> (read: Option<(u64, usize)>)
    requires
        at <= s@.len(),
    ensures
        match read {
            Some((v, end)) => at < end <= s@.len() && number(s@.skip(at as int)) == Some(
                (v as nat, s@.skip(end as int)),
            ),
            None => number(s@.skip(at as int)) is None,
        },
{
    read_varint(s, at, MAX_VARINT)
}

fn push_varint(out: &mut Vec<u8>, v: u64)
    ensures
        final(out)@ == old(out)@ + varint_wire(v as nat),
    decreases v,
{
    if v < 128 {
        out.push(v as u8);
        assert(out@ =~= old(out)@ + varint_wire(v as nat));
    } else {
        out.push((v % 128 + 128) as u8);
        push_varint(out, v / 128);
        assert(out@ =~= old(out)@ + varint_wire(v as nat));
    }
}

/// One text message, ready to be put under a channel's cipher.
pub fn encode_text(text: &str) -> (out: Vec<u8>)
    ensures
        out@ == text_wire(text@),
{
    let bytes = text.as_bytes();
    let mut out: Vec<u8> = Vec::new();
    out.push(0x08);
    out.push(0x01);
    out.push(0x12);
    push_varint(&mut out, bytes.len() as u64);
    out.extend_from_slice(bytes);
    assert(out@ =~= text_wire(text@));
    out
}

impl ApplicationEnvelope {
    /// Decode an envelope from a decrypted payload.
    pub fn decode(payload: &[u8]) -> (envelope: Result<ApplicationEnvelope, ApplicationError>)
        ensures
            match envelope {
                Ok(e) => fields(payload@, blank()) == Some(e@),
                Err(e) => e == ApplicationError::Malformed && fields(payload@, blank()) is None,
            },
    {
        let len: usize = payload.len();
        let mut env = ApplicationEnvelope { port: 0, payload: Vec::new() };
        let mut at: usize = 0;
        assert(env@ =~= blank());
        assert(payload@.skip(0) =~= payload@);
        while at < len
            invariant
                at <= len,
                len == payload@.len(),
                fields(payload@.skip(at as int), env@) == fields(payload@, blank()),
            decreases len - at,
        {
            let ghost s = payload@.skip(at as int);
            let (key, body) = match read_number(payload, at) {
                Some(read) => read,
                None => {
                    return Err(ApplicationError::Malformed);
                },
            };
            let wire: u64 = key % 8;
            if wire == 0 {
                match read_number(payload, body) {
                    Some((v, end)) => {
                        if key == 8 {
                            if v > u32::MAX as u64 {
                                return Err(ApplicationError::Malformed);
                            }
                            env.port = v as u32;
                        }
                        at = end;
                    },
                    None => {
                        return Err(ApplicationError::Malformed);
                    },
                }
            } else if wire == 1 || wire == 5 {
                let width: usize = if wire == 1 {
                    8
                } else {
                    4
                };
                if len - body < width {
                    return Err(ApplicationError::Malformed);
                }
                assert(payload@.skip(body as int).skip(width as int) =~= payload@.skip(
                    body + width,
                ));
                at = body + width;
            } else if wire == 2 {
                match read_number(payload, body) {
                    Some((n, start)) => {
                        if n > (len - start) as u64 {
                            return Err(ApplicationError::Malformed);
                        }
                        let end: usize = start + n as usize;
                        assert(payload@.skip(start as int).skip(n as int) =~= payload@.skip(
                            end as int,
                        ));
                        if key == 18 {
                            env.payload = bytes::copy_range(payload, start, end);
                            assert(env.payload@ =~= payload@.skip(start as int).take(n as int));
                        }
                        at = end;
                    },
                    None => {
                        return Err(ApplicationError::Malformed);
                    },
                }
            } else {
                return Err(ApplicationError::Malformed);
            }
        }
        Ok(env)
    }

    /// The port's bytes as text.
    pub fn text(&self) -> (text: Result<String, ApplicationError>)
        ensures
            match text {
                Ok(t) => utf8::valid_utf8(self.payload@) && t@ == utf8::decode_utf8(self.payload@),
                Err(e) => e == ApplicationError::NotText && !utf8::valid_utf8(self.payload@),
            },
    {
        match text_from_utf8(bytes::copy_all(self.payload.as_slice())) {
            Some(text) => Ok(text),
            None => Err(ApplicationError::NotText),
        }
    }
}

/// `128^n`.
pub open spec fn varint_span(n: nat) -> nat
    decreases n,
{
    if n == 0 {
        1
    } else {
        128 * varint_span((n - 1) as nat)
    }
}

/// A varint is read back, whatever follows it.
pub proof fn law_varints_round_trip(v: nat, rest: Seq<u8>, max: nat)
    requires
        max > 0,
        v < varint_span(max),
    ensures
        varint(varint_wire(v) + rest, max) == Some((v, rest)),
    decreases max,
{
    let s = varint_wire(v) + rest;
    reveal_with_fuel(varint_span, 2);
    if v < 128 {
        assert(s.skip(1) =~= rest);
    } else {
        assert(max > 1);
        law_varints_round_trip(v / 128, rest, (max - 1) as nat);
        assert(s.skip(1) =~= varint_wire(v / 128) + rest);
    }
}

/// A text message is read back: its port is the text port and its bytes are the text's.
pub proof fn law_text_round_trips(text: Seq<char>)
    requires
        utf8::encode_utf8(text).len() <= u64::MAX,
    ensures
        fields(text_wire(text), blank()) == Some(
            EnvelopeModel { port: TEXT_PORT, payload: utf8::encode_utf8(text) },
        ),
        utf8::valid_utf8(utf8::encode_utf8(text)),
        utf8::decode_utf8(utf8::encode_utf8(text)) == text,
{
    let bytes = utf8::encode_utf8(text);
    let s = text_wire(text);
    let size = varint_wire(bytes.len());
    reveal_with_fuel(varint_span, 11);
    reveal_with_fuel(fields, 3);
    reveal_with_fuel(varint, 2);
    // Field 1: the port.
    assert(s.skip(1).skip(1) =~= s.skip(2));
    assert(number(s) == Some((8nat, s.skip(1))));
    assert(number(s.skip(1)) == Some((1nat, s.skip(2))));
    let ported = EnvelopeModel { port: TEXT_PORT, payload: Seq::empty() };
    assert(after_field(s, blank()) == Some((ported, s.skip(2))));
    // Field 2: the bytes.
    let t = s.skip(2);
    assert(t[0] == 0x12);
    assert(number(t) == Some((18nat, t.skip(1))));
    assert(t.skip(1) =~= size + bytes);
    law_varints_round_trip(bytes.len(), bytes, 10);
    assert(bytes.take(bytes.len() as int) =~= bytes);
    assert(bytes.skip(bytes.len() as int) =~= Seq::<u8>::empty());
    let whole = EnvelopeModel { port: TEXT_PORT, payload: bytes };
    assert(after_field(t, ported) == Some((whole, Seq::<u8>::empty())));
    utf8::encode_utf8_valid_utf8(text);
    utf8::encode_utf8_decode_utf8(text);
}

/// A field with the port sets the port, whichever it is, and reading goes on behind it.
pub proof fn law_any_port_is_read(port: u32, rest: Seq<u8>, env: EnvelopeModel)
    ensures
        fields(seq![0x08u8] + varint_wire(port as nat) + rest, env) == fields(
            rest,
            EnvelopeModel { port, ..env },
        ),
{
    let s = seq![0x08u8] + varint_wire(port as nat) + rest;
    let value = varint_wire(port as nat);
    reveal_with_fuel(varint_span, 11);
    reveal_with_fuel(varint, 2);
    assert(s.skip(1) =~= value + rest);
    law_varints_round_trip(port as nat, rest, 10);
    assert(number(s) == Some((8nat, s.skip(1))));
    assert(number(s.skip(1)) == Some((port as nat, rest)));
    assert(value.len() >= 1);
}

/// A field with the payload sets the payload to all of its bytes, and reading goes on behind it:
/// the last such field counts.
pub proof fn law_the_whole_payload_is_read(payload: Seq<u8>, rest: Seq<u8>, env: EnvelopeModel)
    requires
        payload.len() <= u64::MAX,
    ensures
        fields(seq![0x12u8] + varint_wire(payload.len()) + payload + rest, env) == fields(
            rest,
            EnvelopeModel { payload, ..env },
        ),
{
    let s = seq![0x12u8] + varint_wire(payload.len()) + payload + rest;
    let size = varint_wire(payload.len());
    reveal_with_fuel(varint_span, 11);
    reveal_with_fuel(varint, 2);
    assert(s.skip(1) =~= size + (payload + rest));
    law_varints_round_trip(payload.len(), payload + rest, 10);
    assert(number(s) == Some((18nat, s.skip(1))));
    assert((payload + rest).take(payload.len() as int) =~= payload);
    assert((payload + rest).skip(payload.len() as int) =~= rest);
    assert(size.len() >= 1);
}

/// Fields that are not known are passed over, of whatever number and length.
pub proof fn law_unknown_fields_are_passed_over(
    field: nat,
    value: u64,
    skipped: Seq<u8>,
    rest: Seq<u8>,
    env: EnvelopeModel,
)
    requires
        2 < field,
        8 * field + 5 <= u64::MAX,
        skipped.len() <= u64::MAX,
    ensures
        fields(varint_wire(8 * field) + varint_wire(value as nat) + rest, env) == fields(
            rest,
            env,
        ),
        fields(varint_wire(8 * field + 2) + varint_wire(skipped.len()) + skipped + rest, env)
            == fields(rest, env),
        skipped.len() == 8 ==> fields(varint_wire(8 * field + 1) + skipped + rest, env) == fields(
            rest,
            env,
        ),
        skipped.len() == 4 ==> fields(varint_wire(8 * field + 5) + skipped + rest, env) == fields(
            rest,
            env,
        ),
{
    reveal_with_fuel(varint_span, 11);
    lemma_key_is_read(8 * field, varint_wire(value as nat) + rest);
    assert(varint_wire(8 * field) + varint_wire(value as nat) + rest =~= varint_wire(8 * field) + (
    varint_wire(value as nat) + rest));
    law_varints_round_trip(value as nat, rest, 10);
    assert(after_field(varint_wire(8 * field) + varint_wire(value as nat) + rest, env) == Some(
        (env, rest),
    ));
    lemma_a_run_is_passed_over(8 * field + 2, skipped, rest, env);
    if skipped.len() == 8 {
        lemma_a_fixed_field_is_passed_over(8 * field + 1, skipped, rest, env);
    }
    if skipped.len() == 4 {
        lemma_a_fixed_field_is_passed_over(8 * field + 5, skipped, rest, env);
    }
}

/// A key is read, and takes up room.
proof fn lemma_key_is_read(key: nat, rest: Seq<u8>)
    requires
        key <= u64::MAX,
    ensures
        number(varint_wire(key) + rest) == Some((key, rest)),
        varint_wire(key).len() > 0,
{
    reveal_with_fuel(varint_span, 11);
    law_varints_round_trip(key, rest, 10);
}

proof fn lemma_a_run_is_passed_over(
    key: nat,
    skipped: Seq<u8>,
    rest: Seq<u8>,
    env: EnvelopeModel,
)
    requires
        key <= u64::MAX,
        key % 8 == 2,
        key != 18,
        skipped.len() <= u64::MAX,
    ensures
        fields(varint_wire(key) + varint_wire(skipped.len()) + skipped + rest, env) == fields(
            rest,
            env,
        ),
{
    let size = varint_wire(skipped.len());
    let body = size + (skipped + rest);
    let s = varint_wire(key) + size + skipped + rest;
    assert(s =~= varint_wire(key) + body);
    lemma_key_is_read(key, body);
    lemma_key_is_read(skipped.len(), skipped + rest);
    assert((skipped + rest).skip(skipped.len() as int) =~= rest);
    assert(after_field(s, env) == Some((env, rest)));
}

proof fn lemma_a_fixed_field_is_passed_over(
    key: nat,
    skipped: Seq<u8>,
    rest: Seq<u8>,
    env: EnvelopeModel,
)
    requires
        key <= u64::MAX,
        key % 8 == 1 && skipped.len() == 8 || key % 8 == 5 && skipped.len() == 4,
    ensures
        fields(varint_wire(key) + skipped + rest, env) == fields(rest, env),
{
    let s = varint_wire(key) + skipped + rest;
    assert(s =~= varint_wire(key) + (skipped + rest));
    lemma_key_is_read(key, skipped + rest);
    assert((skipped + rest).skip(skipped.len() as int) =~= rest);
    assert(after_field(s, env) == Some((env, rest)));
}

} // verus!
