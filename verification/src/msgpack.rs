//! A small msgpack codec: the maps, integers and byte strings that advertisements use.
//!
//! Reading functions of the model take what is left of the input and give the value read
//! and what is left after it, or `None` where the input is not of the shape asked for.

use crate::bytes;
use crate::error::Error;
use vstd::prelude::*;

verus! {

/// A value and the input after it.
pub type Read<T> = Option<(T, Seq<u8>)>;

/// The next `n` bytes.
pub open spec fn read_bytes(s: Seq<u8>, n: nat) -> Read<Seq<u8>> {
    if s.len() < n {
        None
    } else {
        Some((s.take(n as int), s.skip(n as int)))
    }
}

/// The number that the next `n` bytes spell, big-endian.
pub open spec fn read_number(s: Seq<u8>, n: nat) -> Read<nat> {
    match read_bytes(s, n) {
        Some((b, rest)) => Some((bytes::be_value(b), rest)),
        None => None,
    }
}

/// A map header: how many entries follow.
pub open spec fn read_map_header(s: Seq<u8>) -> Read<nat> {
    if s.len() == 0 {
        None
    } else if 0x80 <= s[0] <= 0x8f {
        Some(((s[0] - 0x80) as nat, s.skip(1)))
    } else if s[0] == 0xde {
        read_number(s.skip(1), 2)
    } else {
        None
    }
}

/// A short string, of which the first letter counts.
pub open spec fn read_key(s: Seq<u8>) -> Read<u8> {
    if s.len() == 0 || !(0xa1 <= s[0] <= 0xbf) {
        None
    } else {
        match read_bytes(s.skip(1), (s[0] - 0xa0) as nat) {
            Some((text, rest)) => Some((text[0], rest)),
            None => None,
        }
    }
}

/// An unsigned integer.
pub open spec fn read_uint(s: Seq<u8>) -> Read<nat> {
    if s.len() == 0 {
        None
    } else if s[0] < 0x80 {
        Some((s[0] as nat, s.skip(1)))
    } else if s[0] == 0xcc {
        read_number(s.skip(1), 1)
    } else if s[0] == 0xcd {
        read_number(s.skip(1), 2)
    } else if s[0] == 0xce {
        read_number(s.skip(1), 4)
    } else if s[0] == 0xcf {
        read_number(s.skip(1), 8)
    } else {
        None
    }
}

/// The signed number that `v` spells in two's complement, in `n` bytes.
pub open spec fn signed(v: nat, n: nat) -> int {
    if 2 * v < bytes::byte_span(n) {
        v as int
    } else {
        v - bytes::byte_span(n)
    }
}

/// A signed integer, in one of the forms that occur.
pub open spec fn read_int(s: Seq<u8>) -> Read<int> {
    if s.len() == 0 {
        None
    } else if s[0] >= 0xe0 {
        Some((s[0] - 0x100, s.skip(1)))
    } else if s[0] < 0x80 {
        Some((s[0] as int, s.skip(1)))
    } else if s[0] == 0xd3 {
        match read_number(s.skip(1), 8) {
            Some((v, rest)) => Some((signed(v, 8), rest)),
            None => None,
        }
    } else if s[0] == 0xd2 {
        match read_number(s.skip(1), 4) {
            Some((v, rest)) => Some((signed(v, 4), rest)),
            None => None,
        }
    } else if s[0] == 0xcc {
        match read_number(s.skip(1), 1) {
            Some((v, rest)) => Some((v as int, rest)),
            None => None,
        }
    } else {
        None
    }
}

/// A signed integer, or nil.
pub open spec fn read_int_or_nil(s: Seq<u8>) -> Read<Option<int>> {
    if s.len() > 0 && s[0] == 0xc0 {
        Some((None, s.skip(1)))
    } else {
        match read_int(s) {
            Some((v, rest)) => Some((Some(v), rest)),
            None => None,
        }
    }
}

/// The bytes whose length is the number that the next `width` bytes spell.
pub open spec fn read_sized(s: Seq<u8>, width: nat) -> Read<Seq<u8>> {
    match read_number(s, width) {
        Some((n, rest)) => read_bytes(rest, n),
        None => None,
    }
}

/// A byte string.
pub open spec fn read_bin(s: Seq<u8>) -> Read<Seq<u8>> {
    if s.len() == 0 {
        None
    } else if s[0] == 0xc4 {
        read_sized(s.skip(1), 1)
    } else if s[0] == 0xc5 {
        read_sized(s.skip(1), 2)
    } else if s[0] == 0xc6 {
        read_sized(s.skip(1), 4)
    } else {
        None
    }
}

/// What is left after one value of a common scalar shape.
pub open spec fn skip_one(s: Seq<u8>) -> Option<Seq<u8>> {
    if s.len() == 0 {
        None
    } else {
        let t = s[0];
        let rest = s.skip(1);
        if t < 0x80 || t >= 0xe0 || t == 0xc0 {
            Some(rest)
        } else if t == 0xcc {
            skip_bytes(rest, 1)
        } else if t == 0xcd {
            skip_bytes(rest, 2)
        } else if t == 0xce || t == 0xd2 {
            skip_bytes(rest, 4)
        } else if t == 0xcf || t == 0xd3 {
            skip_bytes(rest, 8)
        } else if t == 0xc4 {
            match read_sized(rest, 1) {
                Some((_, after)) => Some(after),
                None => None,
            }
        } else {
            None
        }
    }
}

/// What is left after `n` bytes.
pub open spec fn skip_bytes(s: Seq<u8>, n: nat) -> Option<Seq<u8>> {
    if s.len() < n {
        None
    } else {
        Some(s.skip(n as int))
    }
}

/// A one-letter string.
pub open spec fn key_wire(k: u8) -> Seq<u8> {
    seq![0xa1_u8, k]
}

/// An unsigned integer, in its shortest form.
pub open spec fn uint_wire(v: u64) -> Seq<u8> {
    if v < 0x80 {
        seq![v as u8]
    } else if v <= 0xff {
        seq![0xcc_u8, v as u8]
    } else if v <= 0xffff {
        seq![0xcd_u8] + bytes::be_bytes(v as nat, 2)
    } else if v <= 0xffff_ffff {
        seq![0xce_u8] + bytes::be_bytes(v as nat, 4)
    } else {
        seq![0xcf_u8] + bytes::be_bytes(v as nat, 8)
    }
}

/// A signed integer: one byte if it is small, and nine otherwise.
pub open spec fn int_wire(v: i64) -> Seq<u8> {
    if 0 <= v < 0x80 {
        seq![v as u8]
    } else if -32 <= v < 0 {
        seq![(v + 0x100) as u8]
    } else {
        seq![0xd3_u8] + bytes::be_bytes(
            if v < 0 {
                (v + 0x1_0000_0000_0000_0000) as nat
            } else {
                v as nat
            },
            8,
        )
    }
}

/// A signed integer, or nil.
pub open spec fn int_or_nil_wire(v: Option<i64>) -> Seq<u8> {
    match v {
        Some(v) => int_wire(v),
        None => seq![0xc0_u8],
    }
}

/// A byte string, with the shortest length field that holds its length.
pub open spec fn bin_wire(b: Seq<u8>) -> Seq<u8> {
    if b.len() <= 0xff {
        seq![0xc4_u8, b.len() as u8] + b
    } else if b.len() <= 0xffff {
        seq![0xc5_u8] + bytes::be_bytes(b.len(), 2) + b
    } else {
        seq![0xc6_u8] + bytes::be_bytes(b.len(), 4) + b
    }
}

/// Reading a prefix gives it back, and leaves the rest.
pub proof fn lemma_read_bytes(b: Seq<u8>, rest: Seq<u8>)
    ensures
        read_bytes(b + rest, b.len()) == Some((b, rest)),
{
    assert((b + rest).take(b.len() as int) =~= b);
    assert((b + rest).skip(b.len() as int) =~= rest);
}

/// Reading a number gives back what was written, when it fits.
pub proof fn lemma_read_number(v: nat, n: nat, rest: Seq<u8>)
    requires
        v < bytes::byte_span(n),
    ensures
        read_number(bytes::be_bytes(v, n) + rest, n) == Some((v, rest)),
{
    bytes::lemma_be_bytes_len(v, n);
    bytes::lemma_be_round_trip(v, n);
    lemma_read_bytes(bytes::be_bytes(v, n), rest);
}

/// A key reads back as its letter.
pub proof fn law_key_round_trip(k: u8, rest: Seq<u8>)
    ensures
        read_key(key_wire(k) + rest) == Some((k, rest)),
{
    let s = key_wire(k) + rest;
    assert(s.skip(1) =~= seq![k] + rest);
    lemma_read_bytes(seq![k], rest);
}

/// An unsigned integer reads back as what was written.
pub proof fn law_uint_round_trip(v: u64, rest: Seq<u8>)
    ensures
        read_uint(uint_wire(v) + rest) == Some((v as nat, rest)),
{
    let s = uint_wire(v) + rest;
    bytes::lemma_byte_spans();
    if v < 0x80 {
        assert(s.skip(1) =~= rest);
    } else if v <= 0xff {
        assert(bytes::be_bytes(v as nat, 1) =~= seq![v as u8]) by {
            reveal_with_fuel(bytes::be_bytes, 2);
        }
        assert(s.skip(1) =~= bytes::be_bytes(v as nat, 1) + rest);
        lemma_read_number(v as nat, 1, rest);
    } else if v <= 0xffff {
        assert(s.skip(1) =~= bytes::be_bytes(v as nat, 2) + rest);
        lemma_read_number(v as nat, 2, rest);
    } else if v <= 0xffff_ffff {
        assert(s.skip(1) =~= bytes::be_bytes(v as nat, 4) + rest);
        lemma_read_number(v as nat, 4, rest);
    } else {
        assert(s.skip(1) =~= bytes::be_bytes(v as nat, 8) + rest);
        lemma_read_number(v as nat, 8, rest);
    }
}

/// A signed integer reads back as what was written.
pub proof fn law_int_round_trip(v: i64, rest: Seq<u8>)
    ensures
        read_int(int_wire(v) + rest) == Some((v as int, rest)),
{
    let s = int_wire(v) + rest;
    bytes::lemma_byte_spans();
    if -32 <= v < 0x80 {
        assert(s.skip(1) =~= rest);
    } else {
        let u: nat = if v < 0 {
            (v + 0x1_0000_0000_0000_0000) as nat
        } else {
            v as nat
        };
        assert(s.skip(1) =~= bytes::be_bytes(u, 8) + rest);
        lemma_read_number(u, 8, rest);
    }
}

/// A signed integer or nil reads back as what was written.
pub proof fn law_int_or_nil_round_trip(v: Option<i64>, rest: Seq<u8>)
    ensures
        read_int_or_nil(int_or_nil_wire(v) + rest) == Some(
            (
                match v {
                    Some(x) => Some(x as int),
                    None => None::<int>,
                },
                rest,
            ),
        ),
{
    match v {
        Some(x) => {
            law_int_round_trip(x, rest);
        },
        None => {
            assert((int_or_nil_wire(v) + rest).skip(1) =~= rest);
        },
    }
}

/// A byte string reads back as what was written, if its length fits four bytes.
pub proof fn law_bin_round_trip(b: Seq<u8>, rest: Seq<u8>)
    requires
        b.len() <= 0xffff_ffff,
    ensures
        read_bin(bin_wire(b) + rest) == Some((b, rest)),
{
    let s = bin_wire(b) + rest;
    let width: nat = if b.len() <= 0xff {
        1
    } else if b.len() <= 0xffff {
        2
    } else {
        4
    };
    bytes::lemma_byte_spans();
    bytes::lemma_be_bytes_len(b.len(), width);
    if b.len() <= 0xff {
        assert(bytes::be_bytes(b.len(), 1) =~= seq![b.len() as u8]) by {
            reveal_with_fuel(bytes::be_bytes, 2);
        }
    }
    assert(s.skip(1) =~= bytes::be_bytes(b.len(), width) + (b + rest));
    lemma_read_number(b.len(), width, b + rest);
    lemma_read_bytes(b, rest);
}

/// Writes a map, entry by entry.
pub struct MapWriter {
    out: Vec<u8>,
}

impl View for MapWriter {
    type V = Seq<u8>;

    /// What has been written.
    closed spec fn view(&self) -> Seq<u8> {
        self.out@
    }
}

impl MapWriter {
    /// Begin a map of fewer than sixteen entries.
    pub fn new(entries: usize) -> (writer: Self)
        requires
            entries < 16,
        ensures
            writer@ == seq![(0x80 + entries) as u8],
    {
        let mut out: Vec<u8> = Vec::new();
        out.push(0x80 + entries as u8);
        assert(out@ =~= seq![(0x80 + entries) as u8]);
        MapWriter { out }
    }

    /// Begin with nothing written.
    pub fn blank() -> (writer: Self)
        ensures
            writer@ == Seq::<u8>::empty(),
    {
        MapWriter { out: Vec::new() }
    }

    /// A one-letter key.
    pub fn str_key(&mut self, k: u8)
        ensures
            final(self)@ == old(self)@ + key_wire(k),
    {
        self.out.push(0xa1);
        self.out.push(k);
        assert(self@ =~= old(self)@ + key_wire(k));
    }

    /// An unsigned integer.
    pub fn uint(&mut self, v: u64)
        ensures
            final(self)@ == old(self)@ + uint_wire(v),
    {
        if v < 0x80 {
            self.out.push(v as u8);
        } else if v <= 0xff {
            self.out.push(0xcc);
            self.out.push(v as u8);
        } else if v <= 0xffff {
            self.out.push(0xcd);
            bytes::push_be(&mut self.out, v, 2);
        } else if v <= 0xffff_ffff {
            self.out.push(0xce);
            bytes::push_be(&mut self.out, v, 4);
        } else {
            self.out.push(0xcf);
            bytes::push_be(&mut self.out, v, 8);
        }
        assert(self@ =~= old(self)@ + uint_wire(v));
    }

    /// A signed integer.
    pub fn sint(&mut self, v: i64)
        ensures
            final(self)@ == old(self)@ + int_wire(v),
    {
        if 0 <= v && v < 0x80 {
            self.out.push(v as u8);
        } else if -32 <= v && v < 0 {
            self.out.push((v + 0x100) as u8);
        } else {
            self.out.push(0xd3);
            let u: u64 = if v < 0 {
                0xffff_ffff_ffff_ffff - (-(v + 1)) as u64
            } else {
                v as u64
            };
            bytes::push_be(&mut self.out, u, 8);
        }
        assert(self@ =~= old(self)@ + int_wire(v));
    }

    /// Nil.
    pub fn nil(&mut self)
        ensures
            final(self)@ == old(self)@ + int_or_nil_wire(None),
    {
        self.out.push(0xc0);
        assert(self@ =~= old(self)@ + int_or_nil_wire(None));
    }

    /// A byte string.
    pub fn bin(&mut self, b: &[u8])
        ensures
            final(self)@ == old(self)@ + bin_wire(b@),
    {
        let n: usize = b.len();
        if n <= 0xff {
            self.out.push(0xc4);
            self.out.push(n as u8);
        } else if n <= 0xffff {
            self.out.push(0xc5);
            bytes::push_be(&mut self.out, n as u64, 2);
        } else {
            self.out.push(0xc6);
            bytes::push_be(&mut self.out, n as u64, 4);
        }
        self.out.extend_from_slice(b);
        assert(self@ =~= old(self)@ + bin_wire(b@));
    }

    /// What was written.
    pub fn finish(self) -> (out: Vec<u8>)
        ensures
            out@ == self@,
    {
        self.out
    }
}

/// Reads a map, value by value. After an error nothing is promised of what is left.
pub struct MapReader<'a> {
    b: &'a [u8],
    i: usize,
}

impl<'a> View for MapReader<'a> {
    type V = Seq<u8>;

    /// What is left to read.
    closed spec fn view(&self) -> Seq<u8> {
        self.b@.skip(self.i as int)
    }
}

impl<'a> MapReader<'a> {
    /// The position is inside the input.
    pub closed spec fn well_formed(self) -> bool {
        self.i <= self.b@.len()
    }

    /// Start at the front of `b`.
    pub fn new(b: &'a [u8]) -> (reader: Self)
        ensures
            reader.well_formed(),
            reader@ == b@,
    {
        let reader = MapReader { b, i: 0 };
        assert(reader@ =~= b@);
        reader
    }

    /// The next byte.
    pub fn byte(&mut self) -> (v: Result<u8, Error>)
        requires
            old(self).well_formed(),
        ensures
            final(self).well_formed(),
            match v {
                Ok(t) => old(self)@.len() > 0 && t == old(self)@[0] && final(self)@
                    == old(self)@.skip(1),
                Err(e) => old(self)@.len() == 0 && e == Error::BadRequest,
            },
    {
        if self.i >= self.b.len() {
            return Err(Error::BadRequest);
        }
        let v: u8 = self.b[self.i];
        self.i = self.i + 1;
        assert(self@ =~= old(self)@.skip(1));
        Ok(v)
    }

    /// The next `n` bytes.
    pub fn take(&mut self, n: usize) -> (v: Result<&'a [u8], Error>)
        requires
            old(self).well_formed(),
        ensures
            final(self).well_formed(),
            match v {
                Ok(b) => read_bytes(old(self)@, n as nat) == Some((b@, final(self)@)),
                Err(e) => read_bytes(old(self)@, n as nat) is None && e == Error::BadRequest,
            },
    {
        if n > self.b.len() - self.i {
            return Err(Error::BadRequest);
        }
        let v: &'a [u8] = vstd::slice::slice_subrange(self.b, self.i, self.i + n);
        assert(v@ =~= self@.take(n as int));
        self.i = self.i + n;
        assert(self@ =~= old(self)@.skip(n as int));
        Ok(v)
    }

    /// The number that the next `n` bytes spell.
    fn number(&mut self, n: usize) -> (v: Result<u64, Error>)
        requires
            old(self).well_formed(),
            n <= 8,
        ensures
            final(self).well_formed(),
            match v {
                Ok(x) => read_number(old(self)@, n as nat) == Some((x as nat, final(self)@)),
                Err(e) => read_number(old(self)@, n as nat) is None && e == Error::BadRequest,
            },
    {
        match self.take(n) {
            Ok(b) => Ok(bytes::read_be(b)),
            Err(e) => Err(e),
        }
    }

    /// A map header.
    pub fn map_header(&mut self) -> (v: Result<usize, Error>)
        requires
            old(self).well_formed(),
        ensures
            final(self).well_formed(),
            match v {
                Ok(n) => read_map_header(old(self)@) == Some((n as nat, final(self)@)),
                Err(e) => read_map_header(old(self)@) is None && e == Error::BadRequest,
            },
    {
        let t: u8 = match self.byte() {
            Ok(t) => t,
            Err(e) => {
                return Err(e);
            },
        };
        if 0x80 <= t && t <= 0x8f {
            Ok((t - 0x80) as usize)
        } else if t == 0xde {
            let ghost rest = self@;
            match self.number(2) {
                Ok(n) => {
                    proof {
                        bytes::lemma_be_value_bound(rest.take(2));
                        bytes::lemma_byte_spans();
                    }
                    Ok(n as usize)
                },
                Err(e) => Err(e),
            }
        } else {
            Err(Error::BadRequest)
        }
    }

    /// A key, of which the first letter counts.
    pub fn str_key(&mut self) -> (v: Result<u8, Error>)
        requires
            old(self).well_formed(),
        ensures
            final(self).well_formed(),
            match v {
                Ok(k) => read_key(old(self)@) == Some((k, final(self)@)),
                Err(e) => read_key(old(self)@) is None && e == Error::BadRequest,
            },
    {
        let t: u8 = match self.byte() {
            Ok(t) => t,
            Err(e) => {
                return Err(e);
            },
        };
        if 0xa1 <= t && t <= 0xbf {
            match self.take((t - 0xa0) as usize) {
                Ok(s) => Ok(s[0]),
                Err(e) => Err(e),
            }
        } else {
            Err(Error::BadRequest)
        }
    }

    /// An unsigned integer.
    pub fn uint(&mut self) -> (v: Result<u64, Error>)
        requires
            old(self).well_formed(),
        ensures
            final(self).well_formed(),
            match v {
                Ok(n) => read_uint(old(self)@) == Some((n as nat, final(self)@)),
                Err(e) => read_uint(old(self)@) is None && e == Error::BadRequest,
            },
    {
        let t: u8 = match self.byte() {
            Ok(t) => t,
            Err(e) => {
                return Err(e);
            },
        };
        if t < 0x80 {
            Ok(t as u64)
        } else if t == 0xcc {
            self.number(1)
        } else if t == 0xcd {
            self.number(2)
        } else if t == 0xce {
            self.number(4)
        } else if t == 0xcf {
            self.number(8)
        } else {
            Err(Error::BadRequest)
        }
    }

    /// A signed integer.
    pub fn sint(&mut self) -> (v: Result<i64, Error>)
        requires
            old(self).well_formed(),
        ensures
            final(self).well_formed(),
            match v {
                Ok(n) => read_int(old(self)@) == Some((n as int, final(self)@)),
                Err(e) => read_int(old(self)@) is None && e == Error::BadRequest,
            },
    {
        proof {
            bytes::lemma_byte_spans();
        }
        let t: u8 = match self.byte() {
            Ok(t) => t,
            Err(e) => {
                return Err(e);
            },
        };
        let ghost rest = self@;
        if t >= 0xe0 {
            Ok(t as i64 - 0x100)
        } else if t < 0x80 {
            Ok(t as i64)
        } else if t == 0xd3 {
            match self.number(8) {
                Ok(u) => if u <= 0x7fff_ffff_ffff_ffff {
                    Ok(u as i64)
                } else {
                    Ok(-((0xffff_ffff_ffff_ffff - u) as i64) - 1)
                },
                Err(e) => Err(e),
            }
        } else if t == 0xd2 {
            match self.number(4) {
                Ok(u) => {
                    proof {
                        bytes::lemma_be_value_bound(rest.take(4));
                    }
                    if u <= 0x7fff_ffff {
                        Ok(u as i64)
                    } else {
                        Ok(u as i64 - 0x1_0000_0000)
                    }
                },
                Err(e) => Err(e),
            }
        } else if t == 0xcc {
            match self.number(1) {
                Ok(u) => {
                    proof {
                        bytes::lemma_be_value_bound(rest.take(1));
                    }
                    Ok(u as i64)
                },
                Err(e) => Err(e),
            }
        } else {
            Err(Error::BadRequest)
        }
    }

    /// A signed integer, or nil.
    pub fn int_or_nil(&mut self) -> (v: Result<Option<i64>, Error>)
        requires
            old(self).well_formed(),
        ensures
            final(self).well_formed(),
            match v {
                Ok(Some(n)) => read_int_or_nil(old(self)@) == Some((Some(n as int), final(self)@)),
                Ok(None) => read_int_or_nil(old(self)@) == Some((None::<int>, final(self)@)),
                Err(e) => read_int_or_nil(old(self)@) is None && e == Error::BadRequest,
            },
    {
        if self.i < self.b.len() && self.b[self.i] == 0xc0 {
            self.i = self.i + 1;
            assert(self@ =~= old(self)@.skip(1));
            Ok(None)
        } else {
            match self.sint() {
                Ok(n) => Ok(Some(n)),
                Err(e) => Err(e),
            }
        }
    }

    /// A byte string.
    pub fn bin(&mut self) -> (v: Result<&'a [u8], Error>)
        requires
            old(self).well_formed(),
        ensures
            final(self).well_formed(),
            match v {
                Ok(b) => read_bin(old(self)@) == Some((b@, final(self)@)),
                Err(e) => read_bin(old(self)@) is None && e == Error::BadRequest,
            },
    {
        proof {
            bytes::lemma_byte_spans();
        }
        let t: u8 = match self.byte() {
            Ok(t) => t,
            Err(e) => {
                return Err(e);
            },
        };
        let ghost rest = self@;
        let width: usize = if t == 0xc4 {
            1
        } else if t == 0xc5 {
            2
        } else if t == 0xc6 {
            4
        } else {
            return Err(Error::BadRequest);
        };
        match self.number(width) {
            Ok(n) => {
                proof {
                    bytes::lemma_be_value_bound(rest.take(width as int));
                }
                self.take(n as usize)
            },
            Err(e) => Err(e),
        }
    }

    /// Pass over one value of a common scalar shape.
    pub fn skip_value(&mut self) -> (v: Result<(), Error>)
        requires
            old(self).well_formed(),
        ensures
            final(self).well_formed(),
            match v {
                Ok(_) => skip_one(old(self)@) == Some(final(self)@),
                Err(e) => skip_one(old(self)@) is None && e == Error::BadRequest,
            },
    {
        let t: u8 = match self.byte() {
            Ok(t) => t,
            Err(e) => {
                return Err(e);
            },
        };
        let ghost rest = self@;
        if t < 0x80 || t >= 0xe0 || t == 0xc0 {
            return Ok(());
        }
        let n: usize = if t == 0xcc {
            1
        } else if t == 0xcd {
            2
        } else if t == 0xce || t == 0xd2 {
            4
        } else if t == 0xcf || t == 0xd3 {
            8
        } else if t == 0xc4 {
            match self.number(1) {
                Ok(n) => {
                    proof {
                        bytes::lemma_be_value_bound(rest.take(1));
                        bytes::lemma_byte_spans();
                    }
                    n as usize
                },
                Err(e) => {
                    return Err(e);
                },
            }
        } else {
            return Err(Error::BadRequest);
        };
        match self.take(n) {
            Ok(_) => Ok(()),
            Err(e) => Err(e),
        }
    }
}

/// A number is written as short as the format allows: one byte below 128, and then the marker and
/// one, two, four or eight bytes, whichever are enough. A byte string has one, two or four bytes of
/// length in the same way, and then all of its bytes.
pub proof fn law_the_shortest_form_is_written(v: u64, b: Seq<u8>)
    requires
        b.len() <= 0xffff_ffff,
    ensures
        uint_wire(v).len() == if v < 0x80 {
            1int
        } else if v < 0x100 {
            2
        } else if v < 0x1_0000 {
            3
        } else if v < 0x1_0000_0000 {
            5
        } else {
            9
        },
        bin_wire(b).len() == b.len() + if b.len() < 0x100 {
            2int
        } else if b.len() < 0x1_0000 {
            3
        } else {
            5
        },
        bin_wire(b).skip(bin_wire(b).len() - b.len()) == b,
{
    bytes::lemma_be_bytes_len(v as nat, 2);
    bytes::lemma_be_bytes_len(v as nat, 4);
    bytes::lemma_be_bytes_len(v as nat, 8);
    bytes::lemma_be_bytes_len(b.len(), 2);
    bytes::lemma_be_bytes_len(b.len(), 4);
    assert(bin_wire(b).skip(bin_wire(b).len() - b.len()) =~= b);
}

/// Whatever form a writer chose for a number, it is read: one, two, four or eight bytes behind
/// their marker, or a small number by itself; and reading goes on behind it.
pub proof fn law_every_form_of_a_number_is_read(v: nat, rest: Seq<u8>)
    ensures
        v < 0x80 ==> read_uint(seq![v as u8] + rest) == Some((v, rest)),
        v < 0x100 ==> read_uint(seq![0xcc_u8] + bytes::be_bytes(v, 1) + rest) == Some((v, rest)),
        v < 0x1_0000 ==> read_uint(seq![0xcd_u8] + bytes::be_bytes(v, 2) + rest) == Some(
            (v, rest),
        ),
        v < 0x1_0000_0000 ==> read_uint(seq![0xce_u8] + bytes::be_bytes(v, 4) + rest) == Some(
            (v, rest),
        ),
        v < 0x1_0000_0000_0000_0000 ==> read_uint(seq![0xcf_u8] + bytes::be_bytes(v, 8) + rest)
            == Some((v, rest)),
{
    bytes::lemma_byte_spans();
    if v < 0x80 {
        assert((seq![v as u8] + rest).skip(1) =~= rest);
    }
    if v < 0x100 {
        lemma_number_behind(0xcc, v, 1, rest);
    }
    if v < 0x1_0000 {
        lemma_number_behind(0xcd, v, 2, rest);
    }
    if v < 0x1_0000_0000 {
        lemma_number_behind(0xce, v, 4, rest);
    }
    if v < 0x1_0000_0000_0000_0000 {
        lemma_number_behind(0xcf, v, 8, rest);
    }
}

/// A number behind its marker is read.
proof fn lemma_number_behind(marker: u8, v: nat, n: nat, rest: Seq<u8>)
    requires
        v < bytes::byte_span(n),
    ensures
        ({
            let s = seq![marker] + bytes::be_bytes(v, n) + rest;
            &&& s.len() > 0
            &&& s[0] == marker
            &&& read_number(s.skip(1), n) == Some((v, rest))
        }),
{
    let s = seq![marker] + bytes::be_bytes(v, n) + rest;
    assert(s.skip(1) =~= bytes::be_bytes(v, n) + rest);
    lemma_read_number(v, n, rest);
}

/// A byte string is read to its last byte, whatever the width of its length, and so is a map
/// header; and reading goes on behind them.
pub proof fn law_every_form_of_a_byte_string_is_read(b: Seq<u8>, rest: Seq<u8>)
    ensures
        b.len() < 0x100 ==> read_bin(seq![0xc4_u8] + bytes::be_bytes(b.len(), 1) + (b + rest))
            == Some((b, rest)),
        b.len() < 0x1_0000 ==> read_bin(seq![0xc5_u8] + bytes::be_bytes(b.len(), 2) + (b + rest))
            == Some((b, rest)),
        b.len() < 0x1_0000_0000 ==> read_bin(
            seq![0xc6_u8] + bytes::be_bytes(b.len(), 4) + (b + rest),
        ) == Some((b, rest)),
{
    bytes::lemma_byte_spans();
    lemma_read_bytes(b, rest);
    if b.len() < 0x100 {
        lemma_number_behind(0xc4, b.len(), 1, b + rest);
    }
    if b.len() < 0x1_0000 {
        lemma_number_behind(0xc5, b.len(), 2, b + rest);
    }
    if b.len() < 0x1_0000_0000 {
        lemma_number_behind(0xc6, b.len(), 4, b + rest);
    }
}

/// A map header is read in both of its forms.
pub proof fn law_every_form_of_a_map_header_is_read(n: nat, rest: Seq<u8>)
    ensures
        n < 16 ==> read_map_header(seq![(0x80 + n) as u8] + rest) == Some((n, rest)),
        n < 0x1_0000 ==> read_map_header(seq![0xde_u8] + bytes::be_bytes(n, 2) + rest) == Some(
            (n, rest),
        ),
{
    bytes::lemma_byte_spans();
    if n < 16 {
        assert((seq![(0x80 + n) as u8] + rest).skip(1) =~= rest);
    }
    if n < 0x1_0000 {
        lemma_number_behind(0xde, n, 2, rest);
    }
}

/// A value under an unknown key is passed over whole: a number of any size, nil, and a byte string
/// with a byte of length.
pub proof fn law_values_are_passed_over_whole(v: u64, i: i64, b: Seq<u8>, rest: Seq<u8>)
    requires
        b.len() < 0x100,
    ensures
        skip_one(uint_wire(v) + rest) == Some(rest),
        skip_one(int_wire(i) + rest) == Some(rest),
        skip_one(seq![0xc0_u8] + rest) == Some(rest),
        skip_one(bin_wire(b) + rest) == Some(rest),
{
    let w = uint_wire(v) + rest;
    bytes::lemma_be_bytes_len(v as nat, 2);
    bytes::lemma_be_bytes_len(v as nat, 4);
    bytes::lemma_be_bytes_len(v as nat, 8);
    assert(w.skip(uint_wire(v).len() as int) =~= rest);
    assert(w.skip(1).skip(uint_wire(v).len() - 1) =~= rest);
    let raw = if i < 0 {
        (i + 0x1_0000_0000_0000_0000) as nat
    } else {
        i as nat
    };
    bytes::lemma_be_bytes_len(raw, 8);
    let x = int_wire(i) + rest;
    assert(x.skip(1).skip(int_wire(i).len() - 1) =~= rest);
    assert(x.skip(int_wire(i).len() as int) =~= rest);
    assert((seq![0xc0_u8] + rest).skip(1) =~= rest);
    let y = bin_wire(b) + rest;
    let sized = seq![b.len() as u8] + (b + rest);
    assert(y.skip(1) =~= sized);
    assert(sized.take(1) =~= seq![b.len() as u8]);
    reveal_with_fuel(bytes::be_value, 2);
    assert(seq![b.len() as u8].drop_last() =~= Seq::<u8>::empty());
    assert(bytes::be_value(seq![b.len() as u8]) == b.len());
    assert(sized.skip(1) =~= b + rest);
    lemma_read_bytes(b, rest);
}

/// A key of any length is read whole, and goes by its first letter.
pub proof fn law_longer_keys_go_by_their_first_letter(text: Seq<u8>, rest: Seq<u8>)
    requires
        1 <= text.len() < 32,
    ensures
        read_key(seq![(0xa0 + text.len()) as u8] + text + rest) == Some((text[0], rest)),
{
    let s = seq![(0xa0 + text.len()) as u8] + text + rest;
    assert(s.skip(1) =~= text + rest);
    lemma_read_bytes(text, rest);
}

/// Whatever form a writer chose for a signed number, it is read.
pub proof fn law_every_form_of_a_signed_number_is_read(v: int, rest: Seq<u8>)
    ensures
        -32 <= v < 0 ==> read_int(seq![(0x100 + v) as u8] + rest) == Some((v, rest)),
        0 <= v < 0x80 ==> read_int(seq![v as u8] + rest) == Some((v, rest)),
        0 <= v < 0x100 ==> read_int(seq![0xcc_u8] + bytes::be_bytes(v as nat, 1) + rest) == Some(
            (v, rest),
        ),
        0 <= v < 0x8000_0000 ==> read_int(seq![0xd2_u8] + bytes::be_bytes(v as nat, 4) + rest)
            == Some((v, rest)),
        -0x8000_0000 <= v < 0 ==> read_int(
            seq![0xd2_u8] + bytes::be_bytes((0x1_0000_0000 + v) as nat, 4) + rest,
        ) == Some((v, rest)),
        0 <= v < 0x8000_0000_0000_0000 ==> read_int(
            seq![0xd3_u8] + bytes::be_bytes(v as nat, 8) + rest,
        ) == Some((v, rest)),
        -0x8000_0000_0000_0000 <= v < 0 ==> read_int(
            seq![0xd3_u8] + bytes::be_bytes((0x1_0000_0000_0000_0000 + v) as nat, 8) + rest,
        ) == Some((v, rest)),
{
    bytes::lemma_byte_spans();
    if -32 <= v < 0 {
        assert((seq![(0x100 + v) as u8] + rest).skip(1) =~= rest);
    }
    if 0 <= v < 0x80 {
        assert((seq![v as u8] + rest).skip(1) =~= rest);
    }
    if 0 <= v < 0x100 {
        lemma_number_behind(0xcc, v as nat, 1, rest);
    }
    if 0 <= v < 0x8000_0000 {
        lemma_number_behind(0xd2, v as nat, 4, rest);
    }
    if -0x8000_0000 <= v < 0 {
        lemma_number_behind(0xd2, (0x1_0000_0000 + v) as nat, 4, rest);
    }
    if 0 <= v < 0x8000_0000_0000_0000 {
        lemma_number_behind(0xd3, v as nat, 8, rest);
    }
    if -0x8000_0000_0000_0000 <= v < 0 {
        lemma_number_behind(0xd3, (0x1_0000_0000_0000_0000 + v) as nat, 8, rest);
    }
}

} // verus!
