//! The resource advertisement: the packet that opens every resource transfer.
//!
//! It is a msgpack map whose keys are single letters:
//!
//! ```text
//! t  transfer size   (bytes on the wire, after compression)
//! d  data size       (uncompressed)
//! n  parts           (number of segments)
//! h  resource hash   (32)
//! o  original hash   (32, of the uncompressed data)
//! r  random hash     (4)
//! f  flags
//! m  hashmap         (four bytes per part)
//! i, l, q            carried opaque (interleave / split / request)
//! ```

use crate::bytes;
use crate::error::Error;
use crate::msgpack;
use crate::msgpack::{MapReader, MapWriter};
use vstd::prelude::*;

verus! {

/// Bytes of a part's map hash in the advertisement hashmap.
pub const MAPHASH_LEN: usize = 4;

/// The key of the transfer size.
pub const KEY_T: u8 = 0x74;

/// The key of the data size.
pub const KEY_D: u8 = 0x64;

/// The key of the part count.
pub const KEY_N: u8 = 0x6e;

/// The key of the resource hash.
pub const KEY_H: u8 = 0x68;

/// The key of the original hash.
pub const KEY_O: u8 = 0x6f;

/// The key of the random hash.
pub const KEY_R: u8 = 0x72;

/// The key of the flags.
pub const KEY_F: u8 = 0x66;

/// The key of the hashmap.
pub const KEY_M: u8 = 0x6d;

/// The key of the opaque `i`.
pub const KEY_I: u8 = 0x69;

/// The key of the opaque `l`.
pub const KEY_L: u8 = 0x6c;

/// The key of the opaque `q`.
pub const KEY_Q: u8 = 0x71;

/// A resource transfer advertisement.
///
/// Fields that are not interpreted here (`i`, `l`, `q`) are preserved so an advertisement
/// round-trips exactly, which keeps hashing and signatures over it stable.
#[derive(Debug, PartialEq)]
pub struct Advertisement {
    /// `t`: size on the wire after compression.
    pub transfer_size: u64,
    /// `d`: uncompressed data size.
    pub data_size: u64,
    /// `n`: number of parts.
    pub parts: u64,
    /// `h`: the resource hash.
    pub resource_hash: Vec<u8>,
    /// `o`: the hash of the uncompressed data.
    pub original_hash: Vec<u8>,
    /// `r`: a random hash for uniqueness.
    pub random_hash: Vec<u8>,
    /// `f`: flags.
    pub flags: u64,
    /// `m`: the hashmap, [`MAPHASH_LEN`] bytes per part.
    pub hashmap: Vec<u8>,
    /// `i`, carried opaque.
    pub i: i64,
    /// `l`, carried opaque.
    pub l: i64,
    /// `q`, carried opaque (present-but-nil is `None`).
    pub q: Option<i64>,
}

/// What an [`Advertisement`] is, with its byte strings as sequences.
#[verifier::ext_equal]
pub struct AdvertisementModel {
    pub transfer_size: u64,
    pub data_size: u64,
    pub parts: u64,
    pub resource_hash: Seq<u8>,
    pub original_hash: Seq<u8>,
    pub random_hash: Seq<u8>,
    pub flags: u64,
    pub hashmap: Seq<u8>,
    pub i: i64,
    pub l: i64,
    pub q: Option<i64>,
}

impl View for Advertisement {
    type V = AdvertisementModel;

    open spec fn view(&self) -> AdvertisementModel {
        AdvertisementModel {
            transfer_size: self.transfer_size,
            data_size: self.data_size,
            parts: self.parts,
            resource_hash: self.resource_hash@,
            original_hash: self.original_hash@,
            random_hash: self.random_hash@,
            flags: self.flags,
            hashmap: self.hashmap@,
            i: self.i,
            l: self.l,
            q: self.q,
        }
    }
}

impl Clone for Advertisement {
    fn clone(&self) -> (copy: Self)
        ensures
            copy@ == self@,
    {
        Advertisement {
            transfer_size: self.transfer_size,
            data_size: self.data_size,
            parts: self.parts,
            resource_hash: bytes::copy_all(&self.resource_hash),
            original_hash: bytes::copy_all(&self.original_hash),
            random_hash: bytes::copy_all(&self.random_hash),
            flags: self.flags,
            hashmap: bytes::copy_all(&self.hashmap),
            i: self.i,
            l: self.l,
            q: self.q,
        }
    }
}

/// The fields seen so far while reading an advertisement.
#[verifier::ext_equal]
pub struct Fields {
    pub t: Option<nat>,
    pub d: Option<nat>,
    pub n: Option<nat>,
    pub h: Option<Seq<u8>>,
    pub o: Option<Seq<u8>>,
    pub r: Option<Seq<u8>>,
    pub f: Option<nat>,
    pub m: Option<Seq<u8>>,
    pub i: Option<int>,
    pub l: Option<int>,
    pub q: Option<int>,
}

/// No field seen yet.
pub open spec fn no_fields() -> Fields {
    Fields {
        t: None,
        d: None,
        n: None,
        h: None,
        o: None,
        r: None,
        f: None,
        m: None,
        i: None,
        l: None,
        q: None,
    }
}

/// One value, read under its key. The last value of a key wins; unknown keys are passed
/// over.
pub open spec fn read_field(key: u8, s: Seq<u8>, f: Fields) -> msgpack::Read<Fields> {
    if key == KEY_T {
        match msgpack::read_uint(s) {
            Some((v, rest)) => Some((Fields { t: Some(v), ..f }, rest)),
            None => None,
        }
    } else if key == KEY_D {
        match msgpack::read_uint(s) {
            Some((v, rest)) => Some((Fields { d: Some(v), ..f }, rest)),
            None => None,
        }
    } else if key == KEY_N {
        match msgpack::read_uint(s) {
            Some((v, rest)) => Some((Fields { n: Some(v), ..f }, rest)),
            None => None,
        }
    } else if key == KEY_H {
        match msgpack::read_bin(s) {
            Some((v, rest)) => Some((Fields { h: Some(v), ..f }, rest)),
            None => None,
        }
    } else if key == KEY_O {
        match msgpack::read_bin(s) {
            Some((v, rest)) => Some((Fields { o: Some(v), ..f }, rest)),
            None => None,
        }
    } else if key == KEY_R {
        match msgpack::read_bin(s) {
            Some((v, rest)) => Some((Fields { r: Some(v), ..f }, rest)),
            None => None,
        }
    } else if key == KEY_F {
        match msgpack::read_uint(s) {
            Some((v, rest)) => Some((Fields { f: Some(v), ..f }, rest)),
            None => None,
        }
    } else if key == KEY_M {
        match msgpack::read_bin(s) {
            Some((v, rest)) => Some((Fields { m: Some(v), ..f }, rest)),
            None => None,
        }
    } else if key == KEY_I {
        match msgpack::read_int(s) {
            Some((v, rest)) => Some((Fields { i: Some(v), ..f }, rest)),
            None => None,
        }
    } else if key == KEY_L {
        match msgpack::read_int(s) {
            Some((v, rest)) => Some((Fields { l: Some(v), ..f }, rest)),
            None => None,
        }
    } else if key == KEY_Q {
        match msgpack::read_int_or_nil(s) {
            Some((v, rest)) => Some((Fields { q: v, ..f }, rest)),
            None => None,
        }
    } else {
        match msgpack::skip_one(s) {
            Some(rest) => Some((f, rest)),
            None => None,
        }
    }
}

/// One key and its value.
pub open spec fn read_entry(s: Seq<u8>, f: Fields) -> msgpack::Read<Fields> {
    match msgpack::read_key(s) {
        Some((key, rest)) => read_field(key, rest, f),
        None => None,
    }
}

/// `n` entries, on top of the fields already seen.
pub open spec fn read_entries(s: Seq<u8>, n: nat, f: Fields) -> msgpack::Read<Fields>
    decreases n,
{
    if n == 0 {
        Some((f, s))
    } else {
        match read_entry(s, f) {
            Some((g, rest)) => read_entries(rest, (n - 1) as nat, g),
            None => None,
        }
    }
}

/// The fields of a whole advertisement, if it is a well-formed map, and what follows the map.
pub open spec fn read_advertisement(s: Seq<u8>) -> msgpack::Read<Fields> {
    match msgpack::read_map_header(s) {
        Some((n, rest)) => read_entries(rest, n, no_fields()),
        None => None,
    }
}

impl Fields {
    /// Every field but the optional one is there.
    pub open spec fn complete(self) -> bool {
        &&& self.t is Some
        &&& self.d is Some
        &&& self.n is Some
        &&& self.h is Some
        &&& self.o is Some
        &&& self.r is Some
        &&& self.f is Some
        &&& self.m is Some
        &&& self.i is Some
        &&& self.l is Some
    }
}

impl AdvertisementModel {
    /// The fields that spell this advertisement.
    pub open spec fn fields(self) -> Fields {
        Fields {
            t: Some(self.transfer_size as nat),
            d: Some(self.data_size as nat),
            n: Some(self.parts as nat),
            h: Some(self.resource_hash),
            o: Some(self.original_hash),
            r: Some(self.random_hash),
            f: Some(self.flags as nat),
            m: Some(self.hashmap),
            i: Some(self.i as int),
            l: Some(self.l as int),
            q: match self.q {
                Some(v) => Some(v as int),
                None => None,
            },
        }
    }

    /// The map on the wire, its keys in the order `t d n h r o i l q f m`.
    pub open spec fn wire(self) -> Seq<u8> {
        seq![0x8b_u8] + msgpack::key_wire(KEY_T) + msgpack::uint_wire(self.transfer_size)
            + msgpack::key_wire(KEY_D) + msgpack::uint_wire(self.data_size) + msgpack::key_wire(KEY_N)
            + msgpack::uint_wire(self.parts) + msgpack::key_wire(KEY_H) + msgpack::bin_wire(
            self.resource_hash,
        ) + msgpack::key_wire(KEY_R) + msgpack::bin_wire(self.random_hash) + msgpack::key_wire(KEY_O)
            + msgpack::bin_wire(self.original_hash) + msgpack::key_wire(KEY_I) + msgpack::int_wire(
            self.i,
        ) + msgpack::key_wire(KEY_L) + msgpack::int_wire(self.l) + msgpack::key_wire(KEY_Q)
            + msgpack::int_or_nil_wire(self.q) + msgpack::key_wire(KEY_F) + msgpack::uint_wire(
            self.flags,
        ) + msgpack::key_wire(KEY_M) + msgpack::bin_wire(self.hashmap)
    }
}

/// The advertisement that complete fields spell.
pub open spec fn of_fields(f: Fields) -> AdvertisementModel {
    AdvertisementModel {
        transfer_size: f.t->0 as u64,
        data_size: f.d->0 as u64,
        parts: f.n->0 as u64,
        resource_hash: f.h->0,
        original_hash: f.o->0,
        random_hash: f.r->0,
        flags: f.f->0 as u64,
        hashmap: f.m->0,
        i: f.i->0 as i64,
        l: f.l->0 as i64,
        q: match f.q {
            Some(v) => Some(v as i64),
            None => None,
        },
    }
}

/// The advertisement that `wire` carries: a well-formed map with every field but `q`. What follows
/// the map does not matter.
pub open spec fn parsed(wire: Seq<u8>) -> Option<AdvertisementModel> {
    match read_advertisement(wire) {
        Some((f, _)) => if f.complete() {
            Some(of_fields(f))
        } else {
            None
        },
        None => None,
    }
}

/// The fields read so far, as values.
struct Reading {
    t: Option<u64>,
    d: Option<u64>,
    n: Option<u64>,
    h: Option<Vec<u8>>,
    o: Option<Vec<u8>>,
    r: Option<Vec<u8>>,
    f: Option<u64>,
    m: Option<Vec<u8>>,
    i: Option<i64>,
    l: Option<i64>,
    q: Option<i64>,
}

spec fn as_nat(v: Option<u64>) -> Option<nat> {
    match v {
        Some(x) => Some(x as nat),
        None => None,
    }
}

spec fn as_int(v: Option<i64>) -> Option<int> {
    match v {
        Some(x) => Some(x as int),
        None => None,
    }
}

spec fn as_seq(v: Option<Vec<u8>>) -> Option<Seq<u8>> {
    match v {
        Some(x) => Some(x@),
        None => None,
    }
}

impl Reading {
    spec fn fields(self) -> Fields {
        Fields {
            t: as_nat(self.t),
            d: as_nat(self.d),
            n: as_nat(self.n),
            h: as_seq(self.h),
            o: as_seq(self.o),
            r: as_seq(self.r),
            f: as_nat(self.f),
            m: as_seq(self.m),
            i: as_int(self.i),
            l: as_int(self.l),
            q: as_int(self.q),
        }
    }

    /// Read the value of `key` into its field.
    fn take_field(&mut self, key: u8, reader: &mut MapReader<'_>) -> (done: Result<(), Error>)
        requires
            old(reader).well_formed(),
        ensures
            final(reader).well_formed(),
            match done {
                Ok(_) => read_field(key, old(reader)@, old(self).fields()) == Some(
                    (final(self).fields(), final(reader)@),
                ),
                Err(e) => e == Error::BadRequest && read_field(
                    key,
                    old(reader)@,
                    old(self).fields(),
                ) is None,
            },
    {
        if key == KEY_T || key == KEY_D || key == KEY_N || key == KEY_F {
            match reader.uint() {
                Ok(v) => {
                    if key == KEY_T {
                        self.t = Some(v);
                    } else if key == KEY_D {
                        self.d = Some(v);
                    } else if key == KEY_N {
                        self.n = Some(v);
                    } else {
                        self.f = Some(v);
                    }
                    Ok(())
                },
                Err(e) => Err(e),
            }
        } else if key == KEY_H || key == KEY_O || key == KEY_R || key == KEY_M {
            match reader.bin() {
                Ok(v) => {
                    let copy = bytes::copy_all(v);
                    if key == KEY_H {
                        self.h = Some(copy);
                    } else if key == KEY_O {
                        self.o = Some(copy);
                    } else if key == KEY_R {
                        self.r = Some(copy);
                    } else {
                        self.m = Some(copy);
                    }
                    Ok(())
                },
                Err(e) => Err(e),
            }
        } else if key == KEY_I || key == KEY_L {
            match reader.sint() {
                Ok(v) => {
                    if key == KEY_I {
                        self.i = Some(v);
                    } else {
                        self.l = Some(v);
                    }
                    Ok(())
                },
                Err(e) => Err(e),
            }
        } else if key == KEY_Q {
            match reader.int_or_nil() {
                Ok(v) => {
                    self.q = v;
                    Ok(())
                },
                Err(e) => Err(e),
            }
        } else {
            reader.skip_value()
        }
    }
}

impl Advertisement {
    /// Parse an advertisement from its msgpack map. [`Error::BadRequest`] when it is not a
    /// well-formed map, or when a field other than `q` is missing.
    pub fn parse(wire: &[u8]) -> (advertisement: Result<Self, Error>)
        ensures
            match advertisement {
                Ok(a) => parsed(wire@) == Some(a@),
                Err(e) => parsed(wire@) is None && e == Error::BadRequest,
            },
    {
        let mut reader = MapReader::new(wire);
        let n: usize = match reader.map_header() {
            Ok(n) => n,
            Err(e) => {
                return Err(e);
            },
        };
        let mut reading = Reading {
            t: None,
            d: None,
            n: None,
            h: None,
            o: None,
            r: None,
            f: None,
            m: None,
            i: None,
            l: None,
            q: None,
        };
        assert(reading.fields() =~= no_fields());
        let mut left: usize = n;
        while left > 0
            invariant
                reader.well_formed(),
                read_advertisement(wire@) == read_entries(reader@, left as nat, reading.fields()),
            decreases left,
        {
            let key: u8 = match reader.str_key() {
                Ok(key) => key,
                Err(e) => {
                    return Err(e);
                },
            };
            match reading.take_field(key, &mut reader) {
                Ok(_) => {},
                Err(e) => {
                    return Err(e);
                },
            }
            left -= 1;
        }
        assert(read_advertisement(wire@) == Some((reading.fields(), reader@)));
        match (
            reading.t,
            reading.d,
            reading.n,
            reading.h,
            reading.o,
            reading.r,
            reading.f,
            reading.m,
            reading.i,
            reading.l,
        ) {
            (
                Some(transfer_size),
                Some(data_size),
                Some(parts),
                Some(resource_hash),
                Some(original_hash),
                Some(random_hash),
                Some(flags),
                Some(hashmap),
                Some(i),
                Some(l),
            ) => {
                let a = Advertisement {
                    transfer_size,
                    data_size,
                    parts,
                    resource_hash,
                    original_hash,
                    random_hash,
                    flags,
                    hashmap,
                    i,
                    l,
                    q: reading.q,
                };
                assert(of_fields(reading.fields()) =~= a@);
                Ok(a)
            },
            _ => Err(Error::BadRequest),
        }
    }

    /// Serialise to the msgpack map.
    pub fn pack(&self) -> (wire: Vec<u8>)
        ensures
            wire@ == self@.wire(),
    {
        let mut w = MapWriter::new(11);
        w.str_key(KEY_T);
        w.uint(self.transfer_size);
        w.str_key(KEY_D);
        w.uint(self.data_size);
        w.str_key(KEY_N);
        w.uint(self.parts);
        w.str_key(KEY_H);
        w.bin(&self.resource_hash);
        w.str_key(KEY_R);
        w.bin(&self.random_hash);
        w.str_key(KEY_O);
        w.bin(&self.original_hash);
        w.str_key(KEY_I);
        w.sint(self.i);
        w.str_key(KEY_L);
        w.sint(self.l);
        w.str_key(KEY_Q);
        match self.q {
            Some(v) => w.sint(v),
            None => w.nil(),
        }
        w.str_key(KEY_F);
        w.uint(self.flags);
        w.str_key(KEY_M);
        w.bin(&self.hashmap);
        w.finish()
    }

    /// The number of parts named in the hashmap.
    pub fn hashmap_parts(&self) -> (parts: usize)
        ensures
            parts == self@.hashmap.len() / 4,
    {
        self.hashmap.len() / MAPHASH_LEN
    }
}

/// A key and a value at the end of what was written, seen from the front of what follows.
proof fn lemma_regroup(before: Seq<u8>, key: Seq<u8>, value: Seq<u8>, after: Seq<u8>)
    ensures
        before + key + value + after == before + (key + (value + after)),
{
    assert(before + key + value + after =~= before + (key + (value + after)));
}

/// One entry that was written reads back under its key.
proof fn lemma_entry_round_trip(key: u8, value: Seq<u8>, rest: Seq<u8>, f: Fields, g: Fields)
    requires
        read_field(key, value + rest, f) == Some((g, rest)),
    ensures
        read_entry(msgpack::key_wire(key) + (value + rest), f) == Some((g, rest)),
{
    msgpack::law_key_round_trip(key, value + rest);
}

/// Parsing what was packed gives the advertisement back, whatever its fields hold, as long as
/// its byte strings have lengths that fit the format.
pub proof fn law_advertisement_round_trip(a: AdvertisementModel)
    requires
        a.resource_hash.len() <= 0xffff_ffff,
        a.original_hash.len() <= 0xffff_ffff,
        a.random_hash.len() <= 0xffff_ffff,
        a.hashmap.len() <= 0xffff_ffff,
    ensures
        read_advertisement(a.wire()) == Some((a.fields(), Seq::<u8>::empty())),
        parsed(a.wire()) == Some(a),
{
    let e = Seq::<u8>::empty();
    let v0 = msgpack::uint_wire(a.transfer_size);
    let v1 = msgpack::uint_wire(a.data_size);
    let v2 = msgpack::uint_wire(a.parts);
    let v3 = msgpack::bin_wire(a.resource_hash);
    let v4 = msgpack::bin_wire(a.random_hash);
    let v5 = msgpack::bin_wire(a.original_hash);
    let v6 = msgpack::int_wire(a.i);
    let v7 = msgpack::int_wire(a.l);
    let v8 = msgpack::int_or_nil_wire(a.q);
    let v9 = msgpack::uint_wire(a.flags);
    let v10 = msgpack::bin_wire(a.hashmap);
    // What is left before each entry, from the back.
    let s10 = msgpack::key_wire(KEY_M) + (v10 + e);
    let s9 = msgpack::key_wire(KEY_F) + (v9 + s10);
    let s8 = msgpack::key_wire(KEY_Q) + (v8 + s9);
    let s7 = msgpack::key_wire(KEY_L) + (v7 + s8);
    let s6 = msgpack::key_wire(KEY_I) + (v6 + s7);
    let s5 = msgpack::key_wire(KEY_O) + (v5 + s6);
    let s4 = msgpack::key_wire(KEY_R) + (v4 + s5);
    let s3 = msgpack::key_wire(KEY_H) + (v3 + s4);
    let s2 = msgpack::key_wire(KEY_N) + (v2 + s3);
    let s1 = msgpack::key_wire(KEY_D) + (v1 + s2);
    let s0 = msgpack::key_wire(KEY_T) + (v0 + s1);
    let w = a.wire();
    assert(w == seq![0x8b_u8] + s0) by {
        let p0 = seq![0x8b_u8];
        let p1 = p0 + msgpack::key_wire(KEY_T) + v0;
        let p2 = p1 + msgpack::key_wire(KEY_D) + v1;
        let p3 = p2 + msgpack::key_wire(KEY_N) + v2;
        let p4 = p3 + msgpack::key_wire(KEY_H) + v3;
        let p5 = p4 + msgpack::key_wire(KEY_R) + v4;
        let p6 = p5 + msgpack::key_wire(KEY_O) + v5;
        let p7 = p6 + msgpack::key_wire(KEY_I) + v6;
        let p8 = p7 + msgpack::key_wire(KEY_L) + v7;
        let p9 = p8 + msgpack::key_wire(KEY_Q) + v8;
        let p10 = p9 + msgpack::key_wire(KEY_F) + v9;
        assert(w + e =~= w);
        lemma_regroup(p10, msgpack::key_wire(KEY_M), v10, e);
        lemma_regroup(p9, msgpack::key_wire(KEY_F), v9, s10);
        lemma_regroup(p8, msgpack::key_wire(KEY_Q), v8, s9);
        lemma_regroup(p7, msgpack::key_wire(KEY_L), v7, s8);
        lemma_regroup(p6, msgpack::key_wire(KEY_I), v6, s7);
        lemma_regroup(p5, msgpack::key_wire(KEY_O), v5, s6);
        lemma_regroup(p4, msgpack::key_wire(KEY_R), v4, s5);
        lemma_regroup(p3, msgpack::key_wire(KEY_H), v3, s4);
        lemma_regroup(p2, msgpack::key_wire(KEY_N), v2, s3);
        lemma_regroup(p1, msgpack::key_wire(KEY_D), v1, s2);
        lemma_regroup(p0, msgpack::key_wire(KEY_T), v0, s1);
    }
    assert(w.skip(1) =~= s0);
    // The fields seen after each entry.
    let f0 = Fields { t: Some(a.transfer_size as nat), ..no_fields() };
    let f1 = Fields { d: Some(a.data_size as nat), ..f0 };
    let f2 = Fields { n: Some(a.parts as nat), ..f1 };
    let f3 = Fields { h: Some(a.resource_hash), ..f2 };
    let f4 = Fields { r: Some(a.random_hash), ..f3 };
    let f5 = Fields { o: Some(a.original_hash), ..f4 };
    let f6 = Fields { i: Some(a.i as int), ..f5 };
    let f7 = Fields { l: Some(a.l as int), ..f6 };
    let f8 = Fields {
        q: match a.q {
            Some(v) => Some(v as int),
            None => None,
        },
        ..f7
    };
    let f9 = Fields { f: Some(a.flags as nat), ..f8 };
    let f10 = Fields { m: Some(a.hashmap), ..f9 };
    assert(read_entries(s0, 11, no_fields()) == read_entries(s1, 10, f0)) by {
        msgpack::law_uint_round_trip(a.transfer_size, s1);
        lemma_entry_round_trip(KEY_T, v0, s1, no_fields(), f0);
    }
    assert(read_entries(s1, 10, f0) == read_entries(s2, 9, f1)) by {
        msgpack::law_uint_round_trip(a.data_size, s2);
        lemma_entry_round_trip(KEY_D, v1, s2, f0, f1);
    }
    assert(read_entries(s2, 9, f1) == read_entries(s3, 8, f2)) by {
        msgpack::law_uint_round_trip(a.parts, s3);
        lemma_entry_round_trip(KEY_N, v2, s3, f1, f2);
    }
    assert(read_entries(s3, 8, f2) == read_entries(s4, 7, f3)) by {
        msgpack::law_bin_round_trip(a.resource_hash, s4);
        lemma_entry_round_trip(KEY_H, v3, s4, f2, f3);
    }
    assert(read_entries(s4, 7, f3) == read_entries(s5, 6, f4)) by {
        msgpack::law_bin_round_trip(a.random_hash, s5);
        lemma_entry_round_trip(KEY_R, v4, s5, f3, f4);
    }
    assert(read_entries(s5, 6, f4) == read_entries(s6, 5, f5)) by {
        msgpack::law_bin_round_trip(a.original_hash, s6);
        lemma_entry_round_trip(KEY_O, v5, s6, f4, f5);
    }
    assert(read_entries(s6, 5, f5) == read_entries(s7, 4, f6)) by {
        msgpack::law_int_round_trip(a.i, s7);
        lemma_entry_round_trip(KEY_I, v6, s7, f5, f6);
    }
    assert(read_entries(s7, 4, f6) == read_entries(s8, 3, f7)) by {
        msgpack::law_int_round_trip(a.l, s8);
        lemma_entry_round_trip(KEY_L, v7, s8, f6, f7);
    }
    assert(read_entries(s8, 3, f7) == read_entries(s9, 2, f8)) by {
        msgpack::law_int_or_nil_round_trip(a.q, s9);
        lemma_entry_round_trip(KEY_Q, v8, s9, f7, f8);
    }
    assert(read_entries(s9, 2, f8) == read_entries(s10, 1, f9)) by {
        msgpack::law_uint_round_trip(a.flags, s10);
        lemma_entry_round_trip(KEY_F, v9, s10, f8, f9);
    }
    assert(read_entries(s10, 1, f9) == read_entries(e, 0, f10)) by {
        msgpack::law_bin_round_trip(a.hashmap, e);
        lemma_entry_round_trip(KEY_M, v10, e, f9, f10);
    }
    assert(f10 =~= a.fields());
    assert(msgpack::read_map_header(w) == Some((11nat, s0)));
    assert(of_fields(a.fields()) =~= a);
}

} // verus!
