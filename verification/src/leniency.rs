//! What parsing an advertisement accepts and what it refuses: keys may come in any order and
//! unknown ones are passed over, but no required key may be missing and nothing may be cut off.

use crate::advertisement;
use crate::advertisement::{
    AdvertisementModel, Fields, KEY_D, KEY_F, KEY_H, KEY_I, KEY_L, KEY_M, KEY_N, KEY_O, KEY_Q,
    KEY_R, KEY_T,
};
use crate::bytes;
use crate::msgpack;
use vstd::prelude::*;

verus! {

/// More bytes behind what is read are left behind what is left.
proof fn lemma_bytes_extend(s: Seq<u8>, n: nat, t: Seq<u8>)
    ensures
        msgpack::read_bytes(s, n) matches Some((b, rest)) ==> msgpack::read_bytes(s + t, n)
            == Some((b, rest + t)),
{
    if s.len() >= n {
        assert((s + t).take(n as int) =~= s.take(n as int));
        assert((s + t).skip(n as int) =~= s.skip(n as int) + t);
    }
}

proof fn lemma_number_extends(s: Seq<u8>, n: nat, t: Seq<u8>)
    ensures
        msgpack::read_number(s, n) matches Some((v, rest)) ==> msgpack::read_number(s + t, n)
            == Some((v, rest + t)),
{
    lemma_bytes_extend(s, n, t);
}

proof fn lemma_sized_extends(s: Seq<u8>, width: nat, t: Seq<u8>)
    ensures
        msgpack::read_sized(s, width) matches Some((b, rest)) ==> msgpack::read_sized(s + t, width)
            == Some((b, rest + t)),
{
    lemma_number_extends(s, width, t);
    if let Some((n, rest)) = msgpack::read_number(s, width) {
        lemma_bytes_extend(rest, n, t);
    }
}

/// The rest after the first byte, with more behind it.
proof fn lemma_tail_extends(s: Seq<u8>, t: Seq<u8>)
    requires
        s.len() > 0,
    ensures
        (s + t).skip(1) == s.skip(1) + t,
        (s + t)[0] == s[0],
{
    assert((s + t).skip(1) =~= s.skip(1) + t);
}

proof fn lemma_header_extends(s: Seq<u8>, t: Seq<u8>)
    ensures
        msgpack::read_map_header(s) matches Some((n, rest)) ==> msgpack::read_map_header(s + t)
            == Some((n, rest + t)),
{
    if s.len() > 0 {
        lemma_tail_extends(s, t);
        lemma_number_extends(s.skip(1), 2, t);
    }
}

proof fn lemma_key_extends(s: Seq<u8>, t: Seq<u8>)
    ensures
        msgpack::read_key(s) matches Some((k, rest)) ==> msgpack::read_key(s + t) == Some(
            (k, rest + t),
        ),
{
    if s.len() > 0 && 0xa1 <= s[0] <= 0xbf {
        lemma_tail_extends(s, t);
        lemma_bytes_extend(s.skip(1), (s[0] - 0xa0) as nat, t);
    }
}

proof fn lemma_numbers_extend(s: Seq<u8>, t: Seq<u8>)
    ensures
        msgpack::read_uint(s) matches Some((v, rest)) ==> msgpack::read_uint(s + t) == Some(
            (v, rest + t),
        ),
        msgpack::read_int(s) matches Some((v, rest)) ==> msgpack::read_int(s + t) == Some(
            (v, rest + t),
        ),
        msgpack::read_int_or_nil(s) matches Some((v, rest)) ==> msgpack::read_int_or_nil(s + t)
            == Some((v, rest + t)),
{
    if s.len() > 0 {
        lemma_tail_extends(s, t);
        lemma_number_extends(s.skip(1), 1, t);
        lemma_number_extends(s.skip(1), 2, t);
        lemma_number_extends(s.skip(1), 4, t);
        lemma_number_extends(s.skip(1), 8, t);
    }
}

proof fn lemma_bin_extends(s: Seq<u8>, t: Seq<u8>)
    ensures
        msgpack::read_bin(s) matches Some((b, rest)) ==> msgpack::read_bin(s + t) == Some(
            (b, rest + t),
        ),
{
    if s.len() > 0 {
        lemma_tail_extends(s, t);
        lemma_sized_extends(s.skip(1), 1, t);
        lemma_sized_extends(s.skip(1), 2, t);
        lemma_sized_extends(s.skip(1), 4, t);
    }
}

proof fn lemma_skip_extends(s: Seq<u8>, t: Seq<u8>)
    ensures
        msgpack::skip_one(s) matches Some(rest) ==> msgpack::skip_one(s + t) == Some(rest + t),
{
    if s.len() > 0 {
        let rest = s.skip(1);
        lemma_tail_extends(s, t);
        lemma_sized_extends(rest, 1, t);
        lemma_bytes_extend(rest, 1, t);
        lemma_bytes_extend(rest, 2, t);
        lemma_bytes_extend(rest, 4, t);
        lemma_bytes_extend(rest, 8, t);
    }
}

proof fn lemma_field_extends(key: u8, s: Seq<u8>, f: Fields, t: Seq<u8>)
    ensures
        advertisement::read_field(key, s, f) matches Some((g, rest)) ==> advertisement::read_field(
            key,
            s + t,
            f,
        ) == Some((g, rest + t)),
{
    lemma_numbers_extend(s, t);
    lemma_bin_extends(s, t);
    lemma_skip_extends(s, t);
}

proof fn lemma_entries_extend(s: Seq<u8>, n: nat, f: Fields, t: Seq<u8>)
    ensures
        advertisement::read_entries(s, n, f) matches Some((g, rest))
            ==> advertisement::read_entries(s + t, n, f) == Some((g, rest + t)),
    decreases n,
{
    if n > 0 {
        lemma_key_extends(s, t);
        if let Some((key, after)) = msgpack::read_key(s) {
            lemma_field_extends(key, after, f, t);
            if let Some((g, rest)) = advertisement::read_field(key, after, f) {
                lemma_entries_extend(rest, (n - 1) as nat, g, t);
            }
        }
    }
}

/// What follows an advertisement does not matter: a well-formed one parses to the same with any
/// bytes behind it.
pub proof fn law_trailing_bytes_do_not_matter(wire: Seq<u8>, more: Seq<u8>)
    ensures
        advertisement::read_advertisement(wire) matches Some((f, rest))
            ==> advertisement::read_advertisement(wire + more) == Some((f, rest + more)),
        advertisement::read_advertisement(wire) is Some ==> advertisement::parsed(wire + more)
            == advertisement::parsed(wire),
{
    lemma_header_extends(wire, more);
    if let Some((n, rest)) = msgpack::read_map_header(wire) {
        lemma_entries_extend(rest, n, advertisement::no_fields(), more);
    }
}

/// A map that ends where its bytes end is no map without the last of them.
proof fn lemma_nothing_to_spare(w: Seq<u8>, f: Fields, k: int)
    requires
        advertisement::read_advertisement(w) == Some((f, Seq::<u8>::empty())),
        0 <= k < w.len(),
    ensures
        advertisement::read_advertisement(w.take(k)) is None,
{
    let head = w.take(k);
    let tail = w.skip(k);
    law_trailing_bytes_do_not_matter(head, tail);
    assert(head + tail =~= w);
    if let Some((g, rest)) = advertisement::read_advertisement(head) {
        assert((rest + tail).len() > 0);
    }
}

/// An advertisement that is cut off is refused, wherever it is cut.
pub proof fn law_truncated_advertisements_are_refused(a: AdvertisementModel, k: int)
    requires
        a.resource_hash.len() <= 0xffff_ffff,
        a.original_hash.len() <= 0xffff_ffff,
        a.random_hash.len() <= 0xffff_ffff,
        a.hashmap.len() <= 0xffff_ffff,
        0 <= k < a.wire().len(),
    ensures
        advertisement::parsed(a.wire().take(k)) is None,
{
    advertisement::law_advertisement_round_trip(a);
    lemma_nothing_to_spare(a.wire(), a.fields(), k);
}

/// The keys that must be there: all but `q`.
pub open spec fn required(key: u8) -> bool {
    ||| key == KEY_T
    ||| key == KEY_D
    ||| key == KEY_N
    ||| key == KEY_H
    ||| key == KEY_O
    ||| key == KEY_R
    ||| key == KEY_F
    ||| key == KEY_M
    ||| key == KEY_I
    ||| key == KEY_L
}

/// Whether the field of a required key has been seen.
pub open spec fn has_field(f: Fields, key: u8) -> bool {
    if key == KEY_T {
        f.t is Some
    } else if key == KEY_D {
        f.d is Some
    } else if key == KEY_N {
        f.n is Some
    } else if key == KEY_H {
        f.h is Some
    } else if key == KEY_O {
        f.o is Some
    } else if key == KEY_R {
        f.r is Some
    } else if key == KEY_F {
        f.f is Some
    } else if key == KEY_M {
        f.m is Some
    } else if key == KEY_I {
        f.i is Some
    } else {
        f.l is Some
    }
}

/// The keys of the next `n` entries, in the order they come.
pub open spec fn keys_of(s: Seq<u8>, n: nat) -> Seq<u8>
    decreases n,
{
    if n == 0 {
        Seq::empty()
    } else {
        match msgpack::read_key(s) {
            Some((key, after)) => match advertisement::read_field(
                key,
                after,
                advertisement::no_fields(),
            ) {
                Some((_, rest)) => seq![key] + keys_of(rest, (n - 1) as nat),
                None => Seq::empty(),
            },
            None => Seq::empty(),
        }
    }
}

/// The keys of a map, in the order they come.
pub open spec fn map_keys(wire: Seq<u8>) -> Seq<u8> {
    match msgpack::read_map_header(wire) {
        Some((n, rest)) => keys_of(rest, n),
        None => Seq::empty(),
    }
}

/// A required field has been seen exactly if it had been before or its key is among those read.
proof fn lemma_fields_of_keys(s: Seq<u8>, n: nat, f: Fields, key: u8)
    requires
        required(key),
    ensures
        advertisement::read_entries(s, n, f) matches Some((g, _)) ==> has_field(g, key) == (
        has_field(f, key) || keys_of(s, n).contains(key)),
    decreases n,
{
    if n > 0 {
        if let Some((k, after)) = msgpack::read_key(s) {
            if let Some((g, rest)) = advertisement::read_field(k, after, f) {
                lemma_fields_of_keys(rest, (n - 1) as nat, g, key);
                let later = keys_of(rest, (n - 1) as nat);
                let all = keys_of(s, n);
                assert(all == seq![k] + later);
                if k == key {
                    assert(all[0] == key);
                }
                if later.contains(key) {
                    let i = choose|i: int| 0 <= i < later.len() && later[i] == key;
                    assert(all[i + 1] == key);
                }
                if all.contains(key) && k != key {
                    let i = choose|i: int| 0 <= i < all.len() && all[i] == key;
                    assert(later[i - 1] == key);
                }
            }
        }
    }
}

/// An advertisement parses exactly if it is a well-formed map and each of the ten required keys is
/// in it; a missing one is refused.
pub proof fn law_every_required_key_must_be_there(wire: Seq<u8>)
    ensures
        advertisement::parsed(wire) is Some <==> advertisement::read_advertisement(wire) is Some
            && forall|key: u8| #[trigger] required(key) ==> map_keys(wire).contains(key),
        forall|key: u8| #[trigger]
            required(key) && !map_keys(wire).contains(key) ==> advertisement::parsed(wire) is None,
{
    if let Some((n, rest)) = msgpack::read_map_header(wire) {
        let nothing = advertisement::no_fields();
        assert forall|key: u8| #[trigger] required(key) implies (
        advertisement::read_advertisement(wire) matches Some((f, _)) ==> has_field(f, key)
            == map_keys(wire).contains(key)) by {
            lemma_fields_of_keys(rest, n, nothing, key);
            assert(!has_field(nothing, key));
        }
        assert(required(KEY_T) && required(KEY_D) && required(KEY_N) && required(KEY_H));
        assert(required(KEY_O) && required(KEY_R) && required(KEY_F) && required(KEY_M));
        assert(required(KEY_I) && required(KEY_L));
    }
}

/// The keys that have a meaning.
pub open spec fn known(key: u8) -> bool {
    required(key) || key == KEY_Q
}

/// The value of a known key, on the wire.
pub open spec fn value_wire(a: AdvertisementModel, key: u8) -> Seq<u8> {
    if key == KEY_T {
        msgpack::uint_wire(a.transfer_size)
    } else if key == KEY_D {
        msgpack::uint_wire(a.data_size)
    } else if key == KEY_N {
        msgpack::uint_wire(a.parts)
    } else if key == KEY_H {
        msgpack::bin_wire(a.resource_hash)
    } else if key == KEY_O {
        msgpack::bin_wire(a.original_hash)
    } else if key == KEY_R {
        msgpack::bin_wire(a.random_hash)
    } else if key == KEY_F {
        msgpack::uint_wire(a.flags)
    } else if key == KEY_M {
        msgpack::bin_wire(a.hashmap)
    } else if key == KEY_I {
        msgpack::int_wire(a.i)
    } else if key == KEY_L {
        msgpack::int_wire(a.l)
    } else {
        msgpack::int_or_nil_wire(a.q)
    }
}

/// The value of an unknown key, in a shape that can be passed over.
pub enum Other {
    Uint(u64),
    Nil,
    Bin(Seq<u8>),
}

impl Other {
    pub open spec fn wire(self) -> Seq<u8> {
        match self {
            Other::Uint(v) => msgpack::uint_wire(v),
            Other::Nil => seq![0xc0_u8],
            Other::Bin(b) => msgpack::bin_wire(b),
        }
    }

    /// A byte string has a length of one byte.
    pub open spec fn fits(self) -> bool {
        self matches Other::Bin(b) ==> b.len() <= 0xff
    }
}

/// One entry of a map: a known key with the value that an advertisement gives it, or an unknown
/// key with some value.
pub enum Entry {
    Known(u8),
    Unknown(u8, Other),
}

impl Entry {
    pub open spec fn key(self) -> u8 {
        match self {
            Entry::Known(key) => key,
            Entry::Unknown(key, _) => key,
        }
    }

    /// The entry is what it says it is.
    pub open spec fn proper(self) -> bool {
        match self {
            Entry::Known(key) => known(key),
            Entry::Unknown(key, value) => !known(key) && value.fits(),
        }
    }

    pub open spec fn value(self, a: AdvertisementModel) -> Seq<u8> {
        match self {
            Entry::Known(key) => value_wire(a, key),
            Entry::Unknown(_, value) => value.wire(),
        }
    }
}

/// The entries on the wire, one after another.
pub open spec fn entries_wire(entries: Seq<Entry>, a: AdvertisementModel) -> Seq<u8>
    decreases entries.len(),
{
    if entries.len() == 0 {
        Seq::empty()
    } else {
        msgpack::key_wire(entries[0].key()) + (entries[0].value(a) + entries_wire(
            entries.skip(1),
            a,
        ))
    }
}

/// A map header for `n` entries.
pub open spec fn header_wire(n: nat) -> Seq<u8> {
    if n < 16 {
        seq![(0x80 + n) as u8]
    } else {
        seq![0xde_u8] + bytes::be_bytes(n, 2)
    }
}

/// A value in a passable shape is passed over.
proof fn lemma_other_is_skipped(value: Other, rest: Seq<u8>)
    requires
        value.fits(),
    ensures
        msgpack::skip_one(value.wire() + rest) == Some(rest),
{
    let s = value.wire() + rest;
    match value {
        Other::Uint(v) => {
            if v < 0x80 {
                assert(s.skip(1) =~= rest);
            } else if v <= 0xff {
                assert(s.skip(1).skip(1) =~= rest);
            } else {
                let n: nat = if v <= 0xffff {
                    2
                } else if v <= 0xffff_ffff {
                    4
                } else {
                    8
                };
                let b = bytes::be_bytes(v as nat, n);
                bytes::lemma_be_bytes_len(v as nat, n);
                assert(s.skip(1) =~= b + rest);
                assert((b + rest).skip(n as int) =~= rest);
            }
        },
        Other::Nil => {
            assert(s.skip(1) =~= rest);
        },
        Other::Bin(b) => {
            msgpack::law_bin_round_trip(b, rest);
        },
    }
}

/// Whether the fields seen are none but those of `a`.
spec fn within(f: Fields, a: AdvertisementModel) -> bool {
    let all = a.fields();
    &&& f.t is None || f.t == all.t
    &&& f.d is None || f.d == all.d
    &&& f.n is None || f.n == all.n
    &&& f.h is None || f.h == all.h
    &&& f.o is None || f.o == all.o
    &&& f.r is None || f.r == all.r
    &&& f.f is None || f.f == all.f
    &&& f.m is None || f.m == all.m
    &&& f.i is None || f.i == all.i
    &&& f.l is None || f.l == all.l
    &&& f.q is None || f.q == all.q
}

/// Whether a known field has been seen, or is absent anyway.
spec fn settled(f: Fields, a: AdvertisementModel, key: u8) -> bool {
    if key == KEY_Q {
        f.q == a.fields().q
    } else {
        has_field(f, key)
    }
}

/// The byte strings of an advertisement have lengths that fit the format.
pub open spec fn fits(a: AdvertisementModel) -> bool {
    &&& a.resource_hash.len() <= 0xffff_ffff
    &&& a.original_hash.len() <= 0xffff_ffff
    &&& a.random_hash.len() <= 0xffff_ffff
    &&& a.hashmap.len() <= 0xffff_ffff
}

/// Reading one entry adds its field and nothing else.
proof fn lemma_one_entry(e: Entry, a: AdvertisementModel, f: Fields, rest: Seq<u8>) -> (g: Fields)
    requires
        fits(a),
        e.proper(),
        within(f, a),
    ensures
        advertisement::read_entry(msgpack::key_wire(e.key()) + (e.value(a) + rest), f) == Some(
            (g, rest),
        ),
        within(g, a),
        forall|key: u8|
            known(key) && (settled(f, a, key) || e == Entry::Known(key)) ==> #[trigger] settled(
                g,
                a,
                key,
            ),
{
    let s = e.value(a) + rest;
    msgpack::law_key_round_trip(e.key(), s);
    match e {
        Entry::Known(key) => {
            msgpack::law_uint_round_trip(a.transfer_size, rest);
            msgpack::law_uint_round_trip(a.data_size, rest);
            msgpack::law_uint_round_trip(a.parts, rest);
            msgpack::law_uint_round_trip(a.flags, rest);
            msgpack::law_bin_round_trip(a.resource_hash, rest);
            msgpack::law_bin_round_trip(a.original_hash, rest);
            msgpack::law_bin_round_trip(a.random_hash, rest);
            msgpack::law_bin_round_trip(a.hashmap, rest);
            msgpack::law_int_round_trip(a.i, rest);
            msgpack::law_int_round_trip(a.l, rest);
            msgpack::law_int_or_nil_round_trip(a.q, rest);
        },
        Entry::Unknown(_, value) => {
            lemma_other_is_skipped(value, rest);
        },
    }
    let found = advertisement::read_field(e.key(), s, f)->0;
    found.0
}

/// Reading entries adds their fields.
proof fn lemma_all_entries(entries: Seq<Entry>, a: AdvertisementModel, f: Fields) -> (g: Fields)
    requires
        fits(a),
        forall|i: int| 0 <= i < entries.len() ==> (#[trigger] entries[i]).proper(),
        within(f, a),
    ensures
        advertisement::read_entries(entries_wire(entries, a), entries.len(), f) == Some(
            (g, Seq::<u8>::empty()),
        ),
        within(g, a),
        forall|key: u8|
            known(key) && (settled(f, a, key) || entries.contains(Entry::Known(key)))
                ==> #[trigger] settled(g, a, key),
    decreases entries.len(),
{
    if entries.len() == 0 {
        f
    } else {
        let later = entries.skip(1);
        let rest = entries_wire(later, a);
        let h = lemma_one_entry(entries[0], a, f, rest);
        assert forall|i: int| 0 <= i < later.len() implies (#[trigger] later[i]).proper() by {
            assert(later[i] == entries[i + 1]);
        }
        let g = lemma_all_entries(later, a, h);
        assert forall|key: u8|
            known(key) && (settled(f, a, key) || entries.contains(Entry::Known(key))) implies
            #[trigger] settled(g, a, key) by {
            if !settled(h, a, key) {
                let i = choose|i: int|
                    0 <= i < entries.len() && entries[i] == Entry::Known(key);
                assert(i > 0);
                assert(later[i - 1] == Entry::Known(key));
                assert(later.contains(Entry::Known(key)));
            }
        }
        g
    }
}

/// Keys may come in any order, and unknown ones are passed over: any list of entries in which each
/// required key occurs, `q` too unless it is absent, each with its value, and any number of
/// unknown keys with values of a passable shape in between, parses to the advertisement.
pub proof fn law_key_order_is_free(entries: Seq<Entry>, a: AdvertisementModel)
    requires
        fits(a),
        entries.len() <= 0xffff,
        forall|i: int| 0 <= i < entries.len() ==> (#[trigger] entries[i]).proper(),
        forall|key: u8| #[trigger] required(key) ==> entries.contains(Entry::Known(key)),
        a.q is Some ==> entries.contains(Entry::Known(KEY_Q)),
    ensures
        advertisement::parsed(header_wire(entries.len()) + entries_wire(entries, a)) == Some(a),
{
    let body = entries_wire(entries, a);
    let w = header_wire(entries.len()) + body;
    let n = entries.len();
    bytes::lemma_byte_spans();
    if n < 16 {
        assert(w.skip(1) =~= body);
    } else {
        assert(w.skip(1) =~= bytes::be_bytes(n, 2) + body);
        msgpack::lemma_read_number(n, 2, body);
    }
    assert(msgpack::read_map_header(w) == Some((n, body)));
    let nothing = advertisement::no_fields();
    let g = lemma_all_entries(entries, a, nothing);
    assert(required(KEY_T) && required(KEY_D) && required(KEY_N) && required(KEY_H));
    assert(required(KEY_O) && required(KEY_R) && required(KEY_F) && required(KEY_M));
    assert(required(KEY_I) && required(KEY_L));
    assert(settled(g, a, KEY_T) && settled(g, a, KEY_D) && settled(g, a, KEY_N));
    assert(settled(g, a, KEY_H) && settled(g, a, KEY_O) && settled(g, a, KEY_R));
    assert(settled(g, a, KEY_F) && settled(g, a, KEY_M) && settled(g, a, KEY_I));
    assert(settled(g, a, KEY_L));
    assert(settled(nothing, a, KEY_Q) || a.q is Some);
    assert(settled(g, a, KEY_Q));
    assert(g =~= a.fields());
    assert(advertisement::of_fields(a.fields()) =~= a);
}

} // verus!
