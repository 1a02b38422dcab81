//! Resources: segmented transfer of large payloads over a link.
//!
//! The payload, behind a random prefix, is sealed into one token, which is split into parts.
//! The sender advertises the parts by their map hashes; the receiver asks for the parts it
//! lacks, puts the token together again, opens it, checks it against the resource hash, and
//! proves receipt. An advertisement carries only the front of a long hashmap; the receiver
//! solicits the rest in hashmap updates.

use crate::advertisement::{Advertisement, AdvertisementModel, MAPHASH_LEN};
use crate::bytes;
use crate::crypto;
use crate::error::Error;
use crate::hash;
use crate::msgpack;
use crate::msgpack::{MapReader, MapWriter};
use crate::table::Table;
use std::io::{Read, Write};
use vstd::prelude::*;

verus! {

/// Length of a random hash.
pub const RANDOM_HASH_LEN: usize = 4;

/// Segment data unit: the maximum size of one part's payload.
pub const SDU: usize = 464;

/// How many map hashes one advertisement or one hashmap update carries at most.
pub const HASHMAP_SLICE: usize = 74;

/// Advertisement flag bit: the payload is encrypted (always set, over a link).
pub const FLAG_ENCRYPTED: u64 = 0x01;

/// Advertisement flag bit: the payload is bz2-compressed.
pub const FLAG_COMPRESSED: u64 = 0x02;

/// `data` as one bzip2 stream, at the best compression level.
pub uninterp spec fn bzip2_compressed(data: Seq<u8>) -> Seq<u8>;

/// What a bzip2 stream holds, if it is well formed.
pub uninterp spec fn bzip2_decompressed(stream: Seq<u8>) -> Option<Seq<u8>>;

/// The map hash of a part.
pub open spec fn map_hash_of(part: Seq<u8>, random_hash: Seq<u8>) -> Seq<u8> {
    crypto::sha256(part + random_hash).take(4)
}

/// The map hashes of a list of parts.
pub open spec fn map_hashes_of(parts: Seq<Seq<u8>>, random_hash: Seq<u8>) -> Seq<Seq<u8>> {
    parts.map_values(|p: Seq<u8>| map_hash_of(p, random_hash))
}

/// A hashmap, cut into map hashes.
pub open spec fn hashes_in(hashmap: Seq<u8>) -> Seq<Seq<u8>> {
    Seq::new(hashmap.len() / 4, |i: int| hashmap.subrange(4 * i, 4 * i + 4))
}

/// The hashes of a list, as sequences.
pub open spec fn hash_views(list: Seq<[u8; 4]>) -> Seq<Seq<u8>> {
    list.map_values(|m: [u8; 4]| m@)
}

fn concat(a: &[u8], b: &[u8]) -> (out: Vec<u8>)
    ensures
        out@ == a@ + b@,
{
    let mut out: Vec<u8> = bytes::copy_all(a);
    out.extend_from_slice(b);
    assert(out@ =~= a@ + b@);
    out
}

/// The resource hash: `SHA256(uncompressed_data || random_hash)`. It binds the resource to
/// its content and this transfer's random hash.
pub fn resource_hash(data: &[u8], random_hash: &[u8]) -> (digest: [u8; 32])
    ensures
        digest@ == crypto::sha256(data@ + random_hash@),
{
    hash::full_hash(&concat(data, random_hash))
}

/// A part's 4-byte map hash: `SHA256(part || random_hash)[..4]`.
pub fn map_hash(part: &[u8], random_hash: &[u8]) -> (digest: [u8; MAPHASH_LEN])
    ensures
        digest@ == map_hash_of(part@, random_hash@),
{
    let full: [u8; 32] = hash::full_hash(&concat(part, random_hash));
    let digest: [u8; MAPHASH_LEN] = bytes::array_at::<MAPHASH_LEN>(&full, 0);
    assert(digest@ =~= full@.take(4));
    digest
}

/// Compress content with bz2. Returns the bz2 bytes; the caller decides whether to use them
/// (and sets [`FLAG_COMPRESSED`] accordingly) by comparing lengths.
///
/// `bzip2::write::BzEncoder` at `Compression::best()`: the result is the stream, and it
/// decompresses to the argument.
#[verifier::external_body]
pub fn compress(content: &[u8]) -> (stream: Vec<u8>)
    ensures
        stream@ == bzip2_compressed(content@),
        bzip2_decompressed(stream@) == Some(content@),
{
    let mut encoder = bzip2::write::BzEncoder::new(Vec::new(), bzip2::Compression::best());
    encoder.write_all(content).expect("writing to a Vec cannot fail");
    encoder.finish().expect("finishing a Vec encoder cannot fail")
}

/// `bzip2::read::BzDecoder::read_to_end`: what the stream holds, or `None` where the outside
/// function reports an error.
#[verifier::external_body]
fn bunzip(stream: &[u8]) -> (content: Option<Vec<u8>>)
    ensures
        match content {
            Some(c) => bzip2_decompressed(stream@) == Some(c@),
            None => bzip2_decompressed(stream@) is None,
        },
{
    let mut out = Vec::new();
    bzip2::read::BzDecoder::new(stream).read_to_end(&mut out).ok()?;
    Some(out)
}

/// Decompress bz2 content. The inverse of [`compress`]; used on a received resource whose
/// advertisement set [`FLAG_COMPRESSED`]. [`Error::BadPadding`] on malformed input.
pub fn decompress(compressed: &[u8]) -> (content: Result<Vec<u8>, Error>)
    ensures
        match content {
            Ok(c) => bzip2_decompressed(compressed@) == Some(c@),
            Err(e) => bzip2_decompressed(compressed@) is None && e == Error::BadPadding,
        },
{
    match bunzip(compressed) {
        Some(c) => Ok(c),
        None => Err(Error::BadPadding),
    }
}

/// The content that is sealed and split for transfer: `random_hash || data`.
///
/// The random hash goes in front of the payload before encryption, so the transferred blob
/// decrypts to this, not to the bare payload. The resource hash is still computed over `data
/// || random_hash` (a different order).
pub fn content(data: &[u8], random_hash: &[u8]) -> (out: Vec<u8>)
    ensures
        out@ == random_hash@ + data@,
{
    concat(random_hash, data)
}

/// Recover the payload from transferred content by stripping the random-hash prefix.
pub fn data_from_content(content: &[u8]) -> (data: Result<&[u8], Error>)
    ensures
        match data {
            Ok(d) => content@.len() >= RANDOM_HASH_LEN && d@ == content@.skip(4),
            Err(e) => content@.len() < RANDOM_HASH_LEN && e == Error::Truncated,
        },
{
    if content.len() < RANDOM_HASH_LEN {
        return Err(Error::Truncated);
    }
    let data: &[u8] = vstd::slice::slice_subrange(content, RANDOM_HASH_LEN, content.len());
    assert(data@ =~= content@.skip(4));
    Ok(data)
}

/// Stripping the prefix gives back the data that content was made of.
pub proof fn law_content_round_trip(data: Seq<u8>, random_hash: Seq<u8>)
    requires
        random_hash.len() == RANDOM_HASH_LEN,
    ensures
        (random_hash + data).skip(4) == data,
{
    assert((random_hash + data).skip(4) =~= data);
}

/// Parse a resource proof packet payload: `resource_hash(32) || proof(32)`, sent unencrypted.
/// Returns `(resource_hash, proof)`, or `None` if it is not 64 bytes.
///
/// A sender compares the returned proof against the value it precomputed with [`proof_of`]; a
/// match means the receiver reassembled the resource intact.
pub fn parse_proof(payload: &[u8]) -> (parsed: Option<([u8; 32], [u8; 32])>)
    ensures
        match parsed {
            Some((h, p)) => payload@ == h@ + p@,
            None => payload@.len() != 64,
        },
{
    if payload.len() != 64 {
        return None;
    }
    let h: [u8; 32] = bytes::array_at::<32>(payload, 0);
    let p: [u8; 32] = bytes::array_at::<32>(payload, 32);
    assert(payload@ =~= h@ + p@);
    Some((h, p))
}

/// The proof of receipt of `data` with resource hash `hash`.
pub open spec fn receipt(data: Seq<u8>, hash: Seq<u8>) -> Seq<u8> {
    crypto::sha256(data + hash)
}

/// The proof a receiver returns: `SHA256(uncompressed_data || resource_hash)`. The sender
/// checks it against the value it precomputed.
pub fn proof_of(data: &[u8], resource_hash: &[u8; 32]) -> (digest: [u8; 32])
    ensures
        digest@ == receipt(data@, resource_hash@),
{
    hash::full_hash(&concat(data, resource_hash))
}

/// Split a sealed transfer token into parts of at most [`SDU`] bytes, and compute the hashmap
/// over them.
pub fn split_parts(token: &[u8], random_hash: &[u8]) -> (split: (Vec<Vec<u8>>, Vec<u8>))
    ensures
        bytes::views(split.0@) == bytes::chunks(token@, SDU as nat),
        split.1@.len() == 4 * split.0@.len(),
        hashes_in(split.1@) == map_hashes_of(bytes::chunks(token@, SDU as nat), random_hash@),
{
    let parts: Vec<Vec<u8>> = bytes::split_chunks(token, SDU);
    let ghost pieces = bytes::views(parts@);
    let mut hashmap: Vec<u8> = Vec::new();
    let mut i: usize = 0;
    while i < parts.len()
        invariant
            i <= parts@.len(),
            pieces == bytes::views(parts@),
            hashmap@.len() == 4 * i,
            forall|j: int|
                0 <= j < i ==> #[trigger] hashmap@.subrange(4 * j, 4 * j + 4) == map_hash_of(
                    pieces[j],
                    random_hash@,
                ),
        decreases parts@.len() - i,
    {
        let ghost before = hashmap@;
        let digest: [u8; MAPHASH_LEN] = map_hash(&parts[i], random_hash);
        hashmap.extend_from_slice(&digest);
        proof {
            assert(hashmap@ =~= before + digest@);
            assert forall|j: int| 0 <= j < i + 1 implies #[trigger] hashmap@.subrange(
                4 * j,
                4 * j + 4,
            ) == map_hash_of(pieces[j], random_hash@) by {
                if j < i {
                    assert(hashmap@.subrange(4 * j, 4 * j + 4) =~= before.subrange(
                        4 * j,
                        4 * j + 4,
                    ));
                } else {
                    assert(hashmap@.subrange(4 * j, 4 * j + 4) =~= digest@);
                }
            }
        }
        i += 1;
    }
    assert(hashes_in(hashmap@) =~= map_hashes_of(pieces, random_hash@));
    (parts, hashmap)
}

/// The flags of an advertisement.
pub open spec fn flags_of(compressed: bool) -> u64 {
    if compressed {
        3
    } else {
        1
    }
}

/// Build an advertisement for a transfer.
///
/// `token` is the sealed (and possibly compressed) transfer blob; `data` is the original
/// uncompressed payload. `compressed` sets the compression flag. This computes the hashes,
/// splits the token into parts, and returns the advertisement plus the parts to send.
pub fn advertise(
    data: &[u8],
    token: &[u8],
    random_hash: [u8; RANDOM_HASH_LEN],
    compressed: bool,
) -> (advertised: (Advertisement, Vec<Vec<u8>>))
    ensures
        ({
            let a = advertised.0@;
            let pieces = bytes::chunks(token@, SDU as nat);
            let hash = crypto::sha256(data@ + random_hash@);
            &&& bytes::views(advertised.1@) == pieces
            &&& a.transfer_size == token@.len()
            &&& a.data_size == data@.len()
            &&& a.parts == pieces.len()
            &&& a.resource_hash == hash
            &&& a.original_hash == hash
            &&& a.random_hash == random_hash@
            &&& a.flags == flags_of(compressed)
            &&& a.hashmap.len() == 4 * pieces.len()
            &&& hashes_in(a.hashmap) == map_hashes_of(pieces, random_hash@)
            &&& a.i == 1
            &&& a.l == 1
            &&& a.q is None
            &&& a.resource_hash.len() == 32
        }),
{
    let digest: [u8; 32] = resource_hash(data, &random_hash);
    let (parts, hashmap) = split_parts(token, &random_hash);
    let flags: u64 = if compressed {
        FLAG_ENCRYPTED + FLAG_COMPRESSED
    } else {
        FLAG_ENCRYPTED
    };
    assert(bytes::views(parts@).len() == parts@.len());
    let advertisement = Advertisement {
        transfer_size: token.len() as u64,
        data_size: data.len() as u64,
        parts: parts.len() as u64,
        resource_hash: bytes::copy_all(&digest),
        original_hash: bytes::copy_all(&digest),
        random_hash: bytes::copy_all(&random_hash),
        flags,
        hashmap,
        i: 1,
        l: 1,
        q: None,
    };
    (advertisement, parts)
}

/// What an [`Incoming`] has learned.
#[verifier::ext_equal]
pub struct IncomingModel {
    pub hash: Seq<u8>,
    pub random_hash: Seq<u8>,
    pub compressed: bool,
    /// How many parts there are.
    pub total: nat,
    /// The map hashes known so far, in transfer order.
    pub order: Seq<Seq<u8>>,
    /// The parts held, by map hash.
    pub parts: Map<Seq<u8>, Seq<u8>>,
}

/// Those of `order` that `parts` does not hold, in order.
pub open spec fn missing_of(order: Seq<Seq<u8>>, parts: Map<Seq<u8>, Seq<u8>>) -> Seq<Seq<u8>>
    decreases order.len(),
{
    if order.len() == 0 {
        Seq::empty()
    } else {
        let front = missing_of(order.drop_last(), parts);
        if parts.contains_key(order.last()) {
            front
        } else {
            front.push(order.last())
        }
    }
}

/// The parts of `order`, one after another.
pub open spec fn token_of(order: Seq<Seq<u8>>, parts: Map<Seq<u8>, Seq<u8>>) -> Seq<u8>
    decreases order.len(),
{
    if order.len() == 0 {
        Seq::empty()
    } else {
        token_of(order.drop_last(), parts) + parts[order.last()]
    }
}

impl IncomingModel {
    /// Every part has arrived.
    pub open spec fn complete(self) -> bool {
        &&& self.order.len() == self.total
        &&& forall|i: int|
            0 <= i < self.order.len() ==> self.parts.contains_key(#[trigger] self.order[i])
    }

    /// The known map hashes whose parts have not arrived.
    pub open spec fn missing(self) -> Seq<Seq<u8>> {
        missing_of(self.order, self.parts)
    }

    /// Every part held is one that was advertised, under its own map hash.
    pub open spec fn genuine(self) -> bool {
        forall|m: Seq<u8>| #[trigger]
            self.parts.contains_key(m) ==> self.order.contains(m) && map_hash_of(
                self.parts[m],
                self.random_hash,
            ) == m
    }

    /// What is known after a part came in: an advertised one is kept under its map hash, and
    /// any other is ignored.
    pub open spec fn with_part(self, part: Seq<u8>) -> IncomingModel {
        let m = map_hash_of(part, self.random_hash);
        if self.order.contains(m) {
            IncomingModel { parts: self.parts.insert(m, part), ..self }
        } else {
            self
        }
    }

    /// What is known after a hashmap update: the hashes go behind those known, if the update
    /// is for this resource, starts where they end, and names no more parts than there are.
    pub open spec fn with_hmu(self, hmu: HmuModel) -> IncomingModel {
        if self.takes_hmu(hmu) {
            IncomingModel { order: self.order + hashes_in(hmu.hashmap), ..self }
        } else {
            self
        }
    }

    /// Whether a hashmap update carries on from what is known.
    pub open spec fn takes_hmu(self, hmu: HmuModel) -> bool {
        &&& hmu.resource_hash == self.hash
        &&& hmu.hashmap.len() % 4 == 0
        &&& hmu.segment * HASHMAP_SLICE == self.order.len()
        &&& self.order.len() + hmu.hashmap.len() / 4 <= self.total
    }

    /// What the decrypted blob holds: the payload, if it matches the resource hash.
    pub open spec fn recovered(self, decrypted: Seq<u8>) -> Result<Seq<u8>, Error> {
        let body = decrypted.skip(4);
        let data = if self.compressed {
            bzip2_decompressed(body)
        } else {
            Some(body)
        };
        if decrypted.len() < 4 {
            Err(Error::Truncated)
        } else {
            match data {
                None => Err(Error::BadPadding),
                Some(d) => if crypto::sha256(d + self.random_hash) == self.hash {
                    Ok(d)
                } else {
                    Err(Error::ResourceCorrupt)
                },
            }
        }
    }
}

/// Receiver state for one incoming resource: parse the advertisement, request the parts it
/// names, collect them by map hash, then reassemble, decrypt, verify, and prove.
pub struct Incoming {
    hash: [u8; 32],
    random_hash: Vec<u8>,
    compressed: bool,
    total: usize,
    /// Map hashes in transfer order.
    order: Vec<[u8; MAPHASH_LEN]>,
    /// Collected parts, keyed by map hash.
    parts: Table<MAPHASH_LEN, Vec<u8>>,
}

impl View for Incoming {
    type V = IncomingModel;

    closed spec fn view(&self) -> IncomingModel {
        IncomingModel {
            hash: self.hash@,
            random_hash: self.random_hash@,
            compressed: self.compressed,
            total: self.total as nat,
            order: hash_views(self.order@),
            parts: self.parts@.map_values(|p: Vec<u8>| p@),
        }
    }
}

fn read_hashes(hashmap: &[u8]) -> (list: Vec<[u8; MAPHASH_LEN]>)
    ensures
        hash_views(list@) == hashes_in(hashmap@),
{
    let len: usize = hashmap.len();
    let count: usize = len / MAPHASH_LEN;
    let mut list: Vec<[u8; MAPHASH_LEN]> = Vec::new();
    let mut i: usize = 0;
    while i < count
        invariant
            i <= count,
            count == len / 4,
            len == hashmap@.len(),
            list@.len() == i,
            forall|j: int|
                0 <= j < i ==> (#[trigger] list@[j])@ == hashmap@.subrange(4 * j, 4 * j + 4),
        decreases count - i,
    {
        list.push(bytes::array_at::<MAPHASH_LEN>(hashmap, MAPHASH_LEN * i));
        i += 1;
    }
    assert(hash_views(list@) =~= hashes_in(hashmap@));
    list
}

/// Whether an advertisement flags its payload as compressed.
fn flagged_compressed(flags: u64) -> (compressed: bool)
    ensures
        compressed == (flags as nat / 2 % 2 == 1),
{
    flags / 2 % 2 == 1
}

/// The state before any part has arrived.
pub open spec fn awaiting(a: AdvertisementModel) -> IncomingModel {
    IncomingModel {
        hash: a.resource_hash,
        random_hash: a.random_hash,
        compressed: a.flags as nat / 2 % 2 == 1,
        total: a.parts as nat,
        order: hashes_in(a.hashmap),
        parts: Map::empty(),
    }
}

impl Incoming {
    fn start(adv: &Advertisement) -> (incoming: Self)
        requires
            adv@.resource_hash.len() == 32,
            adv@.parts <= usize::MAX,
        ensures
            incoming@ == awaiting(adv@),
    {
        let hash: [u8; 32] = bytes::array_at::<32>(&adv.resource_hash, 0);
        assert(hash@ =~= adv@.resource_hash);
        let incoming = Incoming {
            hash,
            random_hash: bytes::copy_all(&adv.random_hash),
            compressed: flagged_compressed(adv.flags),
            total: adv.parts as usize,
            order: read_hashes(&adv.hashmap),
            parts: Table::new(),
        };
        assert(incoming@ =~= awaiting(adv@));
        incoming
    }

    /// Begin receiving from an advertisement that names every part. [`Error::BadRequest`] for
    /// a resource hash that is not 32 bytes long, for a hashmap with a broken hash at its end,
    /// and for a part count other than the one the hashmap carries.
    pub fn new(adv: &Advertisement) -> (incoming: Result<Self, Error>)
        ensures
            match incoming {
                Ok(i) => {
                    &&& adv@.resource_hash.len() == 32
                    &&& adv@.hashmap.len() == 4 * adv@.parts
                    &&& i@ == awaiting(adv@)
                },
                Err(e) => {
                    &&& e == Error::BadRequest
                    &&& adv@.resource_hash.len() != 32 || adv@.hashmap.len() != 4 * adv@.parts
                },
            },
    {
        if adv.resource_hash.len() != 32 || adv.hashmap.len() % MAPHASH_LEN != 0 {
            return Err(Error::BadRequest);
        }
        if adv.hashmap_parts() as u64 != adv.parts {
            return Err(Error::BadRequest);
        }
        Ok(Incoming::start(adv))
    }

    /// Begin receiving from an advertisement that may name only the front of the parts.
    /// [`Error::BadRequest`] for a resource hash that is not 32 bytes long, for a hashmap with
    /// a broken hash, for one that names more parts than there are, and for one that names
    /// none while there are some.
    pub fn begin(adv: &Advertisement) -> (incoming: Result<Self, Error>)
        ensures
            match incoming {
                Ok(i) => begins(adv@) && i@ == awaiting(adv@),
                Err(e) => !begins(adv@) && e == Error::BadRequest,
            },
    {
        if adv.resource_hash.len() != 32 || adv.hashmap.len() % MAPHASH_LEN != 0 {
            return Err(Error::BadRequest);
        }
        let named: u64 = adv.hashmap_parts() as u64;
        if named > adv.parts || (named == 0 && adv.parts > 0) {
            return Err(Error::BadRequest);
        }
        if adv.parts > usize::MAX as u64 {
            return Err(Error::BadRequest);
        }
        Ok(Incoming::start(adv))
    }

    /// Whether the advertisement said the payload is bz2-compressed.
    pub fn is_compressed(&self) -> (compressed: bool)
        ensures
            compressed == self@.compressed,
    {
        self.compressed
    }

    /// The known map hashes whose parts have not arrived, in transfer order.
    pub fn missing_known(&self) -> (missing: Vec<[u8; MAPHASH_LEN]>)
        ensures
            hash_views(missing@) == self@.missing(),
    {
        let mut missing: Vec<[u8; MAPHASH_LEN]> = Vec::new();
        let ghost order = self@.order;
        let ghost parts = self@.parts;
        let mut i: usize = 0;
        assert(order.take(0) =~= Seq::<Seq<u8>>::empty());
        assert(hash_views(missing@) =~= missing_of(order.take(0), parts));
        while i < self.order.len()
            invariant
                i <= self.order@.len(),
                order == hash_views(self.order@),
                order == self@.order,
                parts == self@.parts,
                hash_views(missing@) == missing_of(order.take(i as int), parts),
            decreases self.order@.len() - i,
        {
            let ghost before = hash_views(missing@);
            let m: [u8; MAPHASH_LEN] = self.order[i];
            assert(order.take(i + 1).drop_last() =~= order.take(i as int));
            assert(order.take(i + 1).last() == m@);
            if !self.parts.contains(&m) {
                missing.push(m);
                assert(hash_views(missing@) =~= before.push(m@));
            }
            i += 1;
        }
        assert(order.take(order.len() as int) =~= order);
        missing
    }

    /// A request for the parts with the map hashes `wanted`:
    /// `flag(0x00) || resource_hash(32) || map_hash(4)*`.
    pub fn request(&self, wanted: &Vec<[u8; MAPHASH_LEN]>) -> (payload: Vec<u8>)
        ensures
            payload@ == seq![0u8] + self@.hash + bytes::joined(hash_views(wanted@)),
    {
        let mut payload: Vec<u8> = Vec::new();
        payload.push(0x00);
        payload.extend_from_slice(&self.hash);
        let ghost head = payload@;
        assert(head =~= seq![0u8] + self@.hash);
        let ghost list = hash_views(wanted@);
        let mut i: usize = 0;
        assert(list.take(0) =~= Seq::<Seq<u8>>::empty());
        assert(payload@ =~= head + bytes::joined(list.take(0)));
        while i < wanted.len()
            invariant
                i <= wanted@.len(),
                list == hash_views(wanted@),
                payload@ == head + bytes::joined(list.take(i as int)),
            decreases wanted@.len() - i,
        {
            payload.extend_from_slice(&wanted[i]);
            assert(list.take(i + 1).drop_last() =~= list.take(i as int));
            assert(list.take(i + 1).last() == wanted@[i as int]@);
            assert(payload@ =~= head + bytes::joined(list.take(i + 1)));
            i += 1;
        }
        assert(list.take(list.len() as int) =~= list);
        payload
    }

    /// The request payload naming every known part not yet held:
    /// `flag(0x00) || resource_hash(32) || map_hash(4)*`.
    pub fn request_payload(&self) -> (payload: Vec<u8>)
        ensures
            payload@ == seq![0u8] + self@.hash + bytes::joined(self@.missing()),
    {
        let missing = self.missing_known();
        self.request(&missing)
    }

    /// Whether there are parts whose map hashes are not known yet.
    pub fn needs_hmu(&self) -> (needs: bool)
        ensures
            needs == (self@.order.len() < self@.total),
    {
        self.order.len() < self.total
    }

    /// The request for the map hashes after the last one known:
    /// `flag(0xff) || map_hash(4) || resource_hash(32)`. Four zero bytes stand for the hash
    /// when none is known.
    pub fn solicit_hmu(&self) -> (payload: Vec<u8>)
        ensures
            payload@ == seq![0xff_u8] + (if self@.order.len() > 0 {
                self@.order.last()
            } else {
                seq![0u8, 0u8, 0u8, 0u8]
            }) + self@.hash,
    {
        let mut payload: Vec<u8> = Vec::new();
        payload.push(0xff);
        if self.order.len() > 0 {
            payload.extend_from_slice(&self.order[self.order.len() - 1]);
        } else {
            payload.extend_from_slice(&[0u8; 4]);
        }
        payload.extend_from_slice(&self.hash);
        assert(payload@ =~= seq![0xff_u8] + (if self@.order.len() > 0 {
            self@.order.last()
        } else {
            seq![0u8, 0u8, 0u8, 0u8]
        }) + self@.hash);
        payload
    }

    /// Take the map hashes of a hashmap update, if it carries on from what is known.
    pub fn ingest_hmu(&mut self, hmu: &Hmu)
        ensures
            final(self)@ == old(self)@.with_hmu(hmu@),
    {
        if !bytes::same_bytes(&hmu.resource_hash, &self.hash) {
            return;
        }
        if hmu.hashmap.len() % MAPHASH_LEN != 0 {
            return;
        }
        let known: usize = self.order.len();
        if hmu.segment != (known / HASHMAP_SLICE) as u64 || known % HASHMAP_SLICE != 0 {
            proof {
                assert(hmu.segment * HASHMAP_SLICE != known);
            }
            return;
        }
        let count: usize = hmu.hashmap.len() / MAPHASH_LEN;
        if known > self.total || count > self.total - known {
            return;
        }
        let mut more: Vec<[u8; MAPHASH_LEN]> = read_hashes(&hmu.hashmap);
        let ghost before = self.order@;
        self.order.append(&mut more);
        assert(hash_views(self.order@) =~= hash_views(before) + hashes_in(hmu@.hashmap));
        assert(self@ =~= old(self)@.with_hmu(hmu@));
    }

    fn position(&self, m: &[u8; MAPHASH_LEN]) -> (found: bool)
        ensures
            found == self@.order.contains(m@),
    {
        let ghost order = self@.order;
        let mut i: usize = 0;
        while i < self.order.len()
            invariant
                i <= self.order@.len(),
                order == hash_views(self.order@),
                forall|j: int| 0 <= j < i ==> #[trigger] order[j] != m@,
            decreases self.order@.len() - i,
        {
            if bytes::same_bytes(&self.order[i], m) {
                assert(order[i as int] == m@);
                return true;
            }
            i += 1;
        }
        false
    }

    /// Take a received part (a raw token slice). Matched to the transfer by its map hash; a
    /// part whose map hash is not advertised is ignored.
    pub fn accept_part(&mut self, part: &[u8]) -> (taken: bool)
        ensures
            taken == old(self)@.order.contains(map_hash_of(part@, old(self)@.random_hash)),
            final(self)@ == old(self)@.with_part(part@),
    {
        let m: [u8; MAPHASH_LEN] = map_hash(part, &self.random_hash);
        if self.position(&m) {
            let copy: Vec<u8> = bytes::copy_all(part);
            self.parts.insert(m, copy);
            assert(self@ =~= old(self)@.with_part(part@));
            true
        } else {
            false
        }
    }

    /// Whether every part has arrived.
    pub fn is_complete(&self) -> (complete: bool)
        ensures
            complete == self@.complete(),
    {
        if self.order.len() != self.total {
            return false;
        }
        let ghost order = self@.order;
        let mut i: usize = 0;
        while i < self.order.len()
            invariant
                i <= self.order@.len(),
                order == self@.order,
                order == hash_views(self.order@),
                forall|j: int| 0 <= j < i ==> self@.parts.contains_key(#[trigger] order[j]),
            decreases self.order@.len() - i,
        {
            if !self.parts.contains(&self.order[i]) {
                assert(!self@.parts.contains_key(order[i as int]));
                return false;
            }
            i += 1;
        }
        true
    }

    /// Reassemble the token in transfer order. [`Error::Truncated`] while a part is missing.
    /// Verifies nothing on its own; call [`verify`](Incoming::verify).
    pub fn assemble_token(&self) -> (token: Result<Vec<u8>, Error>)
        ensures
            match token {
                Ok(t) => self@.complete() && t@ == token_of(self@.order, self@.parts),
                Err(e) => !self@.complete() && e == Error::Truncated,
            },
    {
        if !self.is_complete() {
            return Err(Error::Truncated);
        }
        let ghost order = self@.order;
        let ghost parts = self@.parts;
        let mut token: Vec<u8> = Vec::new();
        let mut i: usize = 0;
        assert(order.take(0) =~= Seq::<Seq<u8>>::empty());
        assert(token@ =~= token_of(order.take(0), parts));
        while i < self.order.len()
            invariant
                i <= self.order@.len(),
                order == self@.order,
                order == hash_views(self.order@),
                parts == self@.parts,
                self@.complete(),
                token@ == token_of(order.take(i as int), parts),
            decreases self.order@.len() - i,
        {
            assert(self@.parts.contains_key(order[i as int]));
            match self.parts.get(&self.order[i]) {
                Some(part) => {
                    token.extend_from_slice(part);
                },
                None => {},
            }
            assert(order.take(i + 1).drop_last() =~= order.take(i as int));
            assert(token@ =~= token_of(order.take(i + 1), parts));
            i += 1;
        }
        assert(order.take(order.len() as int) =~= order);
        Ok(token)
    }

    /// Recover the payload from the decrypted transfer blob: strip the random-hash prefix,
    /// decompress if the advertisement flagged it, and verify against the resource hash.
    ///
    /// The random-hash prefix sits outside the compression. [`Error::Truncated`] for a blob
    /// shorter than the prefix, [`Error::BadPadding`] for a malformed compressed stream, and
    /// [`Error::ResourceCorrupt`] if the recovered data does not match the hash.
    pub fn recover(&self, decrypted: &[u8]) -> (data: Result<Vec<u8>, Error>)
        ensures
            match data {
                Ok(d) => self@.recovered(decrypted@) == Ok::<Seq<u8>, Error>(d@),
                Err(e) => self@.recovered(decrypted@) == Err::<Seq<u8>, Error>(e),
            },
    {
        let body: &[u8] = match data_from_content(decrypted) {
            Ok(body) => body,
            Err(e) => {
                return Err(e);
            },
        };
        let data: Vec<u8> = if self.compressed {
            match decompress(body) {
                Ok(data) => data,
                Err(e) => {
                    return Err(e);
                },
            }
        } else {
            bytes::copy_all(body)
        };
        if !self.verify(&data) {
            return Err(Error::ResourceCorrupt);
        }
        Ok(data)
    }

    /// Check that decrypted (and decompressed) `data` matches the advertised resource hash.
    pub fn verify(&self, data: &[u8]) -> (matches: bool)
        ensures
            matches == (crypto::sha256(data@ + self@.random_hash) == self@.hash),
    {
        let digest: [u8; 32] = resource_hash(data, &self.random_hash);
        bytes::same_bytes(&digest, &self.hash)
    }

    /// The proof to return for `data`: `SHA256(data || resource_hash)`.
    pub fn proof_of(&self, data: &[u8]) -> (digest: [u8; 32])
        ensures
            digest@ == receipt(data@, self@.hash),
    {
        proof_of(data, &self.hash)
    }

    /// The resource hash from the advertisement.
    pub fn resource_hash(&self) -> (hash: [u8; 32])
        ensures
            hash@ == self@.hash,
    {
        self.hash
    }
}

/// Whether a transfer can begin from an advertisement.
pub open spec fn begins(a: AdvertisementModel) -> bool {
    &&& a.resource_hash.len() == 32
    &&& a.hashmap.len() % 4 == 0
    &&& a.hashmap.len() / 4 <= a.parts <= usize::MAX
    &&& a.hashmap.len() == 0 ==> a.parts == 0
}

/// A receiver's request for parts.
#[derive(Debug, PartialEq, Eq)]
pub struct Request {
    /// Whether the receiver has run out of map hashes and asks for more.
    pub exhausted: bool,
    /// The last map hash the receiver knows, when it asks for more.
    pub last_map_hash: Option<[u8; MAPHASH_LEN]>,
    pub resource_hash: [u8; 32],
    /// The map hashes of the parts asked for.
    pub wanted: Vec<[u8; MAPHASH_LEN]>,
}

/// What a [`Request`] is, with its byte strings as sequences.
#[verifier::ext_equal]
pub struct RequestModel {
    pub last_map_hash: Option<Seq<u8>>,
    pub resource_hash: Seq<u8>,
    pub wanted: Seq<Seq<u8>>,
}

impl View for Request {
    type V = RequestModel;

    open spec fn view(&self) -> RequestModel {
        RequestModel {
            last_map_hash: match self.last_map_hash {
                Some(m) => Some(m@),
                None => None,
            },
            resource_hash: self.resource_hash@,
            wanted: hash_views(self.wanted@),
        }
    }
}

/// What a request payload asks for: `0x00 || resource_hash(32) || map_hash(4)*`, or
/// `0xff || last_map_hash(4) || resource_hash(32) || map_hash(4)*` when it asks for more map
/// hashes.
pub open spec fn read_request(payload: Seq<u8>) -> Option<RequestModel> {
    if payload.len() >= 33 && payload[0] == 0 && (payload.len() - 33) % 4 == 0 {
        Some(
            RequestModel {
                last_map_hash: None,
                resource_hash: payload.subrange(1, 33),
                wanted: hashes_in(payload.skip(33)),
            },
        )
    } else if payload.len() >= 37 && payload[0] == 0xff && (payload.len() - 37) % 4 == 0 {
        Some(
            RequestModel {
                last_map_hash: Some(payload.subrange(1, 5)),
                resource_hash: payload.subrange(5, 37),
                wanted: hashes_in(payload.skip(37)),
            },
        )
    } else {
        None
    }
}

/// Parse a request payload. [`Error::BadRequest`] when it does not have the shape of one.
pub fn parse_request(payload: &[u8]) -> (request: Result<Request, Error>)
    ensures
        match request {
            Ok(r) => read_request(payload@) == Some(r@) && r.exhausted == (
            r.last_map_hash is Some),
            Err(e) => read_request(payload@) is None && e == Error::BadRequest,
        },
{
    if payload.len() < 33 {
        return Err(Error::BadRequest);
    }
    let exhausted: bool = payload[0] == 0xff;
    if !exhausted && payload[0] != 0 {
        return Err(Error::BadRequest);
    }
    let at: usize = if exhausted {
        5
    } else {
        1
    };
    if payload.len() < at + 32 || (payload.len() - (at + 32)) % MAPHASH_LEN != 0 {
        return Err(Error::BadRequest);
    }
    let last_map_hash: Option<[u8; MAPHASH_LEN]> = if exhausted {
        Some(bytes::array_at::<MAPHASH_LEN>(payload, 1))
    } else {
        None
    };
    let resource_hash: [u8; 32] = bytes::array_at::<32>(payload, at);
    let rest: &[u8] = vstd::slice::slice_subrange(payload, at + 32, payload.len());
    assert(rest@ =~= payload@.skip(at + 32));
    let wanted = read_hashes(rest);
    Ok(Request { exhausted, last_map_hash, resource_hash, wanted })
}

/// A request for missing parts reads back as the hash and the parts it was made of.
pub proof fn law_request_round_trip(hash: Seq<u8>, wanted: Seq<Seq<u8>>)
    requires
        hash.len() == 32,
        forall|i: int| 0 <= i < wanted.len() ==> (#[trigger] wanted[i]).len() == 4,
    ensures
        read_request(seq![0u8] + hash + bytes::joined(wanted)) == Some(
            (RequestModel { last_map_hash: None, resource_hash: hash, wanted }),
        ),
{
    let p = seq![0u8] + hash + bytes::joined(wanted);
    lemma_hashes_in_joined(wanted);
    assert(p.skip(33) =~= bytes::joined(wanted));
    assert(p.subrange(1, 33) =~= hash);
}

/// Joined map hashes cut apart again.
pub proof fn lemma_hashes_in_joined(list: Seq<Seq<u8>>)
    requires
        forall|i: int| 0 <= i < list.len() ==> (#[trigger] list[i]).len() == 4,
    ensures
        bytes::joined(list).len() == 4 * list.len(),
        hashes_in(bytes::joined(list)) == list,
    decreases list.len(),
{
    if list.len() == 0 {
        assert(hashes_in(bytes::joined(list)) =~= list);
    } else {
        let front = list.drop_last();
        assert forall|i: int| 0 <= i < front.len() implies (#[trigger] front[i]).len() == 4 by {
            assert(front[i] == list[i]);
        }
        lemma_hashes_in_joined(front);
        let last = list[list.len() - 1];
        assert(last.len() == 4);
        let all = bytes::joined(list);
        assert forall|i: int| 0 <= i < list.len() implies #[trigger] hashes_in(all)[i]
            == list[i] by {
            if i < front.len() {
                assert(all.subrange(4 * i, 4 * i + 4) =~= bytes::joined(front).subrange(
                    4 * i,
                    4 * i + 4,
                ));
                assert(hashes_in(bytes::joined(front))[i] == front[i]);
            } else {
                assert(all.subrange(4 * i, 4 * i + 4) =~= last);
            }
        }
        assert(hashes_in(all) =~= list);
    }
}

/// A hashmap update: one slice of the map hashes.
#[derive(Debug, PartialEq, Eq)]
pub struct Hmu {
    pub resource_hash: [u8; 32],
    /// Which slice of [`HASHMAP_SLICE`] hashes this is.
    pub segment: u64,
    pub hashmap: Vec<u8>,
}

/// What an [`Hmu`] is, with its byte strings as sequences.
#[verifier::ext_equal]
pub struct HmuModel {
    pub resource_hash: Seq<u8>,
    pub segment: nat,
    pub hashmap: Seq<u8>,
}

impl View for Hmu {
    type V = HmuModel;

    open spec fn view(&self) -> HmuModel {
        HmuModel {
            resource_hash: self.resource_hash@,
            segment: self.segment as nat,
            hashmap: self.hashmap@,
        }
    }
}

/// What a hashmap update payload carries: the resource hash, then a two-element msgpack array
/// of the segment number and the hashes.
pub open spec fn read_hmu(payload: Seq<u8>) -> Option<HmuModel> {
    if payload.len() < 33 || payload[32] != 0x92 {
        None
    } else {
        match msgpack::read_uint(payload.skip(33)) {
            Some((segment, rest)) => match msgpack::read_bin(rest) {
                Some((hashmap, _)) => Some(
                    HmuModel { resource_hash: payload.take(32), segment, hashmap },
                ),
                None => None,
            },
            None => None,
        }
    }
}

/// A hashmap update on the wire.
pub open spec fn hmu_wire(resource_hash: Seq<u8>, segment: u64, hashmap: Seq<u8>) -> Seq<u8> {
    resource_hash + seq![0x92_u8] + msgpack::uint_wire(segment) + msgpack::bin_wire(hashmap)
}

/// Parse a hashmap update payload. [`Error::BadRequest`] when it is malformed.
pub fn parse_hmu(payload: &[u8]) -> (hmu: Result<Hmu, Error>)
    ensures
        match hmu {
            Ok(h) => read_hmu(payload@) == Some(h@),
            Err(e) => read_hmu(payload@) is None && e == Error::BadRequest,
        },
{
    if payload.len() < 33 || payload[32] != 0x92 {
        return Err(Error::BadRequest);
    }
    let resource_hash: [u8; 32] = bytes::array_at::<32>(payload, 0);
    assert(resource_hash@ =~= payload@.take(32));
    let rest: &[u8] = vstd::slice::slice_subrange(payload, 33, payload.len());
    assert(rest@ =~= payload@.skip(33));
    let mut reader = MapReader::new(rest);
    let segment: u64 = match reader.uint() {
        Ok(v) => v,
        Err(e) => {
            return Err(e);
        },
    };
    match reader.bin() {
        Ok(b) => Ok(Hmu { resource_hash, segment, hashmap: bytes::copy_all(b) }),
        Err(e) => Err(e),
    }
}

/// A hashmap update parses to what was written.
pub proof fn law_hmu_round_trip(resource_hash: Seq<u8>, segment: u64, hashmap: Seq<u8>)
    requires
        resource_hash.len() == 32,
        hashmap.len() <= 0xffff_ffff,
    ensures
        read_hmu(hmu_wire(resource_hash, segment, hashmap)) == Some(
            (HmuModel { resource_hash, segment: segment as nat, hashmap }),
        ),
{
    let w = hmu_wire(resource_hash, segment, hashmap);
    let rest = msgpack::bin_wire(hashmap) + Seq::<u8>::empty();
    assert(w.skip(33) =~= msgpack::uint_wire(segment) + rest);
    assert(w.take(32) =~= resource_hash);
    msgpack::law_uint_round_trip(segment, rest);
    msgpack::law_bin_round_trip(hashmap, Seq::<u8>::empty());
}

/// What an [`Outgoing`] offers.
#[verifier::ext_equal]
pub struct OutgoingModel {
    /// The whole advertisement, with every map hash.
    pub full: AdvertisementModel,
    pub parts: Seq<Seq<u8>>,
    /// The map hash of each part.
    pub hashes: Seq<Seq<u8>>,
    /// The proof that the receiver has to return.
    pub receipt: Seq<u8>,
}

/// Where the first occurrence of `m` ends in `hashes`: one past it, or 0 if there is none.
pub open spec fn after_first(hashes: Seq<Seq<u8>>, m: Seq<u8>) -> int {
    match hashes.index_of_first(m) {
        Some(i) => i + 1,
        None => 0,
    }
}

/// The parts for a list of map hashes, leaving out hashes that belong to no part.
pub open spec fn served(
    wanted: Seq<Seq<u8>>,
    hashes: Seq<Seq<u8>>,
    parts: Seq<Seq<u8>>,
) -> Seq<Seq<u8>>
    decreases wanted.len(),
{
    if wanted.len() == 0 {
        Seq::empty()
    } else {
        let front = served(wanted.drop_last(), hashes, parts);
        match hashes.index_of_first(wanted.last()) {
            Some(i) => front.push(parts[i]),
            None => front,
        }
    }
}

impl OutgoingModel {
    /// The parts and their hashes match up, and the hashmap is those hashes.
    pub open spec fn consistent(self) -> bool {
        &&& self.hashes.len() == self.parts.len()
        &&& self.full.hashmap.len() == 4 * self.parts.len()
        &&& self.hashes == hashes_in(self.full.hashmap)
        &&& self.full.resource_hash.len() == 32
        &&& self.receipt.len() == 32
    }

    /// The advertisement that goes out: with the first slice of the hashmap.
    pub open spec fn advertisement(self) -> AdvertisementModel {
        AdvertisementModel {
            hashmap: self.full.hashmap.take(
                if self.full.hashmap.len() < 4 * HASHMAP_SLICE {
                    self.full.hashmap.len() as int
                } else {
                    4 * HASHMAP_SLICE as int
                },
            ),
            ..self.full
        }
    }

    /// The slice of the hashmap that starts at hash `at`.
    pub open spec fn slice_from(self, at: int) -> Seq<u8> {
        let end = if self.full.hashmap.len() < 4 * (at + HASHMAP_SLICE) {
            self.full.hashmap.len() as int
        } else {
            4 * (at + HASHMAP_SLICE)
        };
        self.full.hashmap.subrange(4 * at, end)
    }

    /// The hashmap update after the hash `last`.
    pub open spec fn hmu_after(self, last: Seq<u8>) -> Seq<u8> {
        let at = after_first(self.hashes, last);
        hmu_wire(self.full.resource_hash, (at / HASHMAP_SLICE as int) as u64, self.slice_from(at))
    }
}

/// Sender state for one outgoing resource: what was advertised and the parts to serve.
pub struct Outgoing {
    full: Advertisement,
    parts: Vec<Vec<u8>>,
    hashes: Vec<[u8; MAPHASH_LEN]>,
    receipt: [u8; 32],
}

impl View for Outgoing {
    type V = OutgoingModel;

    closed spec fn view(&self) -> OutgoingModel {
        OutgoingModel {
            full: self.full@,
            parts: bytes::views(self.parts@),
            hashes: hash_views(self.hashes@),
            receipt: self.receipt@,
        }
    }
}

impl Outgoing {
    #[verifier::type_invariant]
    spec fn matched(self) -> bool {
        self@.consistent()
    }

    /// Prepare a transfer of `data`, sealed as `token`.
    pub fn new(
        data: &[u8],
        token: &[u8],
        random_hash: [u8; RANDOM_HASH_LEN],
        compressed: bool,
    ) -> (out: Self)
        ensures
            ({
                let pieces = bytes::chunks(token@, SDU as nat);
                let hash = crypto::sha256(data@ + random_hash@);
                &&& out@.consistent()
                &&& out@.parts == pieces
                &&& out@.hashes == map_hashes_of(pieces, random_hash@)
                &&& out@.receipt == receipt(data@, hash)
                &&& out@.full.transfer_size == token@.len()
                &&& out@.full.data_size == data@.len()
                &&& out@.full.parts == pieces.len()
                &&& out@.full.resource_hash == hash
                &&& out@.full.original_hash == hash
                &&& out@.full.random_hash == random_hash@
                &&& out@.full.flags == flags_of(compressed)
                &&& out@.full.i == 1
                &&& out@.full.l == 1
                &&& out@.full.q is None
            }),
    {
        let (full, parts) = advertise(data, token, random_hash, compressed);
        let hashes = read_hashes(&full.hashmap);
        let digest: [u8; 32] = bytes::array_at::<32>(&full.resource_hash, 0);
        assert(digest@ =~= full@.resource_hash);
        let receipt: [u8; 32] = proof_of(data, &digest);
        assert(bytes::views(parts@).len() == parts@.len());
        Outgoing { full, parts, hashes, receipt }
    }

    /// The advertisement to send: it carries the first [`HASHMAP_SLICE`] map hashes.
    pub fn advertisement(&self) -> (advertisement: Advertisement)
        ensures
            advertisement@ == self@.advertisement(),
    {
        let len: usize = self.full.hashmap.len();
        let mut advertisement = self.full.clone();
        let to: usize = if len < MAPHASH_LEN * HASHMAP_SLICE {
            len
        } else {
            MAPHASH_LEN * HASHMAP_SLICE
        };
        advertisement.hashmap = bytes::copy_range(&self.full.hashmap, 0, to);
        assert(advertisement@.hashmap =~= self@.advertisement().hashmap);
        advertisement
    }

    fn find(&self, m: &[u8; MAPHASH_LEN]) -> (at: Option<usize>)
        ensures
            match at {
                Some(i) => self@.hashes.index_of_first(m@) == Some(i as int) && i
                    < self@.hashes.len(),
                None => self@.hashes.index_of_first(m@) is None,
            },
    {
        let ghost hashes = self@.hashes;
        proof {
            hashes.index_of_first_ensures(m@);
        }
        let mut i: usize = 0;
        while i < self.hashes.len()
            invariant
                i <= self.hashes@.len(),
                hashes == self@.hashes,
                hashes == hash_views(self.hashes@),
                forall|j: int| 0 <= j < i ==> #[trigger] hashes[j] != m@,
            decreases self.hashes@.len() - i,
        {
            if bytes::same_bytes(&self.hashes[i], m) {
                assert(hashes[i as int] == m@);
                proof {
                    hashes.index_of_first_ensures(m@);
                }
                return Some(i);
            }
            i += 1;
        }
        None
    }

    /// The parts a request asks for, in the order it names them. Hashes that belong to no
    /// part are passed over.
    pub fn serve(&self, request: &Request) -> (parts: Vec<Vec<u8>>)
        ensures
            bytes::views(parts@) == served(request@.wanted, self@.hashes, self@.parts),
    {
        proof {
            use_type_invariant(self);
        }
        let ghost wanted = hash_views(request.wanted@);
        let mut parts: Vec<Vec<u8>> = Vec::new();
        let mut i: usize = 0;
        assert(wanted.take(0) =~= Seq::<Seq<u8>>::empty());
        assert(bytes::views(parts@) =~= served(wanted.take(0), self@.hashes, self@.parts));
        while i < request.wanted.len()
            invariant
                i <= request.wanted@.len(),
                wanted == hash_views(request.wanted@),
                self@.consistent(),
                bytes::views(parts@) == served(wanted.take(i as int), self@.hashes, self@.parts),
            decreases request.wanted@.len() - i,
        {
            let ghost before = bytes::views(parts@);
            assert(wanted.take(i + 1).drop_last() =~= wanted.take(i as int));
            assert(wanted.take(i + 1).last() == request.wanted@[i as int]@);
            match self.find(&request.wanted[i]) {
                Some(at) => {
                    let part: Vec<u8> = bytes::copy_all(&self.parts[at]);
                    let ghost piece = part@;
                    parts.push(part);
                    assert(bytes::views(parts@) =~= before.push(piece));
                },
                None => {},
            }
            i += 1;
        }
        assert(wanted.take(wanted.len() as int) =~= wanted);
        parts
    }

    /// The hashmap update that carries the map hashes after `last`.
    pub fn hmu_after(&self, last: &[u8; MAPHASH_LEN]) -> (payload: Vec<u8>)
        ensures
            payload@ == self@.hmu_after(last@),
    {
        proof {
            use_type_invariant(self);
        }
        let len: usize = self.full.hashmap.len();
        let at: usize = match self.find(last) {
            Some(i) => i + 1,
            None => 0,
        };
        let from: usize = MAPHASH_LEN * at;
        let to: usize = if len - from < MAPHASH_LEN * HASHMAP_SLICE {
            len
        } else {
            from + MAPHASH_LEN * HASHMAP_SLICE
        };
        let slice: &[u8] = vstd::slice::slice_subrange(&self.full.hashmap, from, to);
        assert(slice@ =~= self@.slice_from(at as int));
        let mut payload: Vec<u8> = bytes::copy_all(&self.full.resource_hash);
        payload.push(0x92);
        let mut body = MapWriter::blank();
        body.uint((at / HASHMAP_SLICE) as u64);
        body.bin(slice);
        payload.extend_from_slice(&body.finish());
        assert(payload@ =~= self@.hmu_after(last@));
        payload
    }

    /// The proof that the receiver has to return.
    pub fn expected_proof(&self) -> (digest: [u8; 32])
        ensures
            digest@ == self@.receipt,
    {
        self.receipt
    }
}

/// A receiver holds only advertised parts, each under its own map hash: it starts that way.
pub proof fn law_a_fresh_receiver_is_genuine(a: AdvertisementModel)
    ensures
        awaiting(a).genuine(),
{
}

/// A receiver holds only advertised parts, each under its own map hash: neither a part that
/// comes in nor a hashmap update changes that.
pub proof fn law_held_parts_stay_genuine(state: IncomingModel, part: Seq<u8>, hmu: HmuModel)
    requires
        state.genuine(),
    ensures
        state.with_part(part).genuine(),
        state.with_hmu(hmu).genuine(),
{
    let grown = state.with_hmu(hmu);
    assert forall|m: Seq<u8>| #[trigger] grown.parts.contains_key(m) implies grown.order.contains(
        m,
    ) by {
        let i = choose|i: int| 0 <= i < state.order.len() && state.order[i] == m;
        assert(grown.order[i] == m);
    }
}

/// A resource that was recovered matches its hash: corruption is never handed out.
pub proof fn law_recovered_data_matches(state: IncomingModel, decrypted: Seq<u8>)
    ensures
        state.recovered(decrypted) matches Ok(data) ==> crypto::sha256(data + state.random_hash)
            == state.hash,
{
}

/// An uncompressed payload is recovered from the content that its sender sealed.
pub proof fn law_sent_data_is_recovered(state: IncomingModel, data: Seq<u8>)
    requires
        state.random_hash.len() == RANDOM_HASH_LEN,
        !state.compressed,
    ensures
        crypto::sha256(data + state.random_hash) == state.hash ==> state.recovered(
            state.random_hash + data,
        ) == Ok::<Seq<u8>, Error>(data),
{
    assert((state.random_hash + data).skip(4) =~= data);
}

/// A compressed payload is recovered from the content that its sender sealed, where bzip2 gives
/// back what it compressed (as [`compress`] has it of everything it compresses).
pub proof fn law_compressed_data_is_recovered(state: IncomingModel, data: Seq<u8>)
    requires
        state.random_hash.len() == RANDOM_HASH_LEN,
        state.compressed,
        bzip2_decompressed(bzip2_compressed(data)) == Some(data),
    ensures
        crypto::sha256(data + state.random_hash) == state.hash ==> state.recovered(
            state.random_hash + bzip2_compressed(data),
        ) == Ok::<Seq<u8>, Error>(data),
{
    assert((state.random_hash + bzip2_compressed(data)).skip(4) =~= bzip2_compressed(data));
}

/// A receiver that holds the parts the token was split into puts the token together again.
pub proof fn law_parts_make_the_token(
    token: Seq<u8>,
    order: Seq<Seq<u8>>,
    parts: Map<Seq<u8>, Seq<u8>>,
)
    requires
        order.len() == bytes::chunks(token, SDU as nat).len(),
        forall|i: int|
            0 <= i < order.len() ==> parts[#[trigger] order[i]] == bytes::chunks(
                token,
                SDU as nat,
            )[i],
    ensures
        token_of(order, parts) == token,
{
    lemma_token_of(order, parts, bytes::chunks(token, SDU as nat));
    bytes::law_chunks_join(token, SDU as nat);
}

proof fn lemma_token_of(
    order: Seq<Seq<u8>>,
    parts: Map<Seq<u8>, Seq<u8>>,
    pieces: Seq<Seq<u8>>,
)
    requires
        order.len() == pieces.len(),
        forall|i: int| 0 <= i < order.len() ==> parts[#[trigger] order[i]] == pieces[i],
    ensures
        token_of(order, parts) == bytes::joined(pieces),
    decreases order.len(),
{
    if order.len() > 0 {
        assert forall|i: int| 0 <= i < order.drop_last().len() implies parts[
            #[trigger] order.drop_last()[i]] == pieces.drop_last()[i] by {
            assert(order.drop_last()[i] == order[i]);
        }
        lemma_token_of(order.drop_last(), parts, pieces.drop_last());
        assert(parts[order[order.len() - 1]] == pieces[pieces.len() - 1]);
    }
}

/// What is missing is what is known and not held, all of it and nothing else: the hash at any
/// place of the order is among the missing exactly where no part is held under it.
pub proof fn law_everything_not_held_is_missing(state: IncomingModel, i: int)
    requires
        0 <= i < state.order.len(),
    ensures
        state.missing().contains(state.order[i]) <==> !state.parts.contains_key(state.order[i]),
        state.missing().len() <= state.order.len(),
        forall|j: int|
            0 <= j < state.missing().len() ==> state.order.contains(
                #[trigger] state.missing()[j],
            ) && !state.parts.contains_key(state.missing()[j]),
{
    lemma_missing(state.order, state.parts);
    if !state.parts.contains_key(state.order[i]) {
        lemma_not_held_is_missing(state.order, state.parts, i);
    } else if state.missing().contains(state.order[i]) {
        let j = choose|j: int|
            0 <= j < state.missing().len() && state.missing()[j] == state.order[i];
        assert(!state.parts.contains_key(state.missing()[j]));
    }
}

proof fn lemma_missing(order: Seq<Seq<u8>>, parts: Map<Seq<u8>, Seq<u8>>)
    ensures
        missing_of(order, parts).len() <= order.len(),
        forall|j: int|
            0 <= j < missing_of(order, parts).len() ==> order.contains(
                #[trigger] missing_of(order, parts)[j],
            ) && !parts.contains_key(missing_of(order, parts)[j]),
    decreases order.len(),
{
    if order.len() > 0 {
        let front = order.drop_last();
        lemma_missing(front, parts);
        let list = missing_of(order, parts);
        let shorter = missing_of(front, parts);
        assert forall|j: int| 0 <= j < list.len() implies order.contains(#[trigger] list[j])
            && !parts.contains_key(list[j]) by {
            if j < shorter.len() {
                assert(list[j] == shorter[j]);
                assert(front.contains(shorter[j]));
                let k = choose|k: int| 0 <= k < front.len() && front[k] == shorter[j];
                assert(order[k] == list[j]);
            } else {
                assert(order[order.len() - 1] == list[j]);
            }
        }
    }
}

proof fn lemma_not_held_is_missing(
    order: Seq<Seq<u8>>,
    parts: Map<Seq<u8>, Seq<u8>>,
    i: int,
)
    requires
        0 <= i < order.len(),
        !parts.contains_key(order[i]),
    ensures
        missing_of(order, parts).contains(order[i]),
    decreases order.len(),
{
    let front = missing_of(order.drop_last(), parts);
    let list = missing_of(order, parts);
    if i == order.len() - 1 {
        assert(list.last() == order[i]);
    } else {
        lemma_not_held_is_missing(order.drop_last(), parts, i);
        let j = choose|j: int| 0 <= j < front.len() && front[j] == order[i];
        assert(list[j] == order[i]);
    }
}

/// Every part asked for is served: where all the hashes wanted are those of parts, the answer has
/// one part for each, in the order asked, and it is a part with that hash.
pub proof fn law_every_part_asked_for_is_served(
    wanted: Seq<Seq<u8>>,
    hashes: Seq<Seq<u8>>,
    parts: Seq<Seq<u8>>,
    k: int,
)
    requires
        hashes.len() == parts.len(),
        forall|j: int| 0 <= j < wanted.len() ==> hashes.contains(#[trigger] wanted[j]),
        0 <= k < wanted.len(),
    ensures
        served(wanted, hashes, parts).len() == wanted.len(),
        exists|i: int|
            0 <= i < parts.len() && served(wanted, hashes, parts)[k] == parts[i]
                && #[trigger] hashes[i] == wanted[k],
    decreases wanted.len(),
{
    let front = wanted.drop_last();
    assert forall|j: int| 0 <= j < front.len() implies hashes.contains(#[trigger] front[j]) by {
        assert(front[j] == wanted[j]);
    }
    let last = wanted.last();
    assert(last == wanted[wanted.len() - 1]);
    assert(hashes.contains(last));
    hashes.index_of_first_ensures(last);
    let at = hashes.index_of_first(last)->0;
    assert(hashes[at] == last);
    let before = served(front, hashes, parts);
    assert(served(wanted, hashes, parts) == before.push(parts[at]));
    if k == front.len() && front.len() == 0 {
        assert(before.len() == 0);
        assert(served(wanted, hashes, parts)[k] == parts[at] && hashes[at] == wanted[k]);
    }
    if front.len() > 0 {
        let m = if k < front.len() {
            k
        } else {
            0
        };
        law_every_part_asked_for_is_served(front, hashes, parts, m);
        if k < front.len() {
            let i = choose|i: int|
                0 <= i < parts.len() && served(front, hashes, parts)[k] == parts[i]
                    && #[trigger] hashes[i] == front[k];
            assert(served(wanted, hashes, parts)[k] == parts[i] && hashes[i] == wanted[k]);
        } else {
            assert(served(wanted, hashes, parts)[k] == parts[at] && hashes[at] == wanted[k]);
        }
    }
}

/// A part that was advertised is kept whole under its hash, and no other part is touched; a part
/// that was not is not kept.
pub proof fn law_advertised_parts_are_kept(state: IncomingModel, part: Seq<u8>, i: int)
    ensures
        0 <= i < state.order.len() && crypto::sha256(part + state.random_hash).take(4)
            == state.order[i] ==> state.with_part(part).parts == state.parts.insert(
            state.order[i],
            part,
        ),
        (forall|j: int|
            0 <= j < state.order.len() ==> #[trigger] state.order[j] != crypto::sha256(
                part + state.random_hash,
            ).take(4)) ==> state.with_part(part) == state,
        state.with_part(part).order == state.order,
{
}

/// A hashmap update that starts where the known hashes end brings every hash it has, behind those
/// known.
pub proof fn law_updates_extend_the_order(state: IncomingModel, hmu: HmuModel, i: int)
    requires
        hmu.resource_hash == state.hash,
        hmu.hashmap.len() % 4 == 0,
        hmu.segment * 74 == state.order.len(),
        4 * state.order.len() + hmu.hashmap.len() <= 4 * state.total,
        0 <= i < hmu.hashmap.len() / 4,
    ensures
        state.with_hmu(hmu).order.len() == state.order.len() + hmu.hashmap.len() / 4,
        state.with_hmu(hmu).order.take(state.order.len() as int) == state.order,
        state.with_hmu(hmu).order[state.order.len() + i] == hmu.hashmap.subrange(4 * i, 4 * i + 4),
        state.with_hmu(hmu).parts == state.parts,
{
    assert(state.with_hmu(hmu).order.take(state.order.len() as int) =~= state.order);
}

/// An update brings the next hashes: asked for more behind the last hash of a slice, a sender
/// answers with the hashes that follow it, up to 74 of them and all that there are if fewer, under
/// the number of their slice.
pub proof fn law_updates_bring_the_next_hashes(out: OutgoingModel, i: int, j: int)
    requires
        out.consistent(),
        0 <= i < out.hashes.len(),
        (i + 1) % 74 == 0,
        i < u64::MAX,
        out.full.hashmap.len() <= 0xffff_ffff,
        forall|k: int| 0 <= k < i ==> #[trigger] out.hashes[k] != out.hashes[i],
    ensures
        ({
            let hmu = read_hmu(out.hmu_after(out.hashes[i]));
            let left = out.hashes.len() - (i + 1);
            &&& hmu is Some
            &&& hmu->0.resource_hash == out.full.resource_hash
            &&& hmu->0.segment * 74 == i + 1
            &&& hmu->0.hashmap.len() == 4 * if left < 74 {
                left
            } else {
                74
            }
            &&& 0 <= j < 74 && j < left ==> hashes_in(hmu->0.hashmap)[j] == out.hashes[i + 1 + j]
        }),
{
    let at = i + 1;
    let slice = out.slice_from(at);
    lemma_after_first(out.hashes, i);
    lemma_slice(out, at, j);
    law_hmu_round_trip(out.full.resource_hash, (at / 74) as u64, slice);
    assert(out.hmu_after(out.hashes[i]) == hmu_wire(
        out.full.resource_hash,
        (at / 74) as u64,
        slice,
    ));
}

proof fn lemma_after_first(hashes: Seq<Seq<u8>>, i: int)
    requires
        0 <= i < hashes.len(),
        forall|k: int| 0 <= k < i ==> #[trigger] hashes[k] != hashes[i],
    ensures
        after_first(hashes, hashes[i]) == i + 1,
{
    hashes.index_of_first_ensures(hashes[i]);
    assert(hashes.contains(hashes[i]));
    let found = hashes.index_of_first(hashes[i])->0;
    if found < i {
        assert(hashes[found] != hashes[i]);
    }
}

/// A slice of the hashmap holds the hashes that it is of.
proof fn lemma_slice(out: OutgoingModel, at: int, j: int)
    requires
        out.consistent(),
        0 <= at <= out.hashes.len(),
    ensures
        out.slice_from(at).len() <= out.full.hashmap.len(),
        out.slice_from(at).len() == 4 * if out.hashes.len() - at < 74 {
            out.hashes.len() - at
        } else {
            74
        },
        0 <= j < 74 && j < out.hashes.len() - at ==> hashes_in(out.slice_from(at))[j]
            == out.hashes[at + j],
{
    let slice = out.slice_from(at);
    if 0 <= j < 74 && j < out.hashes.len() - at {
        assert(slice.subrange(4 * j, 4 * j + 4) =~= out.full.hashmap.subrange(
            4 * (at + j),
            4 * (at + j) + 4,
        ));
        assert(out.hashes[at + j] == hashes_in(out.full.hashmap)[at + j]);
    }
}

/// A receiver learns from the advertisement whether the payload is compressed, and all that it has
/// to wait for: every hash that came with it, and how many parts there are.
pub proof fn law_an_advertisement_says_what_to_wait_for(
    a: AdvertisementModel,
    compressed: bool,
    i: int,
)
    requires
        a.flags == flags_of(compressed),
    ensures
        awaiting(a).compressed == compressed,
        awaiting(a).total == a.parts,
        awaiting(a).hash == a.resource_hash,
        awaiting(a).random_hash == a.random_hash,
        awaiting(a).order.len() == a.hashmap.len() / 4,
        0 <= i < a.hashmap.len() / 4 ==> awaiting(a).order[i] == a.hashmap.subrange(
            4 * i,
            4 * i + 4,
        ),
        forall|m: Seq<u8>| !#[trigger] awaiting(a).parts.contains_key(m),
{
}

/// A receipt stands for the whole payload under its resource hash.
pub proof fn law_a_receipt_stands_for_the_payload(data: Seq<u8>, hash: Seq<u8>)
    ensures
        receipt(data, hash) == crypto::sha256(data + hash),
        map_hash_of(data, hash) == crypto::sha256(data + hash).take(4),
{
}

/// A request for more map hashes reads back as what it was made of: the last hash known, the
/// resource, and every part that it names besides.
pub proof fn law_requests_for_more_round_trip(
    last: Seq<u8>,
    hash: Seq<u8>,
    wanted: Seq<Seq<u8>>,
)
    requires
        last.len() == 4,
        hash.len() == 32,
        forall|i: int| 0 <= i < wanted.len() ==> (#[trigger] wanted[i]).len() == 4,
    ensures
        read_request(seq![0xff_u8] + last + hash + bytes::joined(wanted)) == Some(
            (RequestModel { last_map_hash: Some(last), resource_hash: hash, wanted }),
        ),
{
    let p = seq![0xff_u8] + last + hash + bytes::joined(wanted);
    lemma_hashes_in_joined(wanted);
    assert(p.skip(37) =~= bytes::joined(wanted));
    assert(p.subrange(1, 5) =~= last);
    assert(p.subrange(5, 37) =~= hash);
}

} // verus!
