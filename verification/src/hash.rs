//! Hashes and their truncations.
//!
//! Every hash in Reticulum is SHA-256, and every short form is a *prefix truncation* of it.
//! There are three lengths in play, and using the wrong one is a silent wire
//! incompatibility, so each has its own type rather than being a bare `[u8; N]`.
//!
//! | length | used for |
//! |---|---|
//! | 32 | the full digest, and the input to the truncated forms |
//! | 16 | address hashes: identity hashes, destination hashes, link ids |
//! | 10 | name hashes and ratchet ids |

use crate::bytes::{array_at, same_bytes};
use crate::crypto;
use crate::text;
use vstd::prelude::*;

verus! {

/// Length of a full SHA-256 digest.
pub const HASH_LEN: usize = 32;

/// Length of an address hash: identity hashes, destination hashes, link ids.
pub const ADDRESS_HASH_LEN: usize = 16;

/// Length of a name hash, and of a ratchet id.
pub const NAME_HASH_LEN: usize = 10;

/// The full SHA-256 of `data`.
pub fn full_hash(data: &[u8]) -> (digest: [u8; HASH_LEN])
    ensures
        digest@ == crypto::sha256(data@),
{
    crypto::sha256_digest(data)
}

/// The 16 bytes that address `data`: the front of its SHA-256 digest.
pub open spec fn address_of(data: Seq<u8>) -> Seq<u8> {
    crypto::sha256(data).take(16)
}

/// The 10 bytes that name `data`: the front of its SHA-256 digest.
pub open spec fn name_of(data: Seq<u8>) -> Seq<u8> {
    crypto::sha256(data).take(10)
}

/// A 16-byte address hash: an identity, a destination, or a link.
///
/// The type exists to stop a name hash being passed where an address hash is wanted, which
/// the wire would accept and then quietly reject.
#[derive(Clone, Copy, Debug, PartialEq, Eq, Hash, PartialOrd, Ord)]
pub struct AddressHash(pub [u8; ADDRESS_HASH_LEN]);

impl View for AddressHash {
    type V = Seq<u8>;

    open spec fn view(&self) -> Seq<u8> {
        self.0@
    }
}

/// An address hash is the 16 bytes it holds, and nothing else.
pub proof fn lemma_address_hash_ext(a: AddressHash, b: AddressHash)
    requires
        a@ == b@,
    ensures
        a == b,
{
    assert(a.0 =~= b.0);
}

/// The address hash with the bytes `s`.
pub open spec fn address_from(s: Seq<u8>) -> AddressHash {
    choose|h: AddressHash| h@ == s
}

/// Every address hash is the one with its bytes.
pub proof fn lemma_address_from(h: AddressHash)
    ensures
        address_from(h@) == h,
{
    let g = address_from(h@);
    assert(h@ == h@);
    lemma_address_hash_ext(g, h);
}

impl AddressHash {
    /// Wrap 16 bytes that are already an address hash.
    pub fn from_bytes(bytes: [u8; ADDRESS_HASH_LEN]) -> (hash: Self)
        ensures
            hash@ == bytes@,
    {
        Self(bytes)
    }

    /// Hash `data` and truncate to 16 bytes.
    pub fn of(data: &[u8]) -> (hash: Self)
        ensures
            hash@ == address_of(data@),
    {
        let digest = full_hash(data);
        let hash = Self(array_at::<ADDRESS_HASH_LEN>(&digest, 0));
        assert(hash@ =~= digest@.take(16));
        hash
    }

    /// Read an address hash from the front of `slice`, if it is long enough.
    pub fn from_slice(slice: &[u8]) -> (hash: Option<Self>)
        ensures
            match hash {
                Some(h) => slice@.len() >= 16 && h@ == slice@.take(16),
                None => slice@.len() < 16,
            },
    {
        if slice.len() < ADDRESS_HASH_LEN {
            return None;
        }
        let hash = Self(array_at::<ADDRESS_HASH_LEN>(slice, 0));
        assert(hash@ =~= slice@.take(16));
        Some(hash)
    }

    /// The 16 bytes.
    pub fn as_bytes(&self) -> (bytes: &[u8; ADDRESS_HASH_LEN])
        ensures
            bytes@ == self@,
    {
        &self.0
    }

    /// The 16 bytes, as a slice.
    pub fn as_slice(&self) -> (bytes: &[u8])
        ensures
            bytes@ == self@,
    {
        &self.0
    }

    /// The lower-case hexadecimal form.
    pub fn to_string(&self) -> (text: String)
        ensures
            text@ == text::hex_text(self@),
    {
        text::to_hex(&self.0)
    }

    /// Whether two address hashes are the same.
    pub fn same(&self, other: &AddressHash) -> (same: bool)
        ensures
            same == (*self == *other),
            same == (self@ == other@),
    {
        let same: bool = same_bytes(&self.0, &other.0);
        proof {
            if same {
                lemma_address_hash_ext(*self, *other);
            }
        }
        same
    }
}

/// A 10-byte name hash, or a ratchet id.
///
/// The trap this type exists to prevent: a name hash is the *first ten bytes* of the SHA-256
/// of the expanded name. Matching on the full 32-byte digest, or on a zero-padded 32-byte
/// buffer, silently never matches anything on the wire.
#[derive(Clone, Copy, Debug, PartialEq, Eq, Hash, PartialOrd, Ord)]
pub struct NameHash(pub [u8; NAME_HASH_LEN]);

impl View for NameHash {
    type V = Seq<u8>;

    open spec fn view(&self) -> Seq<u8> {
        self.0@
    }
}

impl NameHash {
    /// Wrap 10 bytes that are already a name hash.
    pub fn from_bytes(bytes: [u8; NAME_HASH_LEN]) -> (hash: Self)
        ensures
            hash@ == bytes@,
    {
        Self(bytes)
    }

    /// Hash `data` and truncate to 10 bytes.
    pub fn of(data: &[u8]) -> (hash: Self)
        ensures
            hash@ == name_of(data@),
    {
        let digest = full_hash(data);
        let hash = Self(array_at::<NAME_HASH_LEN>(&digest, 0));
        assert(hash@ =~= digest@.take(10));
        hash
    }

    /// Read a name hash from the front of `slice`, if it is long enough.
    pub fn from_slice(slice: &[u8]) -> (hash: Option<Self>)
        ensures
            match hash {
                Some(h) => slice@.len() >= 10 && h@ == slice@.take(10),
                None => slice@.len() < 10,
            },
    {
        if slice.len() < NAME_HASH_LEN {
            return None;
        }
        let hash = Self(array_at::<NAME_HASH_LEN>(slice, 0));
        assert(hash@ =~= slice@.take(10));
        Some(hash)
    }

    /// The 10 bytes.
    pub fn as_bytes(&self) -> (bytes: &[u8; NAME_HASH_LEN])
        ensures
            bytes@ == self@,
    {
        &self.0
    }

    /// The 10 bytes, as a slice.
    pub fn as_slice(&self) -> (bytes: &[u8])
        ensures
            bytes@ == self@,
    {
        &self.0
    }

    /// The lower-case hexadecimal form.
    pub fn to_string(&self) -> (text: String)
        ensures
            text@ == text::hex_text(self@),
    {
        text::to_hex(&self.0)
    }
}

/// The short forms of one digest agree: a name hash is the front of the address hash of the
/// same data, and both are prefixes of the full digest.
pub proof fn law_truncations_are_prefixes(data: Seq<u8>)
    ensures
        crypto::sha256(data).len() == HASH_LEN ==> {
            &&& address_of(data).is_prefix_of(crypto::sha256(data))
            &&& name_of(data).is_prefix_of(crypto::sha256(data))
            &&& name_of(data).is_prefix_of(address_of(data))
            &&& address_of(data).len() == ADDRESS_HASH_LEN
            &&& name_of(data).len() == NAME_HASH_LEN
        },
{
    if crypto::sha256(data).len() == HASH_LEN {
        assert(address_of(data).take(10) =~= name_of(data));
    }
}

} // verus!
