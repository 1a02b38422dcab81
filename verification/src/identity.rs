//! MeshCore identities: Ed25519 keys, node hashes, signing.
//!
//! A node's mesh hash is simply a prefix of its public key (1 byte at the current path-hash
//! size), so hash collision handling is a protocol fact of life, not an error. Signatures are
//! standard Ed25519 (RFC 8032).

use crate::bytes;
use crate::crypto;
use vstd::prelude::*;
use vstd::slice::slice_subrange;

verus! {

/// Bytes of a public key.
pub const PUB_KEY_SIZE: usize = 32;

/// Bytes of a signature.
pub const SIGNATURE_SIZE: usize = 64;

/// Current path-hash size (bytes of pub key prefix used as the node hash).
pub const PATH_HASH_SIZE: usize = 1;

/// A remote party: public key only, signatures can be verified.
#[derive(Debug, Clone, Copy, PartialEq, Eq)]
pub struct Identity {
    pub pub_key: [u8; PUB_KEY_SIZE],
}

impl View for Identity {
    type V = Seq<u8>;

    open spec fn view(&self) -> Seq<u8> {
        self.pub_key@
    }
}

impl Identity {
    pub fn new(pub_key: [u8; PUB_KEY_SIZE]) -> (identity: Self)
        ensures
            identity.pub_key == pub_key,
    {
        Identity { pub_key }
    }

    /// The node hash: a prefix of the public key.
    pub fn hash(&self) -> (hash: [u8; PATH_HASH_SIZE])
        ensures
            hash@ == self@.take(PATH_HASH_SIZE as int),
    {
        let hash: [u8; PATH_HASH_SIZE] = [self.pub_key[0]];
        assert(hash@ =~= self@.take(1));
        hash
    }

    /// Whether `hash` is a prefix of the public key.
    pub fn hash_matches(&self, hash: &[u8]) -> (matched: bool)
        ensures
            matched == hash@.is_prefix_of(self@),
    {
        let len: usize = hash.len();
        if len > PUB_KEY_SIZE {
            return false;
        }
        let prefix = slice_subrange(self.pub_key.as_slice(), 0, len);
        assert(prefix@ =~= self@.take(len as int));
        bytes::same_bytes(prefix, hash)
    }

    /// Ed25519 signature verification. False for malformed keys or sigs.
    pub fn verify(&self, sig: &[u8], message: &[u8]) -> (valid: bool)
        ensures
            valid == (sig@.len() == SIGNATURE_SIZE && crypto::ed25519_verifies(
                self@,
                message@,
                sig@,
            )),
    {
        if sig.len() != SIGNATURE_SIZE {
            return false;
        }
        let signature: [u8; 64] = bytes::array_at::<64>(sig, 0);
        assert(signature@ =~= sig@);
        crypto::ed25519_verify(&self.pub_key, message, &signature)
    }
}

/// A local party: keypair on this device, can sign and derive shared secrets.
pub struct LocalIdentity {
    seed: [u8; 32],
    /// The public key of the seed.
    public: [u8; 32],
    /// The X25519 scalar for ECDH: the clamped `SHA512(seed)[0..32]`, the first half of the
    /// expanded 64-byte private key.
    x25519_scalar: [u8; 32],
}

impl View for LocalIdentity {
    type V = Seq<u8>;

    /// A local identity is its seed.
    closed spec fn view(&self) -> Seq<u8> {
        self.seed@
    }
}

impl LocalIdentity {
    #[verifier::type_invariant]
    closed spec fn well_formed(&self) -> bool {
        &&& self.public@ == crypto::ed25519_public(self.seed@)
        &&& self.x25519_scalar@ == crypto::ed25519_scalar(self.seed@)
    }

    /// Build from a 32-byte Ed25519 seed (the caller owns seed generation and storage; this
    /// crate draws no randomness here).
    pub fn from_seed(seed: [u8; 32]) -> (local: Self)
        ensures
            local@ == seed@,
    {
        // The Ed25519 secret scalar is the clamped first half of SHA512(seed); this is what is
        // fed to X25519 for ECDH.
        let hash: [u8; 64] = crypto::sha512_digest(&seed);
        let mut scalar: [u8; 32] = bytes::array_at::<32>(&hash, 0);
        assert(forall|i: int| 0 <= i < 32 ==> scalar@[i] == hash@[i]);
        let first: u8 = scalar[0];
        let last: u8 = scalar[31];
        scalar[0] = first & 248;
        scalar[31] = (last & 127) | 64;
        assert(scalar@ =~= crypto::ed25519_scalar(seed@));
        LocalIdentity {
            seed,
            public: crypto::ed25519_public_key(&seed),
            x25519_scalar: scalar,
        }
    }

    /// The public side.
    pub fn identity(&self) -> (identity: Identity)
        ensures
            identity@ == crypto::ed25519_public(self@),
    {
        proof {
            use_type_invariant(self);
        }
        Identity::new(self.public)
    }

    /// Sign a message. The signature verifies under [`identity`](Self::identity).
    pub fn sign(&self, message: &[u8]) -> (signature: [u8; SIGNATURE_SIZE])
        ensures
            signature@ == crypto::ed25519_signature(self@, message@),
            crypto::ed25519_verifies(crypto::ed25519_public(self@), message@, signature@),
    {
        crypto::ed25519_sign(&self.seed, message)
    }

    /// The ECDH shared secret with `peer`: X25519 Diffie-Hellman over the Ed25519 keys
    /// transposed to Montgomery form (`u = (1 + y) / (1 - y)`). Returns `None` if the peer's key
    /// is not a valid curve point. The 32-byte result is the key material for the per-pair
    /// cipher.
    ///
    /// Two local identities reach one secret, each from the other's public key.
    pub fn shared_secret(&self, peer: &Identity) -> (secret: Option<[u8; 32]>)
        ensures
            match secret {
                Some(s) => crypto::edwards_product(crypto::ed25519_scalar(self@), peer@) == Some(
                    s@,
                ),
                None => crypto::edwards_product(crypto::ed25519_scalar(self@), peer@) is None,
            },
            forall|theirs: Seq<u8>|
                theirs.len() == 32 && peer@ == #[trigger] crypto::ed25519_public(theirs)
                    ==> secret is Some && crypto::edwards_product(
                    crypto::ed25519_scalar(theirs),
                    crypto::ed25519_public(self@),
                ) == Some(secret->0@),
    {
        proof {
            use_type_invariant(self);
        }
        let secret = crypto::edwards_shared(&self.x25519_scalar, &peer.pub_key);
        proof {
            assert forall|theirs: Seq<u8>|
                theirs.len() == 32 && peer@ == #[trigger] crypto::ed25519_public(
                    theirs,
                ) implies secret is Some && crypto::edwards_product(
                crypto::ed25519_scalar(theirs),
                crypto::ed25519_public(self@),
            ) == Some(secret->0@) by {
                assert(self.x25519_scalar@ == crypto::ed25519_scalar(self@));
            }
        }
        secret
    }
}

/// The node hash always matches its own identity.
pub proof fn law_own_hash_matches(public: Seq<u8>)
    requires
        public.len() == PUB_KEY_SIZE,
    ensures
        public.take(PATH_HASH_SIZE as int).is_prefix_of(public),
{
    assert(public.take(1) =~= public.subrange(0, 1));
}

} // verus!
