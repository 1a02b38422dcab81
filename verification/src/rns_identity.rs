//! Reticulum identities: an X25519 key to agree secrets with and an Ed25519 key to sign
//! with, addressed together by one hash.

use crate::bytes;
use crate::crypto;
use crate::hash;
use crate::hash::AddressHash;
use vstd::prelude::*;

verus! {

/// Length of one public key.
pub const KEY_LEN: usize = 32;

/// Length of a signature.
pub const SIGNATURE_LEN: usize = 64;

/// A peer's two public keys.
#[derive(Clone, Copy, Debug, PartialEq, Eq)]
pub struct Identity {
    pub x25519: [u8; KEY_LEN],
    pub ed25519: [u8; KEY_LEN],
}

impl View for Identity {
    type V = Seq<u8>;

    /// The public keys as they go on the wire: X25519, then Ed25519.
    open spec fn view(&self) -> Seq<u8> {
        self.x25519@ + self.ed25519@
    }
}

/// An identity is its two keys, and nothing else.
pub proof fn lemma_identity_ext(a: Identity, b: Identity)
    requires
        a@ == b@,
    ensures
        a == b,
{
    assert(a.x25519@ =~= a@.subrange(0, 32));
    assert(b.x25519@ =~= b@.subrange(0, 32));
    assert(a.ed25519@ =~= a@.subrange(32, 64));
    assert(b.ed25519@ =~= b@.subrange(32, 64));
    assert(a.x25519 =~= b.x25519);
    assert(a.ed25519 =~= b.ed25519);
}

impl Identity {
    /// Read the two public keys from the front of `keys`, if it is long enough.
    pub fn from_public_bytes(keys: &[u8]) -> (identity: Option<Self>)
        ensures
            match identity {
                Some(i) => keys@.len() >= 64 && i@ == keys@.take(64),
                None => keys@.len() < 64,
            },
    {
        if keys.len() < 2 * KEY_LEN {
            return None;
        }
        let identity = Identity {
            x25519: bytes::array_at::<KEY_LEN>(keys, 0),
            ed25519: bytes::array_at::<KEY_LEN>(keys, KEY_LEN),
        };
        assert(identity@ =~= keys@.take(64));
        Some(identity)
    }

    /// The public keys as they go on the wire.
    pub fn to_public_bytes(&self) -> (keys: Vec<u8>)
        ensures
            keys@ == self@,
            keys@.len() == 64,
    {
        let mut keys: Vec<u8> = Vec::new();
        keys.extend_from_slice(&self.x25519);
        keys.extend_from_slice(&self.ed25519);
        assert(keys@ =~= self@);
        keys
    }

    /// The X25519 public key.
    pub fn x25519_bytes(&self) -> (key: &[u8; KEY_LEN])
        ensures
            key@ == self.x25519@,
    {
        &self.x25519
    }

    /// The Ed25519 public key.
    pub fn ed25519_bytes(&self) -> (key: &[u8; KEY_LEN])
        ensures
            key@ == self.ed25519@,
    {
        &self.ed25519
    }

    /// The hash this identity is known by.
    pub fn hash(&self) -> (hash: AddressHash)
        ensures
            hash@ == hash::address_of(self@),
    {
        let keys = self.to_public_bytes();
        AddressHash::of(&keys)
    }

    /// Whether `signature` is this identity's signature over `message`.
    pub fn verify(&self, message: &[u8], signature: &[u8; SIGNATURE_LEN]) -> (valid: bool)
        ensures
            valid == crypto::ed25519_verifies(self.ed25519@, message@, signature@),
    {
        crypto::ed25519_verify(&self.ed25519, message, signature)
    }
}

/// A local identity: the secrets behind an [`Identity`].
pub struct PrivateIdentity {
    x25519_secret: [u8; KEY_LEN],
    ed25519_seed: [u8; KEY_LEN],
    public: Identity,
}

impl Clone for PrivateIdentity {
    fn clone(&self) -> (copy: Self)
        ensures
            copy.secret() == self.secret(),
            copy.seed() == self.seed(),
    {
        proof {
            use_type_invariant(self);
        }
        PrivateIdentity {
            x25519_secret: self.x25519_secret,
            ed25519_seed: self.ed25519_seed,
            public: self.public,
        }
    }
}

impl PrivateIdentity {
    /// The X25519 secret.
    pub closed spec fn secret(self) -> Seq<u8> {
        self.x25519_secret@
    }

    /// The Ed25519 seed.
    pub closed spec fn seed(self) -> Seq<u8> {
        self.ed25519_seed@
    }

    /// The public keys that the secrets give.
    pub open spec fn public_bytes(self) -> Seq<u8> {
        crypto::x25519_public(self.secret()) + crypto::ed25519_public(self.seed())
    }

    /// The public half.
    pub closed spec fn public_identity(self) -> Identity {
        self.public
    }

    #[verifier::type_invariant]
    spec fn consistent(self) -> bool {
        &&& self.public.x25519@ == crypto::x25519_public(self.secret())
        &&& self.public.ed25519@ == crypto::ed25519_public(self.seed())
    }

    /// Build from secrets: `x25519_secret(32) || ed25519_seed(32)`.
    pub fn from_secret_bytes(secrets: &[u8; 64]) -> (identity: Self)
        ensures
            identity.secret() == secrets@.take(32),
            identity.seed() == secrets@.skip(32),
    {
        let x25519_secret: [u8; KEY_LEN] = bytes::array_at::<KEY_LEN>(secrets, 0);
        let ed25519_seed: [u8; KEY_LEN] = bytes::array_at::<KEY_LEN>(secrets, KEY_LEN);
        assert(x25519_secret@ =~= secrets@.take(32));
        assert(ed25519_seed@ =~= secrets@.skip(32));
        let base: [u8; KEY_LEN] = [
            9, 0, 0, 0, 0, 0, 0, 0, 0, 0, 0, 0, 0, 0, 0, 0, 0, 0, 0, 0, 0, 0, 0, 0, 0, 0, 0, 0, 0, 0,
            0, 0,
        ];
        assert(base@ =~= crypto::x25519_base());
        let public = Identity {
            x25519: crypto::x25519(&x25519_secret, &base),
            ed25519: crypto::ed25519_public_key(&ed25519_seed),
        };
        PrivateIdentity { x25519_secret, ed25519_seed, public }
    }

    /// The public half.
    pub fn public(&self) -> (public: &Identity)
        ensures
            *public == self.public_identity(),
            public@ == self.public_bytes(),
            public.x25519@ == crypto::x25519_public(self.secret()),
            public.ed25519@ == crypto::ed25519_public(self.seed()),
    {
        proof {
            use_type_invariant(self);
        }
        &self.public
    }

    /// Sign `message`. The signature verifies under the public half.
    pub fn sign(&self, message: &[u8]) -> (signature: [u8; SIGNATURE_LEN])
        ensures
            signature@ == crypto::ed25519_signature(self.seed(), message@),
            crypto::ed25519_verifies(
                crypto::ed25519_public(self.seed()),
                message@,
                signature@,
            ),
    {
        crypto::ed25519_sign(&self.ed25519_seed, message)
    }

    /// The secret shared with the holder of the X25519 public key `peer`. A peer that is a
    /// `PrivateIdentity` reaches the same secret from our public key.
    pub fn diffie_hellman(&self, peer: &[u8; KEY_LEN]) -> (shared: [u8; 32])
        ensures
            shared@ == crypto::x25519_product(self.secret(), peer@),
            forall|other: Seq<u8>|
                other.len() == 32 && peer@ == #[trigger] crypto::x25519_public(other) ==> shared@
                    == crypto::x25519_product(other, crypto::x25519_public(self.secret())),
    {
        crypto::x25519(&self.x25519_secret, peer)
    }
}

} // verus!
