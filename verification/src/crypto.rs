//! The cryptographic primitives, each taken from an outside crate.
//!
//! Every function here is trusted: its contract is believed, not proved. A contract names
//! the primitive's result as a function of its arguments and adds the few algebraic facts
//! that the protocol rests on (a signature made with a key verifies under that key,
//! decryption undoes encryption, both ends of an exchange reach one secret).

use aes::cipher::block_padding::Pkcs7;
use aes::cipher::{BlockDecryptMut, BlockEncryptMut, KeyIvInit, StreamCipher};
use curve25519_dalek::edwards::CompressedEdwardsY;
use ed25519_dalek::{Signature, Signer, SigningKey, Verifier, VerifyingKey};
use hmac::Mac;
use sha2::Digest;
use vstd::prelude::*;

verus! {

/// The SHA-256 digest of `data`.
pub uninterp spec fn sha256(data: Seq<u8>) -> Seq<u8>;

/// The SHA-512 digest of `data`.
pub uninterp spec fn sha512(data: Seq<u8>) -> Seq<u8>;

/// The HMAC-SHA-256 code of `message` under `key`.
pub uninterp spec fn hmac_sha256(key: Seq<u8>, message: Seq<u8>) -> Seq<u8>;

/// 64 bytes of HKDF-SHA-256 output from `secret`, salted with `salt`, with empty info.
pub uninterp spec fn hkdf_sha256(salt: Seq<u8>, secret: Seq<u8>) -> Seq<u8>;

/// The Ed25519 public key of a 32-byte seed.
pub uninterp spec fn ed25519_public(seed: Seq<u8>) -> Seq<u8>;

/// The Ed25519 signature over `message` with the key of `seed`.
pub uninterp spec fn ed25519_signature(seed: Seq<u8>, message: Seq<u8>) -> Seq<u8>;

/// Whether `signature` is a valid Ed25519 signature over `message` under `public`.
pub uninterp spec fn ed25519_verifies(
    public: Seq<u8>,
    message: Seq<u8>,
    signature: Seq<u8>,
) -> bool;

/// The X25519 function of RFC 7748.
pub uninterp spec fn x25519_product(scalar: Seq<u8>, point: Seq<u8>) -> Seq<u8>;

/// The X25519 product of a scalar with an Ed25519 public key carried over to Montgomery
/// form, if the key is a curve point.
pub uninterp spec fn edwards_product(scalar: Seq<u8>, public: Seq<u8>) -> Option<Seq<u8>>;

/// The AES-256-CBC encryption of `plain`, padded by PKCS #7.
pub uninterp spec fn aes256_cbc_encrypted(key: Seq<u8>, iv: Seq<u8>, plain: Seq<u8>) -> Seq<u8>;

/// The AES-256-CBC decryption of `cipher`, if its length and padding are right.
pub uninterp spec fn aes256_cbc_decrypted(key: Seq<u8>, iv: Seq<u8>, cipher: Seq<u8>) -> Option<
    Seq<u8>,
>;

/// `data` under the AES-128 counter-mode keystream that starts at `counter`.
pub uninterp spec fn aes128_ctr_applied(key: Seq<u8>, counter: Seq<u8>, data: Seq<u8>) -> Seq<u8>;

/// `data` under the AES-256 counter-mode keystream that starts at `counter`.
pub uninterp spec fn aes256_ctr_applied(key: Seq<u8>, counter: Seq<u8>, data: Seq<u8>) -> Seq<u8>;

/// The u-coordinate of the X25519 base point.
pub open spec fn x25519_base() -> Seq<u8> {
    Seq::new(32, |i: int| if i == 0 { 9u8 } else { 0u8 })
}

/// The X25519 public key of a secret.
pub open spec fn x25519_public(secret: Seq<u8>) -> Seq<u8> {
    x25519_product(secret, x25519_base())
}

/// 32 bytes with the bits set and cleared that make them a valid X25519 scalar.
pub open spec fn clamped(s: Seq<u8>) -> Seq<u8> {
    Seq::new(
        32,
        |i: int|
            if i == 0 {
                s[0] & 248
            } else if i == 31 {
                (s[31] & 127) | 64
            } else {
                s[i]
            },
    )
}

/// The scalar of an Ed25519 seed: the clamped first half of its SHA-512 digest.
pub open spec fn ed25519_scalar(seed: Seq<u8>) -> Seq<u8> {
    clamped(sha512(seed))
}

/// `sha2::Sha256::digest`: the result is the digest of the argument.
#[verifier::external_body]
pub(crate) fn sha256_digest(data: &[u8]) -> (digest: [u8; 32])
    ensures
        digest@ == sha256(data@),
{
    sha2::Sha256::digest(data).into()
}

/// `sha2::Sha512::digest`: the result is the digest of the argument.
#[verifier::external_body]
pub(crate) fn sha512_digest(data: &[u8]) -> (digest: [u8; 64])
    ensures
        digest@ == sha512(data@),
{
    sha2::Sha512::digest(data).into()
}

/// `hmac::Hmac<Sha256>`, keyed with `key` and fed `message`: the result is the code.
/// Keys of every length are accepted.
#[verifier::external_body]
pub(crate) fn hmac_code(key: &[u8; 32], message: &[u8]) -> (code: [u8; 32])
    ensures
        code@ == hmac_sha256(key@, message@),
{
    let mut mac = hmac::Hmac::<sha2::Sha256>::new_from_slice(key).expect("any key length");
    mac.update(message);
    mac.finalize().into_bytes().into()
}

/// `hkdf::Hkdf<Sha256>::new` and `expand` with empty info, to 64 bytes: the result is that
/// output. 64 bytes are far below the length at which `expand` fails.
#[verifier::external_body]
pub(crate) fn hkdf_expand(salt: &[u8], secret: &[u8]) -> (okm: [u8; 64])
    ensures
        okm@ == hkdf_sha256(salt@, secret@),
{
    let mut okm = [0u8; 64];
    hkdf::Hkdf::<sha2::Sha256>::new(Some(salt), secret).expand(&[], &mut okm).expect("64 bytes");
    okm
}

/// `ed25519_dalek::SigningKey::from_bytes` and `verifying_key`: the result is the public
/// key of the seed.
#[verifier::external_body]
pub(crate) fn ed25519_public_key(seed: &[u8; 32]) -> (public: [u8; 32])
    ensures
        public@ == ed25519_public(seed@),
{
    SigningKey::from_bytes(seed).verifying_key().to_bytes()
}

/// `ed25519_dalek::SigningKey::sign`: the result is the signature, and it verifies under
/// the public key of the same seed.
#[verifier::external_body]
pub(crate) fn ed25519_sign(seed: &[u8; 32], message: &[u8]) -> (signature: [u8; 64])
    ensures
        signature@ == ed25519_signature(seed@, message@),
        ed25519_verifies(ed25519_public(seed@), message@, signature@),
{
    SigningKey::from_bytes(seed).sign(message).to_bytes()
}

/// `ed25519_dalek::VerifyingKey::from_bytes` and `verify`: true when the key decodes and
/// the signature is valid.
#[verifier::external_body]
pub(crate) fn ed25519_verify(public: &[u8; 32], message: &[u8], signature: &[u8; 64]) -> (valid:
    bool)
    ensures
        valid == ed25519_verifies(public@, message@, signature@),
{
    match VerifyingKey::from_bytes(public) {
        Ok(key) => key.verify(message, &Signature::from_bytes(signature)).is_ok(),
        Err(_) => false,
    }
}

/// `x25519_dalek::x25519`: the result is the X25519 function of the arguments. When the
/// point is the public key of some secret, the two secrets commute, which is the
/// Diffie-Hellman agreement that the crate documents.
#[verifier::external_body]
pub(crate) fn x25519(scalar: &[u8; 32], point: &[u8; 32]) -> (product: [u8; 32])
    ensures
        product@ == x25519_product(scalar@, point@),
        forall|other: Seq<u8>|
            other.len() == 32 && point@ == #[trigger] x25519_public(other) ==> product@
                == x25519_product(other, x25519_public(scalar@)),
{
    x25519_dalek::x25519(*scalar, *point)
}

/// `curve25519_dalek`: `CompressedEdwardsY::decompress`, `to_montgomery` and `mul_clamped`.
/// `None` when the key is no curve point. Between two Ed25519 key pairs the product is the
/// same from either side, each side's scalar being that of its seed.
#[verifier::external_body]
pub(crate) fn edwards_shared(scalar: &[u8; 32], public: &[u8; 32]) -> (shared: Option<[u8; 32]>)
    ensures
        match shared {
            Some(s) => edwards_product(scalar@, public@) == Some(s@),
            None => edwards_product(scalar@, public@) is None,
        },
        forall|mine: Seq<u8>, theirs: Seq<u8>|
            mine.len() == 32 && theirs.len() == 32 && scalar@ == #[trigger] ed25519_scalar(mine)
                && public@ == #[trigger] ed25519_public(theirs) ==> match shared {
                Some(s) => edwards_product(ed25519_scalar(theirs), ed25519_public(mine)) == Some(
                    s@,
                ),
                None => false,
            },
{
    let point = CompressedEdwardsY(*public).decompress()?.to_montgomery();
    Some(point.mul_clamped(*scalar).to_bytes())
}

/// `cbc::Encryptor<Aes256>::encrypt_padded_vec_mut` with PKCS #7: the result is whole
/// blocks, one to sixteen bytes longer than the plaintext, and decrypts to it.
#[verifier::external_body]
pub(crate) fn aes256_cbc_encrypt(key: &[u8; 32], iv: &[u8; 16], plain: &[u8]) -> (cipher: Vec<u8>)
    ensures
        cipher@ == aes256_cbc_encrypted(key@, iv@, plain@),
        cipher@.len() == (plain@.len() / 16 + 1) * 16,
        aes256_cbc_decrypted(key@, iv@, cipher@) == Some(plain@),
{
    cbc::Encryptor::<aes::Aes256>::new(key.into(), iv.into()).encrypt_padded_vec_mut::<Pkcs7>(plain)
}

/// `cbc::Decryptor<Aes256>::decrypt_padded_vec_mut` with PKCS #7: the plaintext, or `None`
/// where the outside function reports malformed padding or length.
#[verifier::external_body]
pub(crate) fn aes256_cbc_decrypt(key: &[u8; 32], iv: &[u8; 16], cipher: &[u8]) -> (plain: Option<
    Vec<u8>,
>)
    ensures
        match plain {
            Some(p) => aes256_cbc_decrypted(key@, iv@, cipher@) == Some(p@),
            None => aes256_cbc_decrypted(key@, iv@, cipher@) is None,
        },
{
    let decryptor = cbc::Decryptor::<aes::Aes256>::new(key.into(), iv.into());
    decryptor.decrypt_padded_vec_mut::<Pkcs7>(cipher).ok()
}

/// `ctr::Ctr128BE<Aes128>::apply_keystream`: the bytes under the keystream, as many as went
/// in. Applying it a second time gives the input back.
#[verifier::external_body]
pub(crate) fn aes128_ctr_apply(key: &[u8; 16], counter: &[u8; 16], data: &[u8]) -> (out: Vec<u8>)
    ensures
        out@ == aes128_ctr_applied(key@, counter@, data@),
        out@.len() == data@.len(),
        aes128_ctr_applied(key@, counter@, out@) == data@,
{
    let mut out = data.to_vec();
    ctr::Ctr128BE::<aes::Aes128>::new(key.into(), counter.into()).apply_keystream(&mut out);
    out
}

/// `ctr::Ctr128BE<Aes256>::apply_keystream`: as for the 128-bit key.
#[verifier::external_body]
pub(crate) fn aes256_ctr_apply(key: &[u8; 32], counter: &[u8; 16], data: &[u8]) -> (out: Vec<u8>)
    ensures
        out@ == aes256_ctr_applied(key@, counter@, data@),
        out@.len() == data@.len(),
        aes256_ctr_applied(key@, counter@, out@) == data@,
{
    let mut out = data.to_vec();
    ctr::Ctr128BE::<aes::Aes256>::new(key.into(), counter.into()).apply_keystream(&mut out);
    out
}

/// Clamping keeps the scalar that the digest gives but for five bits: the lowest three are cleared,
/// the highest is cleared and the one below it set.
pub proof fn law_clamping_changes_five_bits(seed: Seq<u8>, i: int)
    requires
        sha512(seed).len() == 64,
    ensures
        ({
            let scalar = ed25519_scalar(seed);
            let digest = sha512(seed);
            &&& scalar.len() == 32
            &&& 0 < i < 31 ==> scalar[i] == digest[i]
            &&& scalar[0] % 8 == 0
            &&& scalar[0] / 8 == digest[0] / 8
            &&& 64 <= scalar[31] < 128
            &&& scalar[31] % 64 == digest[31] % 64
        }),
{
    let low = sha512(seed)[0];
    let high = sha512(seed)[31];
    assert((low & 248) % 8 == 0 && (low & 248) / 8 == low / 8) by (bit_vector);
    assert(64 <= ((high & 127) | 64) < 128 && ((high & 127) | 64) % 64 == high % 64)
        by (bit_vector);
}

} // verus!
