//! The encrypted token: `IV(16) || AES-256-CBC ciphertext || HMAC-SHA-256(32)`.
//!
//! The two keys come from one shared secret by HKDF, salted with the link id: the first half
//! of the output authenticates, the second half encrypts. The code covers the IV and the
//! ciphertext, and it is checked before anything is decrypted.

use crate::bytes;
use crate::crypto;
use crate::error::Error;
use crate::hash::AddressHash;
use vstd::prelude::*;

verus! {

/// Length of an initialization vector.
pub const IV_LEN: usize = 16;

/// Length of the authentication code.
pub const HMAC_LEN: usize = 32;

/// The token that seals `plain` under 64 bytes of key material.
pub open spec fn sealed(keys: Seq<u8>, iv: Seq<u8>, plain: Seq<u8>) -> Seq<u8> {
    let body = iv + crypto::aes256_cbc_encrypted(keys.skip(32), iv, plain);
    body + crypto::hmac_sha256(keys.take(32), body)
}

/// What opening `token` under 64 bytes of key material gives.
pub open spec fn opened(keys: Seq<u8>, token: Seq<u8>) -> Result<Seq<u8>, Error> {
    if token.len() < 48 {
        Err(Error::Truncated)
    } else {
        let body = token.take(token.len() - 32);
        if crypto::hmac_sha256(keys.take(32), body) != token.skip(token.len() - 32) {
            Err(Error::BadHmac)
        } else {
            match crypto::aes256_cbc_decrypted(keys.skip(32), body.take(16), body.skip(16)) {
                Some(plain) => Ok(plain),
                None => Err(Error::BadPadding),
            }
        }
    }
}

/// The keys of one link.
pub struct DerivedKeys {
    signing: [u8; 32],
    encryption: [u8; 32],
}

impl View for DerivedKeys {
    type V = Seq<u8>;

    /// The 64 bytes of key material.
    closed spec fn view(&self) -> Seq<u8> {
        self.signing@ + self.encryption@
    }
}

impl Clone for DerivedKeys {
    fn clone(&self) -> (copy: Self)
        ensures
            copy@ == self@,
    {
        DerivedKeys { signing: self.signing, encryption: self.encryption }
    }
}

impl DerivedKeys {
    /// Derive the keys of the link `link_id` from the secret its two ends share.
    pub fn derive(shared: &[u8; 32], link_id: AddressHash) -> (keys: Self)
        ensures
            keys@ == crypto::hkdf_sha256(link_id@, shared@),
    {
        let okm: [u8; 64] = crypto::hkdf_expand(link_id.as_slice(), shared);
        let keys = DerivedKeys {
            signing: bytes::array_at::<32>(&okm, 0),
            encryption: bytes::array_at::<32>(&okm, 32),
        };
        assert(keys@ =~= okm@);
        keys
    }

    /// Seal `plain` into a token. The same keys open it to `plain` again.
    pub fn encrypt(&self, plain: &[u8], iv: &[u8; IV_LEN]) -> (token: Vec<u8>)
        ensures
            token@ == sealed(self@, iv@, plain@),
            opened(self@, token@) == Ok::<Seq<u8>, Error>(plain@),
            token@.len() == 48 + (plain@.len() / 16 + 1) * 16,
    {
        assert(self@.take(32) =~= self.signing@);
        assert(self@.skip(32) =~= self.encryption@);
        let cipher: Vec<u8> = crypto::aes256_cbc_encrypt(&self.encryption, iv, plain);
        let mut token: Vec<u8> = Vec::new();
        token.extend_from_slice(iv);
        token.extend_from_slice(&cipher);
        let ghost body = iv@ + cipher@;
        assert(token@ =~= body);
        let code: [u8; 32] = crypto::hmac_code(&self.signing, &token);
        token.extend_from_slice(&code);
        assert(token@ =~= body + code@);
        proof {
            assert(token@.take(token@.len() - 32) =~= body);
            assert(token@.skip(token@.len() - 32) =~= code@);
            assert(body.take(16) =~= iv@);
            assert(body.skip(16) =~= cipher@);
        }
        token
    }

    /// Open a token. Too few bytes, a code that does not match, and malformed padding are
    /// each their own error, found in that order.
    pub fn decrypt(&self, token: &[u8]) -> (plain: Result<Vec<u8>, Error>)
        ensures
            match plain {
                Ok(p) => opened(self@, token@) == Ok::<Seq<u8>, Error>(p@),
                Err(e) => opened(self@, token@) == Err::<Seq<u8>, Error>(e),
            },
    {
        assert(self@.take(32) =~= self.signing@);
        assert(self@.skip(32) =~= self.encryption@);
        let len: usize = token.len();
        if len < IV_LEN + HMAC_LEN {
            return Err(Error::Truncated);
        }
        let body: &[u8] = vstd::slice::slice_subrange(token, 0, len - HMAC_LEN);
        let code: &[u8] = vstd::slice::slice_subrange(token, len - HMAC_LEN, len);
        assert(body@ =~= token@.take(len - 32));
        assert(code@ =~= token@.skip(len - 32));
        let expected: [u8; 32] = crypto::hmac_code(&self.signing, body);
        if !bytes::same_bytes(&expected, code) {
            return Err(Error::BadHmac);
        }
        let iv: [u8; IV_LEN] = bytes::array_at::<IV_LEN>(body, 0);
        let cipher: &[u8] = vstd::slice::slice_subrange(body, IV_LEN, body.len());
        assert(iv@ =~= body@.take(16));
        assert(cipher@ =~= body@.skip(16));
        match crypto::aes256_cbc_decrypt(&self.encryption, &iv, cipher) {
            Some(plain) => Ok(plain),
            None => Err(Error::BadPadding),
        }
    }
}

/// What opens was sealed by a holder of the keys, whole: the last 32 bytes are the code of all the
/// bytes before them, and what comes out is the decryption of everything between the IV and the
/// code.
pub proof fn law_what_opens_is_authenticated(keys: Seq<u8>, token: Seq<u8>)
    ensures
        opened(keys, token) matches Ok(plain) ==> {
            let end = token.len() - 32;
            &&& token.len() >= 48
            &&& crypto::hmac_sha256(keys.subrange(0, 32), token.subrange(0, end))
                == token.subrange(end, token.len() as int)
            &&& keys.len() == 64 ==> crypto::aes256_cbc_decrypted(
                keys.subrange(32, 64),
                token.subrange(0, 16),
                token.subrange(16, end),
            ) == Some(plain)
        },
{
    if opened(keys, token) is Ok {
        let end = token.len() - 32;
        let body = token.take(end);
        assert(token.subrange(0, end) =~= body);
        assert(token.skip(end) =~= token.subrange(end, token.len() as int));
        assert(body.take(16) =~= token.subrange(0, 16));
        assert(body.skip(16) =~= token.subrange(16, end));
        assert(keys.take(32) =~= keys.subrange(0, 32));
        if keys.len() == 64 {
            assert(keys.skip(32) =~= keys.subrange(32, 64));
        }
    }
}

} // verus!
