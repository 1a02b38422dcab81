//! ADVERT payloads: a node advertising its identity.
//!
//! Wire layout inside an ADVERT packet payload:
//!
//! ```text
//! [pub_key 32] [timestamp u32 LE] [signature 64] [app_data 0..=32]
//! ```
//!
//! The signature covers `pub_key || timestamp || app_data` (everything except itself). Receivers
//! drop adverts whose signature does not verify.

use crate::bytes;
use crate::crypto;
use crate::identity::{Identity, LocalIdentity, PUB_KEY_SIZE, SIGNATURE_SIZE};
use vstd::prelude::*;
use vstd::slice::slice_subrange;

verus! {

/// Maximum app-data bytes carried by an advert.
pub const MAX_ADVERT_DATA: usize = 32;

/// Where the app data begins.
const APP_DATA_AT: usize = 100;

/// A decoded, signature-verified advert.
#[derive(Debug, PartialEq, Eq)]
pub struct Advert {
    pub identity: Identity,
    /// Sender's clock at emission, seconds (u32, little-endian on the wire).
    pub timestamp: u32,
    pub app_data: Vec<u8>,
}

/// What an advert says.
#[verifier::ext_equal]
pub struct AdvertModel {
    pub public: Seq<u8>,
    pub timestamp: u32,
    pub app_data: Seq<u8>,
}

impl View for Advert {
    type V = AdvertModel;

    open spec fn view(&self) -> AdvertModel {
        AdvertModel {
            public: self.identity@,
            timestamp: self.timestamp,
            app_data: self.app_data@,
        }
    }
}

impl Clone for Advert {
    fn clone(&self) -> (copy: Self)
        ensures
            copy@ == self@,
    {
        Advert {
            identity: self.identity,
            timestamp: self.timestamp,
            app_data: bytes::copy_all(self.app_data.as_slice()),
        }
    }
}

impl AdvertModel {
    /// What the signature covers.
    pub open spec fn message(self) -> Seq<u8> {
        self.public + bytes::le_bytes(self.timestamp as nat, 4) + self.app_data
    }

    /// The payload, with `signature` in place.
    pub open spec fn payload(self, signature: Seq<u8>) -> Seq<u8> {
        self.public + bytes::le_bytes(self.timestamp as nat, 4) + signature + self.app_data
    }
}

/// The app data of a payload: what follows the signature, cut to [`MAX_ADVERT_DATA`].
pub open spec fn carried(payload: Seq<u8>) -> Seq<u8> {
    let rest = payload.skip(100);
    if rest.len() > MAX_ADVERT_DATA {
        rest.take(MAX_ADVERT_DATA as int)
    } else {
        rest
    }
}

/// What a payload says, signed or not.
pub open spec fn stated(payload: Seq<u8>) -> AdvertModel {
    AdvertModel {
        public: payload.take(32),
        timestamp: bytes::le_value(payload.subrange(32, 36)) as u32,
        app_data: carried(payload),
    }
}

/// Whether a payload is complete and its signature valid.
pub open spec fn genuine(payload: Seq<u8>) -> bool {
    payload.len() >= 100 && crypto::ed25519_verifies(
        payload.take(32),
        stated(payload).message(),
        payload.subrange(36, 100),
    )
}

fn message_bytes(pub_key: &[u8; PUB_KEY_SIZE], timestamp: u32, app_data: &[u8]) -> (message: Vec<
    u8,
>)
    ensures
        message@ == (AdvertModel { public: pub_key@, timestamp, app_data: app_data@ }).message(),
{
    let mut message: Vec<u8> = Vec::new();
    message.extend_from_slice(pub_key);
    bytes::push_le(&mut message, timestamp as u64, 4);
    message.extend_from_slice(app_data);
    assert(message@ =~= pub_key@ + bytes::le_bytes(timestamp as nat, 4) + app_data@);
    message
}

impl Advert {
    /// Build and sign an advert payload, ready to place in an ADVERT packet. Returns `None` if
    /// `app_data` exceeds [`MAX_ADVERT_DATA`].
    pub fn encode(id: &LocalIdentity, timestamp: u32, app_data: &[u8]) -> (payload: Option<Vec<u8>>)
        ensures
            payload is None <==> app_data@.len() > MAX_ADVERT_DATA,
            payload matches Some(p) ==> {
                let advert = AdvertModel {
                    public: crypto::ed25519_public(id@),
                    timestamp,
                    app_data: app_data@,
                };
                &&& p@ == advert.payload(crypto::ed25519_signature(id@, advert.message()))
                &&& genuine(p@)
                &&& stated(p@) == advert
            },
    {
        if app_data.len() > MAX_ADVERT_DATA {
            return None;
        }
        let pub_key: [u8; PUB_KEY_SIZE] = id.identity().pub_key;
        let message = message_bytes(&pub_key, timestamp, app_data);
        let sig: [u8; SIGNATURE_SIZE] = id.sign(message.as_slice());
        let mut out: Vec<u8> = Vec::new();
        out.extend_from_slice(&pub_key);
        bytes::push_le(&mut out, timestamp as u64, 4);
        out.extend_from_slice(&sig);
        out.extend_from_slice(app_data);
        proof {
            let advert = AdvertModel { public: pub_key@, timestamp, app_data: app_data@ };
            assert(out@ =~= advert.payload(sig@));
            law_adverts_round_trip(advert, sig@);
        }
        Some(out)
    }

    /// Decode an ADVERT packet payload and verify its signature. `None` for truncated payloads
    /// or forged signatures. App data beyond [`MAX_ADVERT_DATA`] is truncated before
    /// verification.
    pub fn decode(payload: &[u8]) -> (advert: Option<Advert>)
        ensures
            advert is Some <==> genuine(payload@),
            advert matches Some(a) ==> a@ == stated(payload@),
    {
        let len: usize = payload.len();
        if len < APP_DATA_AT {
            return None;
        }
        let pub_key: [u8; PUB_KEY_SIZE] = bytes::array_at::<32>(payload, 0);
        assert(pub_key@ =~= payload@.take(32));
        let field = slice_subrange(payload, 32, 36);
        let timestamp: u64 = bytes::read_le(field);
        let sig = slice_subrange(payload, 36, APP_DATA_AT);
        let end: usize = if len - APP_DATA_AT > MAX_ADVERT_DATA {
            APP_DATA_AT + MAX_ADVERT_DATA
        } else {
            len
        };
        let app_data = bytes::copy_range(payload, APP_DATA_AT, end);
        proof {
            assert(app_data@ =~= carried(payload@));
            bytes::lemma_be_value_bound(field@.reverse());
            bytes::lemma_byte_spans();
        }
        let identity = Identity::new(pub_key);
        let message = message_bytes(&pub_key, timestamp as u32, app_data.as_slice());
        if !identity.verify(sig, message.as_slice()) {
            return None;
        }
        Some(Advert { identity, timestamp: timestamp as u32, app_data })
    }
}

/// A payload states what was put in it, whatever its signature; it is genuine exactly when that
/// signature is valid over what it states.
pub proof fn law_adverts_round_trip(advert: AdvertModel, signature: Seq<u8>)
    requires
        advert.public.len() == PUB_KEY_SIZE,
        signature.len() == SIGNATURE_SIZE,
        advert.app_data.len() <= MAX_ADVERT_DATA,
    ensures
        stated(advert.payload(signature)) == advert,
        genuine(advert.payload(signature)) == crypto::ed25519_verifies(
            advert.public,
            advert.message(),
            signature,
        ),
{
    let p = advert.payload(signature);
    let stamp = bytes::le_bytes(advert.timestamp as nat, 4);
    bytes::lemma_le_bytes_len(advert.timestamp as nat, 4);
    bytes::lemma_byte_spans();
    bytes::lemma_le_round_trip(advert.timestamp as nat, 4);
    assert(p.take(32) =~= advert.public);
    assert(p.subrange(32, 36) =~= stamp);
    assert(p.subrange(36, 100) =~= signature);
    assert(p.skip(100) =~= advert.app_data);
    assert(stated(p) =~= advert);
}

/// A truncated payload is never genuine.
pub proof fn law_truncated_adverts_are_refused(payload: Seq<u8>)
    requires
        payload.len() < 100,
    ensures
        !genuine(payload),
{
}

/// An advert is signed whole and says what its payload says, up to 32 bytes of app data: the
/// signature covers the key, the time and all the app data that is carried.
pub proof fn law_adverts_are_signed_whole(payload: Seq<u8>)
    requires
        payload.len() >= 100,
    ensures
        ({
            let end: int = if payload.len() > 132 {
                132
            } else {
                payload.len() as int
            };
            let said = stated(payload);
            &&& said.public == payload.subrange(0, 32)
            &&& said.timestamp == bytes::le_value(payload.subrange(32, 36))
            &&& said.app_data == payload.subrange(100, end)
            &&& genuine(payload) <==> crypto::ed25519_verifies(
                payload.subrange(0, 32),
                payload.subrange(0, 36) + payload.subrange(100, end),
                payload.subrange(36, 100),
            )
        }),
{
    let end: int = if payload.len() > 132 {
        132
    } else {
        payload.len() as int
    };
    let said = stated(payload);
    assert(said.app_data =~= payload.subrange(100, end));
    assert(said.public =~= payload.subrange(0, 32));
    let field = payload.subrange(32, 36);
    bytes::lemma_be_value_bound(field.reverse());
    bytes::lemma_byte_spans();
    bytes::lemma_le_value_spelled(field);
    assert(said.message() =~= payload.subrange(0, 36) + payload.subrange(100, end));
}

} // verus!
