//! Randomness from the operating system.
//!
//! Link ephemeral secrets and AES IVs depend on this being unpredictable — the whole link's
//! secrecy rests on the ephemeral key an eavesdropper must not be able to guess — so a failure
//! to obtain entropy is an error that callers treat as fatal: there are no weak bytes to fall
//! back on.

use crate::announce::RAND_HASH_LEN;
use crate::bytes;
use crate::error::Error;
use crate::token::IV_LEN;
use vstd::prelude::*;

verus! {

/// `getrandom::getrandom`: `len` bytes from the operating system's generator, or `None` if it
/// could not supply them. Asking for no bytes always succeeds. Nothing is claimed of the bytes
/// themselves.
#[verifier::external_body]
fn os_random(len: usize) -> (drawn: Option<Vec<u8>>)
    ensures
        drawn matches Some(bytes) ==> bytes@.len() == len,
        len == 0 ==> drawn is Some,
{
    let mut buf = vec![0u8; len];
    getrandom::getrandom(&mut buf).ok()?;
    Some(buf)
}

/// What the operating system's generator may answer when asked for `len` bytes.
pub closed spec fn os_gives(len: usize, draw: Option<Vec<u8>>) -> bool {
    call_ensures(os_random, (len,), draw)
}

/// What a draw amounts to: the very bytes drawn, or an error where there were none.
pub open spec fn taken<const N: usize>(
    draw: Option<Vec<u8>>,
    drawn: Result<[u8; N], Error>,
) -> bool {
    match draw {
        Some(bytes) => drawn matches Ok(array) && array@ == bytes@,
        None => drawn == Err::<[u8; N], Error>(Error::NoEntropy),
    }
}

/// The bytes of a draw, as an array; an error where the generator had none to give.
pub fn take_draw<const N: usize>(draw: Option<Vec<u8>>) -> (drawn: Result<[u8; N], Error>)
    requires
        draw matches Some(bytes) ==> bytes@.len() == N,
    ensures
        taken(draw, drawn),
{
    match draw {
        Some(bytes) => {
            let array = bytes::array_at::<N>(bytes.as_slice(), 0);
            assert(array@ =~= bytes@);
            Ok(array)
        },
        None => Err(Error::NoEntropy),
    }
}

/// `N` fresh bytes: all of them from the operating system's generator, or an error if it has
/// none to give.
fn fresh<const N: usize>() -> (drawn: Result<[u8; N], Error>)
    ensures
        exists|draw: Option<Vec<u8>>| #[trigger] os_gives(N, draw) && taken(draw, drawn),
        N == 0 ==> drawn is Ok,
        drawn matches Err(e) ==> e == Error::NoEntropy,
{
    let draw = os_random(N);
    assert(os_gives(N, draw));
    take_draw(draw)
}

/// A fresh 10-byte announce randomness value.
pub fn rand_hash() -> (drawn: Result<[u8; RAND_HASH_LEN], Error>)
    ensures
        exists|draw: Option<Vec<u8>>| #[trigger]
            os_gives(RAND_HASH_LEN, draw) && taken(draw, drawn),
        drawn matches Err(e) ==> e == Error::NoEntropy,
{
    fresh::<RAND_HASH_LEN>()
}

/// A fresh 64-byte link ephemeral seed (`x25519_secret(32) || ed25519_seed(32)`), unique and
/// unpredictable per link.
pub fn ephemeral_seed() -> (drawn: Result<[u8; 64], Error>)
    ensures
        exists|draw: Option<Vec<u8>>| #[trigger] os_gives(64, draw) && taken(draw, drawn),
        drawn matches Err(e) ==> e == Error::NoEntropy,
{
    fresh::<64>()
}

/// A fresh AES-CBC IV. Must be unpredictable per packet under a given link key.
pub fn next_iv() -> (drawn: Result<[u8; IV_LEN], Error>)
    ensures
        exists|draw: Option<Vec<u8>>| #[trigger] os_gives(IV_LEN, draw) && taken(draw, drawn),
        drawn matches Err(e) ==> e == Error::NoEntropy,
{
    fresh::<IV_LEN>()
}

} // verus!
