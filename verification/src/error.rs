//! What can go wrong with bytes that came off the wire.

use vstd::prelude::*;

verus! {

/// A packet, proof, token, or resource that could not be used.
#[derive(Clone, Copy, Debug, PartialEq, Eq, Structural)]
pub enum Error {
    /// Too few bytes for the shape expected.
    Truncated,
    /// A link trailer named a cipher mode that does not exist.
    BadLinkMode,
    /// Expected a proof packet.
    NotAProof,
    /// Expected a link request packet.
    NotALinkRequest,
    /// Expected an announce packet.
    NotAnAnnounce,
    /// A proof addressed to another link.
    LinkMismatch,
    /// An announce whose destination is not the one its keys and name give.
    DestinationMismatch,
    /// A signature that does not verify.
    BadSignature,
    /// A token whose authentication code does not match.
    BadHmac,
    /// Malformed padding, or a malformed compressed stream.
    BadPadding,
    /// A malformed advertisement, request, or hashmap update.
    BadRequest,
    /// A reassembled resource that does not match its advertised hash.
    ResourceCorrupt,
    /// The operating system gave no randomness.
    NoEntropy,
}

} // verus!
