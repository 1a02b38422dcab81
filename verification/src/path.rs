//! Path requests.
//!
//! When an endpoint wants to reach a destination it has not heard announce, it asks: it sends a
//! path request to the well-known plain destination `rnstransport.path.request`, and a
//! transport node that knows a path replies by having the destination announce back toward the
//! requester.
//!
//! ```text
//! destination = trunc16(SHA256(name_hash("rnstransport.path.request")))  = the plain dest
//! payload     = target_hash(16) || request_tag(16)
//! ```

use crate::bytes;
use crate::destination;
use crate::destination::DestinationName;
use crate::hash;
use crate::hash::AddressHash;
use crate::link;
use crate::packet::{DestinationType, HeaderType, Packet, PacketType, Propagation};
use vstd::prelude::*;

verus! {

/// Length of the random request tag on a path request.
pub const TAG_LEN: usize = 16;

/// The hash of the well-known destination: `rnstransport.path.request`, as a plain one.
pub open spec fn request_destination() -> Seq<u8> {
    hash::address_of(
        hash::name_of(destination::dotted("rnstransport", seq!["path", "request"], 2)),
    )
}

/// The well-known destination hash a path request is addressed to.
pub fn path_request_destination() -> (hash: AddressHash)
    ensures
        hash@ == request_destination(),
{
    let aspects: [&str; 2] = ["path", "request"];
    let name = DestinationName::new("rnstransport", aspects);
    assert(aspects@ =~= seq!["path", "request"]);
    name.plain_hash()
}

/// Build a path request for `target`.
///
/// `tag` is a random 16-byte value the caller supplies, so this stays reproducible; it must be
/// fresh per request in production, where it lets a requester recognise the response to its own
/// query.
pub fn path_request(target: AddressHash, tag: &[u8; TAG_LEN]) -> (packet: Packet)
    ensures
        packet@.destination@ == request_destination(),
        packet@ == link::fresh_packet(
            DestinationType::Plain,
            PacketType::Data,
            packet@.destination,
            0,
            target@ + tag@,
        ),
{
    let mut payload: Vec<u8> = bytes::copy_all(target.as_slice());
    payload.extend_from_slice(tag);
    assert(payload@ =~= target@ + tag@);
    Packet {
        ifac: false,
        header_type: HeaderType::Type1,
        context_flag: false,
        propagation: Propagation::Broadcast,
        destination_type: DestinationType::Plain,
        packet_type: PacketType::Data,
        hops: 0,
        transport: None,
        destination: path_request_destination(),
        context: 0,
        payload,
    }
}

} // verus!
