//! The address book: learning peers from announces.
//!
//! A destination hash cannot be turned back into an identity, so to reach a peer you must have
//! heard it announce. The address book ingests validated [`Announce`]s and answers the question
//! a link needs: given a destination hash, what is the identity (to verify its proof) and its
//! current ratchet?
//!
//! This is pure state over [`Announce`], which is itself already validated on decode, so an
//! entry only ever comes from an announce whose signature checked out.

use crate::announce::{Announce, AnnounceModel, RATCHET_LEN};
use crate::bytes;
use crate::hash::{AddressHash, NameHash};
use crate::rns_identity::Identity;
use crate::table::Table;
use vstd::prelude::*;

verus! {

/// What the book knows about one destination.
#[derive(Debug)]
pub struct Peer {
    /// The destination's identity, enough to verify a link proof from it.
    pub identity: Identity,
    /// The destination's name hash, as announced.
    pub name_hash: NameHash,
    /// The most recently announced app data.
    pub app_data: Vec<u8>,
    /// The destination's current ratchet public key, if it advertises ratchets. Kept so a
    /// single-packet encryption to this destination can use the ratchet rather than the
    /// long-term key.
    pub ratchet: Option<[u8; RATCHET_LEN]>,
    /// How many announces for this destination have been ingested. A cheap freshness and
    /// liveness signal without a clock, which this layer deliberately does not have.
    pub announces_seen: u64,
}

/// What a [`Peer`] is, with its app data as a sequence.
#[verifier::ext_equal]
pub struct PeerModel {
    pub identity: Identity,
    pub name_hash: NameHash,
    pub app_data: Seq<u8>,
    pub ratchet: Option<[u8; RATCHET_LEN]>,
    pub announces_seen: u64,
}

impl View for Peer {
    type V = PeerModel;

    open spec fn view(&self) -> PeerModel {
        PeerModel {
            identity: self.identity,
            name_hash: self.name_hash,
            app_data: self.app_data@,
            ratchet: self.ratchet,
            announces_seen: self.announces_seen,
        }
    }
}

impl Clone for Peer {
    fn clone(&self) -> (copy: Self)
        ensures
            copy@ == self@,
    {
        Peer {
            identity: self.identity,
            name_hash: self.name_hash,
            app_data: bytes::copy_all(&self.app_data),
            ratchet: self.ratchet,
            announces_seen: self.announces_seen,
        }
    }
}

/// The count after one more announce. It stops at the largest number there is.
pub open spec fn one_more(seen: u64) -> u64 {
    if seen == u64::MAX {
        seen
    } else {
        (seen + 1) as u64
    }
}

/// The book after an announce: the destination's entry is made or refreshed, and its count
/// goes up by one.
pub open spec fn ingested(book: Map<Seq<u8>, PeerModel>, a: AnnounceModel) -> Map<
    Seq<u8>,
    PeerModel,
> {
    book.insert(
        a.destination@,
        PeerModel {
            identity: a.identity,
            name_hash: a.name_hash,
            app_data: a.app_data,
            ratchet: a.ratchet,
            announces_seen: if book.contains_key(a.destination@) {
                one_more(book[a.destination@].announces_seen)
            } else {
                1
            },
        },
    )
}

/// A store of peers learned from announces, keyed by destination hash.
pub struct AddressBook {
    peers: Table<16, Peer>,
}

impl View for AddressBook {
    type V = Map<Seq<u8>, PeerModel>;

    /// What is known, by destination hash.
    closed spec fn view(&self) -> Map<Seq<u8>, PeerModel> {
        self.peers@.map_values(|p: Peer| p@)
    }
}

impl Default for AddressBook {
    fn default() -> (book: Self)
        ensures
            book@ == Map::<Seq<u8>, PeerModel>::empty(),
    {
        AddressBook::new()
    }
}

impl AddressBook {
    /// An empty book.
    pub fn new() -> (book: Self)
        ensures
            book@ == Map::<Seq<u8>, PeerModel>::empty(),
    {
        let book = AddressBook { peers: Table::new() };
        assert(book@ =~= Map::<Seq<u8>, PeerModel>::empty());
        book
    }

    /// Record an announce. A later announce for the same destination refreshes the entry (app
    /// data, ratchet) and bumps the count. Because [`Announce`] only exists once its signature
    /// has verified, ingesting one cannot poison the book with a forged identity.
    pub fn ingest(&mut self, announce: &Announce)
        ensures
            final(self)@ == ingested(old(self)@, announce@),
    {
        let seen: u64 = match self.peers.get(announce.destination.as_bytes()) {
            Some(p) => if p.announces_seen == u64::MAX {
                u64::MAX
            } else {
                p.announces_seen + 1
            },
            None => 1,
        };
        let peer = Peer {
            identity: announce.identity,
            name_hash: announce.name_hash,
            app_data: bytes::copy_all(&announce.app_data),
            ratchet: announce.ratchet,
            announces_seen: seen,
        };
        self.peers.insert(*announce.destination.as_bytes(), peer);
        assert(self@ =~= ingested(old(self)@, announce@));
    }

    /// Resolve a destination hash to what we know about it.
    pub fn resolve(&self, destination: AddressHash) -> (peer: Option<&Peer>)
        ensures
            match peer {
                Some(p) => self@.contains_key(destination@) && self@[destination@] == p@,
                None => !self@.contains_key(destination@),
            },
    {
        self.peers.get(destination.as_bytes())
    }

    /// Whether we can reach a destination, i.e. have heard it announce.
    pub fn knows(&self, destination: AddressHash) -> (known: bool)
        ensures
            known == self@.contains_key(destination@),
    {
        self.peers.contains(destination.as_bytes())
    }

    /// Every destination currently known, each once.
    pub fn destinations(&self) -> (list: Vec<AddressHash>)
        ensures
            self@.dom().finite(),
            list@.len() == self@.dom().len(),
            forall|i: int, j: int|
                0 <= i < j < list@.len() ==> (#[trigger] list@[i])@ != (#[trigger] list@[j])@,
            forall|i: int| 0 <= i < list@.len() ==> self@.contains_key((#[trigger] list@[i])@),
            forall|k: Seq<u8>| #[trigger]
                self@.contains_key(k) ==> exists|i: int|
                    0 <= i < list@.len() && (#[trigger] list@[i])@ == k,
    {
        let keys: Vec<[u8; 16]> = self.peers.keys();
        assert(self@.dom() =~= self.peers@.dom());
        let mut list: Vec<AddressHash> = Vec::new();
        let mut i: usize = 0;
        while i < keys.len()
            invariant
                i <= keys@.len(),
                list@.len() == i,
                forall|j: int| 0 <= j < i ==> (#[trigger] list@[j])@ == keys@[j]@,
            decreases keys@.len() - i,
        {
            list.push(AddressHash(keys[i]));
            i += 1;
        }
        proof {
            assert forall|i: int, j: int| 0 <= i < j < list@.len() implies (
            #[trigger] list@[i])@ != (#[trigger] list@[j])@ by {
                assert(keys@[i]@ != keys@[j]@);
            }
            assert forall|i: int| 0 <= i < list@.len() implies self@.contains_key(
                (#[trigger] list@[i])@,
            ) by {
                assert(self.peers@.contains_key(keys@[i]@));
            }
            assert forall|k: Seq<u8>| #[trigger] self@.contains_key(k) implies exists|i: int|
                0 <= i < list@.len() && (#[trigger] list@[i])@ == k by {
                assert(self.peers@.contains_key(k));
                let i = choose|i: int| 0 <= i < keys@.len() && (#[trigger] keys@[i])@ == k;
                assert(list@[i]@ == k);
            }
        }
        list
    }

    /// Number of destinations known.
    pub fn len(&self) -> (len: usize)
        ensures
            self@.dom().finite(),
            len as nat == self@.dom().len(),
    {
        assert(self@.dom() =~= self.peers@.dom());
        self.peers.len()
    }

    /// Whether no destination is known.
    pub fn is_empty(&self) -> (empty: bool)
        ensures
            self@.dom().finite(),
            empty == (self@.dom().len() == 0),
    {
        self.len() == 0
    }

    /// Forget a destination, e.g. after it has been unreachable past a policy the caller
    /// enforces.
    pub fn forget(&mut self, destination: AddressHash) -> (peer: Option<Peer>)
        ensures
            match peer {
                Some(p) => old(self)@.contains_key(destination@) && old(self)@[destination@]
                    == p@,
                None => !old(self)@.contains_key(destination@),
            },
            final(self)@ == old(self)@.remove(destination@),
    {
        let peer = self.peers.remove(destination.as_bytes());
        assert(self@ =~= old(self)@.remove(destination@));
        peer
    }
}

/// Announcing again refreshes an entry rather than making another: the destinations known stay
/// the same, the later announce wins, and the count goes up.
pub proof fn law_re_ingesting_refreshes(
    book: Map<Seq<u8>, PeerModel>,
    first: AnnounceModel,
    second: AnnounceModel,
)
    requires
        first.destination == second.destination,
    ensures
        ({
            let once = ingested(book, first);
            let twice = ingested(once, second);
            let entry = twice[second.destination@];
            &&& twice.dom() == once.dom()
            &&& entry.identity == second.identity
            &&& entry.app_data == second.app_data
            &&& entry.ratchet == second.ratchet
            &&& entry.announces_seen == one_more(once[first.destination@].announces_seen)
        }),
{
    let once = ingested(book, first);
    assert(ingested(once, second).dom() =~= once.dom());
}

/// An announce changes nothing that is known of other destinations.
pub proof fn law_ingesting_leaves_others_alone(
    book: Map<Seq<u8>, PeerModel>,
    a: AnnounceModel,
    other: Seq<u8>,
)
    requires
        other != a.destination@,
    ensures
        ingested(book, a).contains_key(other) == book.contains_key(other),
        book.contains_key(other) ==> ingested(book, a)[other] == book[other],
{
}

/// Every announce of a destination counts: the first makes the count one, and each further one
/// raises it by one, as far as the count can show.
pub proof fn law_every_announce_counts(book: Map<Seq<u8>, PeerModel>, a: AnnounceModel)
    ensures
        ({
            let dest = a.destination@;
            let after = ingested(book, a)[dest].announces_seen;
            &&& !book.contains_key(dest) ==> after == 1
            &&& book.contains_key(dest) && book[dest].announces_seen < u64::MAX ==> after
                == book[dest].announces_seen + 1
            &&& book.contains_key(dest) && book[dest].announces_seen == u64::MAX ==> after
                == u64::MAX
        }),
{
}

} // verus!
