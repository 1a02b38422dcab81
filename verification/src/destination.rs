//! Destination names and the hashes they give.
//!
//! A name is an application name and its aspects, joined with dots. Its name hash goes into
//! announces; together with an identity it gives the destination hash that packets are
//! addressed to.

use crate::bytes;
use crate::hash;
use crate::hash::{AddressHash, NameHash};
use crate::rns_identity::Identity;
use vstd::prelude::*;
use vstd::utf8;

verus! {

/// `app` and the first `n` of `aspects`, joined with dots, in UTF-8.
pub open spec fn dotted(app: &str, aspects: Seq<&str>, n: nat) -> Seq<u8>
    decreases n,
{
    if n == 0 {
        utf8::encode_utf8(app@)
    } else {
        dotted(app, aspects, (n - 1) as nat) + seq![0x2e_u8] + utf8::encode_utf8(aspects[n - 1]@)
    }
}

/// The destination hash of a name under an identity.
pub open spec fn single_destination(name_hash: Seq<u8>, identity: Seq<u8>) -> Seq<u8> {
    hash::address_of(name_hash + hash::address_of(identity))
}

/// A named destination.
#[derive(Debug, PartialEq, Eq)]
pub struct DestinationName {
    full: Vec<u8>,
}

impl View for DestinationName {
    type V = Seq<u8>;

    /// The dotted name, in UTF-8.
    closed spec fn view(&self) -> Seq<u8> {
        self.full@
    }
}

impl Clone for DestinationName {
    fn clone(&self) -> (copy: Self)
        ensures
            copy@ == self@,
    {
        DestinationName { full: bytes::copy_all(&self.full) }
    }
}

impl DestinationName {
    /// The name of an application and its aspects.
    pub fn new<const N: usize>(app: &str, aspects: [&str; N]) -> (name: Self)
        ensures
            name@ == dotted(app, aspects@, N as nat),
    {
        let mut full: Vec<u8> = Vec::new();
        full.extend_from_slice(app.as_bytes());
        assert(full@ =~= dotted(app, aspects@, 0));
        let mut i: usize = 0;
        while i < N
            invariant
                i <= N,
                full@ == dotted(app, aspects@, i as nat),
            decreases N - i,
        {
            full.push(0x2e);
            full.extend_from_slice(aspects[i].as_bytes());
            assert(full@ =~= dotted(app, aspects@, (i + 1) as nat));
            i += 1;
        }
        DestinationName { full }
    }

    /// The first ten bytes of the name's digest.
    pub fn name_hash(&self) -> (hash: NameHash)
        ensures
            hash@ == hash::name_of(self@),
    {
        NameHash::of(&self.full)
    }

    /// The hash of this name as a destination of `identity`.
    pub fn destination_hash(&self, identity: &Identity) -> (hash: AddressHash)
        ensures
            hash@ == single_destination(hash::name_of(self@), identity@),
    {
        destination_hash_of(&self.name_hash(), identity)
    }

    /// The hash of this name as a plain destination, which belongs to no identity.
    pub fn plain_hash(&self) -> (hash: AddressHash)
        ensures
            hash@ == hash::address_of(hash::name_of(self@)),
    {
        AddressHash::of(self.name_hash().as_slice())
    }
}

/// The destination hash that a name hash and an identity give.
pub fn destination_hash_of(name_hash: &NameHash, identity: &Identity) -> (hash: AddressHash)
    ensures
        hash@ == single_destination(name_hash@, identity@),
{
    let mut joined: Vec<u8> = Vec::new();
    joined.extend_from_slice(name_hash.as_slice());
    joined.extend_from_slice(identity.hash().as_slice());
    assert(joined@ =~= name_hash@ + hash::address_of(identity@));
    AddressHash::of(&joined)
}

/// A name spells out every aspect, each behind a dot, and nothing is left out before or after it.
pub proof fn law_names_spell_out_every_aspect(app: &str, aspects: Seq<&str>, n: nat, k: int) -> (
    rest: Seq<u8>)
    requires
        0 <= k < n,
    ensures
        dotted(app, aspects, n) == dotted(app, aspects, k as nat) + seq![0x2e_u8]
            + utf8::encode_utf8(aspects[k]@) + rest,
        utf8::encode_utf8(app@).is_prefix_of(dotted(app, aspects, n)),
    decreases n,
{
    lemma_app_comes_first(app, aspects, n);
    let last = seq![0x2e_u8] + utf8::encode_utf8(aspects[n - 1]@);
    if k == n - 1 {
        let rest = Seq::<u8>::empty();
        assert(dotted(app, aspects, n) =~= dotted(app, aspects, k as nat) + seq![0x2e_u8]
            + utf8::encode_utf8(aspects[k]@) + rest);
        rest
    } else {
        let shorter = law_names_spell_out_every_aspect(app, aspects, (n - 1) as nat, k);
        let rest = shorter + last;
        assert(dotted(app, aspects, n) =~= dotted(app, aspects, k as nat) + seq![0x2e_u8]
            + utf8::encode_utf8(aspects[k]@) + rest);
        rest
    }
}

proof fn lemma_app_comes_first(app: &str, aspects: Seq<&str>, n: nat)
    ensures
        utf8::encode_utf8(app@).is_prefix_of(dotted(app, aspects, n)),
    decreases n,
{
    let first = utf8::encode_utf8(app@);
    let all = dotted(app, aspects, n);
    if n > 0 {
        lemma_app_comes_first(app, aspects, (n - 1) as nat);
        let front = dotted(app, aspects, (n - 1) as nat);
        assert(all.take(first.len() as int) =~= front.take(first.len() as int));
    } else {
        assert(all.take(first.len() as int) =~= first);
    }
    assert(first =~= all.subrange(0, first.len() as int));
}

} // verus!
