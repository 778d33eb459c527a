//! The partition router: which partition owns a node.

use std::collections::hash_map::DefaultHasher;
use std::hash::Hash;
use std::hash::Hasher;
use vstd::prelude::*;
use vstd::std_specs::hash::DefaultHasherAdditionalSpecFns;

verus! {

/// What hashing a string writes into a hasher. It depends on the string
/// alone.
pub uninterp spec fn hashed_writes(item: Seq<char>) -> Seq<Seq<u8>>;

/// The hash of an identifier: what a fresh default hasher gives once the
/// identifier has been hashed into it.
pub open spec fn digest(item: Seq<char>) -> u64 {
    DefaultHasher::spec_finish(hashed_writes(item))
}

/// The partition, of `peers`, that owns the node `id`.
pub open spec fn owner(id: Seq<char>, peers: nat) -> nat
    recommends
        peers > 0,
{
    (digest(id) as nat) % peers
}

/// Calls `Hash::hash` of `String` on `state`. Not proved: that the hasher
/// afterwards has seen, after what it had seen before, writes that depend on
/// the characters of `item` and on nothing else.
#[verifier::external_body]
fn feed(item: &String, state: &mut DefaultHasher)
    ensures
        final(state)@ == old(state)@ + hashed_writes(item@),
{
    item.hash(state);
}

/// The hash of `item`, by which records are exchanged between partitions.
pub fn hash(item: &String) -> (h: u64)
    ensures
        h == digest(item@),
{
    let mut h = DefaultHasher::new();
    feed(item, &mut h);
    assert(h@ =~= hashed_writes(item@));
    h.finish()
}

/// The partition, of `peers`, that owns `node`: all records about a node go
/// to this one partition.
pub fn route(node: &String, peers: usize) -> (p: usize)
    requires
        peers > 0,
    ensures
        p == owner(node@, peers as nat),
        p < peers,
{
    (hash(node) % (peers as u64)) as usize
}

} // verus!
