//! A set of identifiers that keeps the order in which they came, with a hash
//! index for finding one.

use crate::router::{digest, hash};
use std::collections::HashMap;
use vstd::prelude::*;

verus! {

/// Identifiers in the order in which they were added, none twice.
pub struct NameSet {
    names: Vec<String>,
    /// For each hash, the places of the identifiers that have it.
    index: HashMap<u64, Vec<usize>>,
}

/// Whether `bucket` lists the place `i`.
pub open spec fn lists(bucket: Seq<usize>, i: int) -> bool {
    exists|k: int| 0 <= k < bucket.len() && (#[trigger] bucket[k]) == i
}

/// The identifiers that a sequence of strings holds.
pub open spec fn names(v: Seq<String>) -> Seq<Seq<char>> {
    Seq::new(v.len(), |i: int| v[i]@)
}

impl View for NameSet {
    type V = Seq<Seq<char>>;

    closed spec fn view(&self) -> Seq<Seq<char>> {
        names(self.names@)
    }
}

impl NameSet {
    /// Every identifier is listed under its hash, and the index lists
    /// nothing else.
    pub closed spec fn indexed(&self) -> bool {
        &&& forall|i: int|
            0 <= i < self.names@.len() ==> self.index@.contains_key(
                digest((#[trigger] self.names@[i])@),
            ) && lists(self.index@[digest(self.names@[i]@)]@, i)
        &&& forall|h: u64, k: int|
            self.index@.contains_key(h) && 0 <= k < self.index@[h]@.len() ==> (
            #[trigger] self.index@[h]@[k]) < self.names@.len() && digest(
                self.names@[self.index@[h]@[k] as int]@,
            ) == h
    }

    /// The set's invariant: no identifier is there twice.
    pub open spec fn wf(&self) -> bool {
        self@.no_duplicates() && self.indexed()
    }

    /// An empty set.
    pub fn new() -> (s: NameSet)
        ensures
            s.wf(),
            s@ == Seq::<Seq<char>>::empty(),
    {
        let s = NameSet { names: Vec::new(), index: HashMap::new() };
        assert(s@ =~= Seq::<Seq<char>>::empty());
        s
    }

    /// The number of identifiers.
    pub fn len(&self) -> (n: usize)
        ensures
            n == self@.len(),
    {
        self.names.len()
    }

    /// The identifier at place `i`.
    pub fn get(&self, i: usize) -> (id: &String)
        requires
            i < self@.len(),
        ensures
            id@ == self@[i as int],
    {
        &self.names[i]
    }

    /// All identifiers, in their order.
    pub fn as_vec(&self) -> (v: &Vec<String>)
        ensures
            names(v@) == self@,
    {
        &self.names
    }

    /// The place of `id`, if it is in the set.
    pub fn find(&self, id: &String) -> (r: Option<usize>)
        requires
            self.wf(),
        ensures
            match r {
                Some(i) => i < self@.len() && self@[i as int] == id@,
                None => !self@.contains(id@),
            },
    {
        let h = hash(id);
        match self.index.get(&h) {
            None => {
                proof {
                    assert(!self.index@.contains_key(h));
                    if self@.contains(id@) {
                        let i = choose|i: int| 0 <= i < self@.len() && self@[i] == id@;
                        assert(self.names@[i]@ == id@);
                    }
                }
                None
            },
            Some(bucket) => {
                let mut k: usize = 0;
                while k < bucket.len()
                    invariant
                        k <= bucket.len(),
                        self.wf(),
                        h == digest(id@),
                        self.index@.contains_key(h),
                        *bucket == self.index@[h],
                        forall|j: int|
                            0 <= j < k ==> self.names@[(#[trigger] bucket@[j]) as int]@ != id@,
                    decreases bucket.len() - k,
                {
                    let at = bucket[k];
                    assert(self.index@[h]@[k as int] < self.names@.len());
                    if self.names[at] == *id {
                        assert(self@[at as int] == id@);
                        return Some(at);
                    }
                    k += 1;
                }
                proof {
                    if self@.contains(id@) {
                        let i = choose|i: int| 0 <= i < self@.len() && self@[i] == id@;
                        assert(self.names@[i]@ == id@);
                        assert(lists(bucket@, i));
                        let j = choose|j: int| 0 <= j < bucket@.len() && (#[trigger] bucket@[j]) == i;
                        assert(self.names@[bucket@[j] as int]@ != id@);
                    }
                }
                None
            },
        }
    }

    /// Adds an identifier that is not in the set, at the end.
    pub fn push(&mut self, id: String)
        requires
            old(self).wf(),
            !old(self)@.contains(id@),
        ensures
            final(self).wf(),
            final(self)@ == old(self)@.push(id@),
    {
        let h = hash(&id);
        let at = self.names.len();
        let ghost old_names = self.names@;
        let ghost old_index = self.index@;
        let mut bucket = match self.index.remove(&h) {
            Some(b) => b,
            None => Vec::new(),
        };
        let ghost old_bucket = bucket@;
        bucket.push(at);
        let ghost new_bucket = bucket@;
        self.index.insert(h, bucket);
        self.names.push(id);
        proof {
            assert(self@ =~= old(self)@.push(id@));
            assert(old_index.contains_key(h) ==> old_bucket == old_index[h]@);
            assert(!old_index.contains_key(h) ==> old_bucket.len() == 0);
            assert(self.index@ =~= old_index.insert(h, self.index@[h]));
            assert(self.index@[h]@ == new_bucket);
            assert(new_bucket == old_bucket.push(at));
            assert forall|i: int| 0 <= i < self.names@.len() implies self.index@.contains_key(
                digest((#[trigger] self.names@[i])@),
            ) && lists(self.index@[digest(self.names@[i]@)]@, i) by {
                if i < old_names.len() {
                    assert(self.names@[i] == old_names[i]);
                    let g = digest(old_names[i]@);
                    assert(old_index.contains_key(g) && lists(old_index[g]@, i));
                    if g == h {
                        let j = choose|j: int|
                            0 <= j < old_bucket.len() && (#[trigger] old_bucket[j]) == i;
                        assert(new_bucket[j] == i);
                    }
                } else {
                    assert(new_bucket[new_bucket.len() - 1] == at);
                }
            }
            assert forall|g: u64, k: int|
                self.index@.contains_key(g) && 0 <= k < self.index@[g]@.len() implies (
            #[trigger] self.index@[g]@[k]) < self.names@.len() && digest(
                self.names@[self.index@[g]@[k] as int]@,
            ) == g by {
                if g == h {
                    if k < old_bucket.len() {
                        assert(new_bucket[k] == old_bucket[k]);
                        assert(old_index[h]@[k] < old_names.len());
                        assert(self.names@[old_bucket[k] as int] == old_names[old_bucket[k] as int]);
                    }
                } else {
                    assert(self.index@[g] == old_index[g]);
                    assert(old_index[g]@[k] < old_names.len());
                    assert(self.names@[old_index[g]@[k] as int] == old_names[old_index[g]@[k] as int]);
                }
            }
            assert forall|a: int, b: int|
                0 <= a < self@.len() && 0 <= b < self@.len() && a != b implies self@[a]
                != self@[b] by {
                if a < old_names.len() && b < old_names.len() {
                    assert(old(self)@[a] != old(self)@[b]);
                } else if a < old_names.len() {
                    assert(old(self)@.contains(old(self)@[a]));
                } else {
                    assert(old(self)@.contains(old(self)@[b]));
                }
            }
        }
    }
}

} // verus!
