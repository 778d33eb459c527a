//! The epoch stash: records that have arrived, kept by epoch until the
//! barrier of their epoch has fired.

use vstd::prelude::*;

verus! {

/// The records of one epoch.
struct Pending<T> {
    epoch: u64,
    records: Vec<T>,
}

/// Pending records by epoch. An epoch has an entry only while records of it
/// are pending.
pub struct EpochStash<T> {
    entries: Vec<Pending<T>>,
}

/// What is pending for `epoch`: nothing where the epoch has no entry.
pub open spec fn pending<T>(stash: Map<u64, Seq<T>>, epoch: u64) -> Seq<T> {
    if stash.dom().contains(epoch) {
        stash[epoch]
    } else {
        Seq::empty()
    }
}

/// Whether `epoch` is the lowest epoch with an entry.
pub open spec fn is_lowest<T>(stash: Map<u64, Seq<T>>, epoch: u64) -> bool {
    &&& stash.dom().contains(epoch)
    &&& forall|e: u64| stash.dom().contains(e) ==> epoch <= e
}

/// The entries as a map, the later entry of an epoch first.
spec fn entries_map<T>(entries: Seq<Pending<T>>) -> Map<u64, Seq<T>>
    decreases entries.len(),
{
    if entries.len() == 0 {
        Map::empty()
    } else {
        entries_map(entries.drop_last()).insert(entries.last().epoch, entries.last().records@)
    }
}

spec fn distinct_epochs<T>(entries: Seq<Pending<T>>) -> bool {
    forall|i: int, j: int|
        0 <= i < j < entries.len() ==> (#[trigger] entries[i]).epoch != (
        #[trigger] entries[j]).epoch
}

proof fn lemma_entries_map<T>(entries: Seq<Pending<T>>)
    requires
        distinct_epochs(entries),
    ensures
        entries_map(entries).dom().finite(),
        entries_map(entries).dom().len() == entries.len(),
        forall|i: int|
            0 <= i < entries.len() ==> entries_map(entries).dom().contains(
                (#[trigger] entries[i]).epoch,
            ) && entries_map(entries)[entries[i].epoch] == entries[i].records@,
        forall|e: u64|
            entries_map(entries).dom().contains(e) ==> exists|i: int|
                0 <= i < entries.len() && (#[trigger] entries[i]).epoch == e,
    decreases entries.len(),
{
    if entries.len() > 0 {
        let rest = entries.drop_last();
        let last = entries.last();
        assert forall|i: int, j: int| 0 <= i < j < rest.len() implies (#[trigger] rest[i]).epoch
            != (#[trigger] rest[j]).epoch by {
            assert(rest[i] == entries[i] && rest[j] == entries[j]);
        }
        lemma_entries_map(rest);
        let m = entries_map(rest);
        if m.dom().contains(last.epoch) {
            let i = choose|i: int| 0 <= i < rest.len() && (#[trigger] rest[i]).epoch == last.epoch;
            assert(entries[i].epoch == entries[entries.len() - 1].epoch);
        }
        assert forall|i: int| 0 <= i < entries.len() implies entries_map(entries).dom().contains(
            (#[trigger] entries[i]).epoch,
        ) && entries_map(entries)[entries[i].epoch] == entries[i].records@ by {
            if i < rest.len() {
                assert(rest[i] == entries[i]);
                assert(entries[i].epoch != entries[entries.len() - 1].epoch);
            }
        }
        assert forall|e: u64| entries_map(entries).dom().contains(e) implies exists|i: int|
            0 <= i < entries.len() && (#[trigger] entries[i]).epoch == e by {
            if e == last.epoch {
                assert(entries[entries.len() - 1].epoch == e);
            } else {
                let i = choose|i: int| 0 <= i < rest.len() && (#[trigger] rest[i]).epoch == e;
                assert(entries[i].epoch == e);
            }
        }
    }
}

impl<T> View for EpochStash<T> {
    type V = Map<u64, Seq<T>>;

    closed spec fn view(&self) -> Map<u64, Seq<T>> {
        entries_map(self.entries@)
    }
}

impl<T> EpochStash<T> {
    /// The stash's invariant: one entry for an epoch, and none that is
    /// empty.
    pub closed spec fn wf(&self) -> bool {
        &&& distinct_epochs(self.entries@)
        &&& forall|i: int|
            0 <= i < self.entries@.len() ==> (#[trigger] self.entries@[i]).records@.len() > 0
    }

    /// A well-formed stash holds finitely many epochs, none with nothing
    /// pending.
    pub proof fn lemma_wf(&self)
        requires
            self.wf(),
        ensures
            self@.dom().finite(),
            forall|e: u64| self@.dom().contains(e) ==> (#[trigger] self@[e]).len() > 0,
    {
        lemma_entries_map(self.entries@);
        assert forall|e: u64| self@.dom().contains(e) implies (#[trigger] self@[e]).len() > 0 by {
            let i = choose|i: int|
                0 <= i < self.entries@.len() && (#[trigger] self.entries@[i]).epoch == e;
            assert(self@[self.entries@[i].epoch] == self.entries@[i].records@);
        }
    }

    /// An empty stash.
    pub fn new() -> (s: EpochStash<T>)
        ensures
            s.wf(),
            s@ == Map::<u64, Seq<T>>::empty(),
    {
        EpochStash { entries: Vec::new() }
    }

    /// The number of epochs with pending records.
    pub fn len(&self) -> (n: usize)
        requires
            self.wf(),
        ensures
            n == self@.dom().len(),
    {
        proof {
            lemma_entries_map(self.entries@);
        }
        self.entries.len()
    }

    /// Whether nothing is pending.
    pub fn is_empty(&self) -> (b: bool)
        requires
            self.wf(),
        ensures
            b == (self@ == Map::<u64, Seq<T>>::empty()),
    {
        proof {
            lemma_entries_map(self.entries@);
            if self.entries@.len() > 0 {
                assert(self@.dom().contains(self.entries@[0].epoch));
            } else {
                assert(self@ =~= Map::<u64, Seq<T>>::empty());
            }
        }
        self.entries.len() == 0
    }

    fn position(&self, epoch: u64) -> (r: Option<usize>)
        requires
            self.wf(),
        ensures
            match r {
                Some(i) => i < self.entries@.len() && self.entries@[i as int].epoch == epoch,
                None => !self@.dom().contains(epoch),
            },
            r is Some <==> self@.dom().contains(epoch),
    {
        proof {
            lemma_entries_map(self.entries@);
        }
        let mut i: usize = 0;
        while i < self.entries.len()
            invariant
                self.wf(),
                i <= self.entries.len(),
                forall|j: int| 0 <= j < i ==> (#[trigger] self.entries@[j]).epoch != epoch,
            decreases self.entries.len() - i,
        {
            if self.entries[i].epoch == epoch {
                proof {
                    lemma_entries_map(self.entries@);
                }
                return Some(i);
            }
            i += 1;
        }
        proof {
            lemma_entries_map(self.entries@);
        }
        None
    }

    /// Whether records of `epoch` are pending.
    pub fn contains(&self, epoch: u64) -> (b: bool)
        requires
            self.wf(),
        ensures
            b == self@.dom().contains(epoch),
    {
        self.position(epoch).is_some()
    }

    /// The lowest epoch with pending records.
    pub fn lowest(&self) -> (r: Option<u64>)
        requires
            self.wf(),
        ensures
            match r {
                Some(e) => is_lowest(self@, e),
                None => self@ == Map::<u64, Seq<T>>::empty(),
            },
    {
        proof {
            lemma_entries_map(self.entries@);
        }
        if self.entries.len() == 0 {
            assert(self@ =~= Map::<u64, Seq<T>>::empty());
            return None;
        }
        let mut low: u64 = self.entries[0].epoch;
        let mut i: usize = 1;
        while i < self.entries.len()
            invariant
                self.wf(),
                1 <= i <= self.entries.len(),
                exists|j: int| 0 <= j < i && (#[trigger] self.entries@[j]).epoch == low,
                forall|j: int| 0 <= j < i ==> low <= (#[trigger] self.entries@[j]).epoch,
            decreases self.entries.len() - i,
        {
            if self.entries[i].epoch < low {
                low = self.entries[i].epoch;
            }
            i += 1;
        }
        proof {
            lemma_entries_map(self.entries@);
        }
        Some(low)
    }

    /// Appends `records` to what is pending for `epoch`. With no records,
    /// nothing changes.
    pub fn push(&mut self, epoch: u64, records: Vec<T>)
        requires
            old(self).wf(),
        ensures
            final(self).wf(),
            final(self)@ == if records@.len() == 0 {
                old(self)@
            } else {
                old(self)@.insert(epoch, pending(old(self)@, epoch) + records@)
            },
    {
        if records.len() == 0 {
            return ;
        }
        let ghost before = self.entries@;
        proof {
            lemma_entries_map(before);
        }
        let mut records = records;
        match self.position(epoch) {
            Some(i) => {
                let ghost added = records@;
                self.entries[i].records.append(&mut records);
                proof {
                    let after = self.entries@;
                    assert(after.len() == before.len());
                    assert forall|a: int| 0 <= a < after.len() implies (#[trigger] after[a]).epoch
                        == before[a].epoch && after[a].records@ == if a == i {
                        before[a].records@ + added
                    } else {
                        before[a].records@
                    } by {}
                    assert forall|a: int, b: int| 0 <= a < b < after.len() implies (
                    #[trigger] after[a]).epoch != (#[trigger] after[b]).epoch by {
                        assert(before[a].epoch != before[b].epoch);
                    }
                    lemma_entries_map(after);
                    assert(self@ =~= old(self)@.insert(epoch, pending(old(self)@, epoch) + added))
                        by {
                        assert forall|e: u64| self@.dom().contains(e) implies old(
                            self,
                        )@.dom().contains(e) && self@[e] == old(self)@.insert(
                            epoch,
                            pending(old(self)@, epoch) + added,
                        )[e] by {
                            let a = choose|a: int|
                                0 <= a < after.len() && (#[trigger] after[a]).epoch == e;
                            assert(before[a].epoch == e);
                            assert(before[i as int].epoch == epoch);
                            if a != i {
                                assert(before[a].epoch != before[i as int].epoch);
                            }
                        }
                        assert forall|e: u64| old(self)@.dom().contains(
                            e,
                        ) implies self@.dom().contains(e) by {
                            let a = choose|a: int|
                                0 <= a < before.len() && (#[trigger] before[a]).epoch == e;
                            assert(after[a].epoch == e);
                        }
                    }
                    assert forall|a: int| 0 <= a < after.len() implies (
                    #[trigger] after[a]).records@.len() > 0 by {
                        assert(before[a].records@.len() > 0);
                    }
                }
            },
            None => {
                self.entries.push(Pending { epoch, records });
                proof {
                    let after = self.entries@;
                    assert(after.drop_last() =~= before);
                    assert forall|a: int, b: int| 0 <= a < b < after.len() implies (
                    #[trigger] after[a]).epoch != (#[trigger] after[b]).epoch by {
                        if b < before.len() {
                            assert(before[a].epoch != before[b].epoch);
                        } else {
                            assert(before[a].epoch != epoch);
                        }
                    }
                    assert forall|a: int| 0 <= a < after.len() implies (
                    #[trigger] after[a]).records@.len() > 0 by {
                        if a < before.len() {
                            assert(before[a].records@.len() > 0);
                        }
                    }
                    assert(pending(old(self)@, epoch) + after.last().records@
                        =~= after.last().records@);
                }
            },
        }
    }

    /// Takes what is pending for `epoch` out of the stash, in the order in
    /// which it arrived. The epoch has no entry afterwards.
    pub fn take(&mut self, epoch: u64) -> (records: Vec<T>)
        requires
            old(self).wf(),
        ensures
            final(self).wf(),
            records@ == pending(old(self)@, epoch),
            final(self)@ == old(self)@.remove(epoch),
    {
        let ghost before = self.entries@;
        proof {
            lemma_entries_map(before);
        }
        match self.position(epoch) {
            Some(i) => {
                let entry = self.entries.remove(i);
                proof {
                    let after = self.entries@;
                    assert(after =~= before.remove(i as int));
                    assert forall|a: int| 0 <= a < after.len() implies (#[trigger] after[a])
                        == before[if a < i { a } else { a + 1 }] by {}
                    assert forall|a: int, b: int| 0 <= a < b < after.len() implies (
                    #[trigger] after[a]).epoch != (#[trigger] after[b]).epoch by {
                        let a2 = if a < i { a } else { a + 1 };
                        let b2 = if b < i { b } else { b + 1 };
                        assert(before[a2].epoch != before[b2].epoch);
                    }
                    assert forall|a: int| 0 <= a < after.len() implies (
                    #[trigger] after[a]).records@.len() > 0 by {
                        let a2 = if a < i { a } else { a + 1 };
                        assert(before[a2].records@.len() > 0);
                    }
                    lemma_entries_map(after);
                    assert(self@ =~= old(self)@.remove(epoch)) by {
                        assert forall|e: u64| self@.dom().contains(e) implies old(
                            self,
                        )@.dom().contains(e) && e != epoch && self@[e] == old(self)@[e] by {
                            let a = choose|a: int|
                                0 <= a < after.len() && (#[trigger] after[a]).epoch == e;
                            let a2 = if a < i { a } else { a + 1 };
                            assert(before[a2].epoch == e);
                            assert(before[i as int].epoch == epoch);
                            if a2 < i {
                                assert(before[a2].epoch != before[i as int].epoch);
                            } else {
                                assert(before[i as int].epoch != before[a2].epoch);
                            }
                        }
                        assert forall|e: u64| old(self)@.dom().contains(e) && e
                            != epoch implies self@.dom().contains(e) by {
                            let a = choose|a: int|
                                0 <= a < before.len() && (#[trigger] before[a]).epoch == e;
                            let a1 = if a < i { a } else { a - 1 };
                            assert(after[a1].epoch == e);
                        }
                    }
                }
                entry.records
            },
            None => {
                proof {
                    assert(self@ =~= old(self)@.remove(epoch));
                }
                Vec::new()
            },
        }
    }
}

} // verus!
