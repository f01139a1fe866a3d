//! Read snapshots in use, so that garbage collection knows how far it may go.
use vstd::prelude::*;

use crate::key_order::lemma_increasing;
use std::collections::BTreeMap;
use vstd::std_specs::btree::{increasing_seq, spec_btree_map_iter};
use vstd::std_specs::iter::IteratorSpec;

verus! {

broadcast use vstd::std_specs::btree::group_btree_axioms;

/// Tracks active read snapshots (read_lsn) so GC can compute a safe watermark.
///
/// Each active transaction registers exactly one read_lsn; releasing the
/// returned guard unregisters it.
#[derive(Debug)]
pub struct ActiveReads {
    pub next_id: u64,
    pub map: BTreeMap<u64, u64>,
}

#[derive(Clone, Copy, Debug, PartialEq, Eq, Structural)]
pub struct ActiveReadInfo {
    pub id: u64,
}

/// A registered read.
#[derive(Debug)]
pub struct ReadGuard {
    pub id: u64,
}

/// `lsn` is the least of the registered snapshots.
pub open spec fn is_least(m: Map<u64, u64>, lsn: u64) -> bool {
    &&& exists|id: u64| #[trigger] m.contains_key(id) && m[id] == lsn
    &&& forall|id: u64| #[trigger] m.contains_key(id) ==> lsn <= m[id]
}

impl ActiveReads {
    /// Ids below `next_id` have been given out.
    pub open spec fn wf(&self) -> bool {
        forall|id: u64| #[trigger] self.map@.contains_key(id) ==> id < self.next_id
    }

    /// The registered snapshots, by id.
    pub open spec fn reads(&self) -> Map<u64, u64> {
        self.map@
    }

    pub fn new() -> (r: ActiveReads)
        ensures
            r.wf(),
            r.reads() == Map::<u64, u64>::empty(),
            r.next_id == 1,
    {
        ActiveReads { next_id: 1, map: BTreeMap::new() }
    }

    /// Registers a read at `read_lsn` under an id that was not given out before.
    pub fn register(&mut self, read_lsn: u64) -> (r: ReadGuard)
        requires
            old(self).wf(),
            old(self).next_id < u64::MAX,
        ensures
            final(self).wf(),
            r.id == old(self).next_id,
            final(self).next_id == old(self).next_id + 1,
            !old(self).reads().contains_key(r.id),
            final(self).reads() == old(self).reads().insert(r.id, read_lsn),
    {
        let id: u64 = self.next_id;
        self.next_id = id + 1;
        self.map.insert(id, read_lsn);
        ReadGuard { id }
    }

    /// Forgets a read.
    pub fn unregister(&mut self, id: u64)
        requires
            old(self).wf(),
        ensures
            final(self).wf(),
            final(self).next_id == old(self).next_id,
            final(self).reads() == old(self).reads().remove(id),
    {
        self.map.remove(&id);
    }

    pub fn contains(&self, id: u64) -> (r: bool)
        ensures
            r == self.reads().contains_key(id),
    {
        self.map.contains_key(&id)
    }

    /// Forgets a read; says whether it was registered.
    pub fn abort(&mut self, id: u64) -> (r: bool)
        requires
            old(self).wf(),
        ensures
            final(self).wf(),
            final(self).next_id == old(self).next_id,
            r == old(self).reads().contains_key(id),
            final(self).reads() == old(self).reads().remove(id),
    {
        self.map.remove(&id).is_some()
    }

    /// The registered reads, in ascending order of id.
    pub fn list(&self) -> (r: Vec<ActiveReadInfo>)
        ensures
            forall|i: int| 0 <= i < r@.len() ==> self.reads().contains_key((#[trigger] r@[i]).id),
            forall|id: u64| #[trigger]
                self.reads().contains_key(id) ==> exists|i: int|
                    0 <= i < r@.len() && (#[trigger] r@[i]).id == id,
            forall|i: int, j: int|
                0 <= i < j < r@.len() ==> (#[trigger] r@[i]).id < (#[trigger] r@[j]).id,
    {
        let mut out: Vec<ActiveReadInfo> = Vec::new();
        let ghost pairs = spec_btree_map_iter(&self.map).remaining();
        let it0 = self.map.iter();
        proof {
            let ks = pairs.map_values(|kv: (&u64, &u64)| *kv.0);
            assert(increasing_seq(ks));
            lemma_increasing(ks);
            assert forall|i: int, j: int| 0 <= i < j < pairs.len() implies *(#[trigger] pairs[i]).0
                < *(#[trigger] pairs[j]).0 by {
                assert(ks[i] == *pairs[i].0 && ks[j] == *pairs[j].0);
            }
        }
        for (k, v) in it: it0
            invariant
                it.seq() == pairs,
                out@.len() == it.index(),
                forall|j: int| 0 <= j < out@.len() ==> (#[trigger] out@[j]).id == *pairs[j].0,
        {
            out.push(ActiveReadInfo { id: *k });
        }
        proof {
            assert forall|i: int| 0 <= i < out@.len() implies self.reads().contains_key(
                (#[trigger] out@[i]).id,
            ) by {
                assert(self.map@.contains_key(*pairs[i].0));
            }
            assert forall|id: u64| #[trigger] self.reads().contains_key(id) implies exists|i: int|
                0 <= i < out@.len() && (#[trigger] out@[i]).id == id by {
                assert(pairs.contains((&id, &self.map@[id])));
                let i = choose|i: int| 0 <= i < pairs.len() && pairs[i] == (&id, &self.map@[id]);
                assert(out@[i].id == id);
            }
        }
        out
    }

    /// The least registered snapshot.
    pub fn min_read_lsn(&self) -> (r: Option<u64>)
        ensures
            match r {
                Some(lsn) => is_least(self.reads(), lsn),
                None => self.reads() == Map::<u64, u64>::empty(),
            },
            r matches Some(lsn) ==> (forall|id: u64| #[trigger]
                self.reads().contains_key(id) ==> lsn <= self.reads()[id]) && (exists|id: u64|
                #[trigger]
                self.reads().contains_key(id) && self.reads()[id] == lsn),
    {
        let mut least: Option<u64> = None;
        let ghost pairs = spec_btree_map_iter(&self.map).remaining();
        for (k, v) in it: self.map.iter()
            invariant
                it.seq() == pairs,
                match least {
                    Some(m) => {
                        &&& exists|j: int| 0 <= j < it.index() && *(#[trigger] pairs[j]).1 == m
                        &&& forall|j: int| 0 <= j < it.index() ==> m <= *(#[trigger] pairs[j]).1
                    },
                    None => it.index() == 0,
                },
        {
            assert(*pairs[it.index() as int].1 == *v);
            match least {
                Some(m) => {
                    if *v < m {
                        least = Some(*v);
                    }
                },
                None => {
                    least = Some(*v);
                },
            }
        }
        proof {
            match least {
                Some(m) => {
                    let j = choose|j: int| 0 <= j < pairs.len() && *(#[trigger] pairs[j]).1 == m;
                    assert(self.map@.contains_key(*pairs[j].0));
                    assert(self.map@[*pairs[j].0] == m);
                    assert forall|id: u64| #[trigger] self.reads().contains_key(id) implies m
                        <= self.reads()[id] by {
                        assert(pairs.contains((&id, &self.map@[id])));
                        let i = choose|i: int|
                            0 <= i < pairs.len() && pairs[i] == (&id, &self.map@[id]);
                        assert(*pairs[i].1 == self.map@[id]);
                    }
                },
                None => {
                    assert forall|id: u64| !self.map@.contains_key(id) by {
                        if self.map@.contains_key(id) {
                            assert(pairs.contains((&id, &self.map@[id])));
                        }
                    }
                    assert(self.map@ =~= Map::empty());
                },
            }
        }
        least
    }

    /// Registered reads.
    pub fn len(&self) -> (r: usize)
        ensures
            r == self.reads().len(),
    {
        self.map.len()
    }
}

impl Default for ActiveReads {
    /// As `new`.
    fn default() -> (r: ActiveReads)
        ensures
            r.wf(),
            r.reads() == Map::<u64, u64>::empty(),
    {
        ActiveReads::new()
    }
}

impl ReadGuard {
    pub fn id(&self) -> (r: u64)
        ensures
            r == self.id,
    {
        self.id
    }

    /// Whether the read is still registered.
    pub fn is_active(&self, reads: &ActiveReads) -> (r: bool)
        ensures
            r == reads.reads().contains_key(self.id),
    {
        reads.contains(self.id)
    }

    /// Ends the read.
    pub fn release(self, reads: &mut ActiveReads)
        requires
            old(reads).wf(),
        ensures
            final(reads).wf(),
            final(reads).next_id == old(reads).next_id,
            final(reads).reads() == old(reads).reads().remove(self.id),
    {
        reads.unregister(self.id);
    }
}

/// Ending a read gives back the snapshots that were registered before it began.
pub proof fn law_register_then_release(reads: Map<u64, u64>, id: u64, read_lsn: u64)
    requires
        !reads.contains_key(id),
    ensures
        reads.insert(id, read_lsn).remove(id) == reads,
{
    assert(reads.insert(id, read_lsn).remove(id) =~= reads);
}

} // verus!
