//! Transactions that are under way, and the rows they mean to write.
use vstd::prelude::*;

use crate::common::{io_error, is_io_error, Error, IoErrorKind};
use crate::key_order::lemma_increasing;
use crate::key_set::KeySet;
use crate::text::{dec, join_num};
use std::collections::BTreeMap;
use vstd::std_specs::btree::{increasing_seq, spec_btree_map_iter};
use vstd::std_specs::iter::IteratorSpec;
use vstd::string::*;

verus! {

broadcast use vstd::std_specs::btree::group_btree_axioms;

/// A transaction under way. Times are in nanoseconds from some start.
#[derive(Debug)]
pub struct PendingTxn {
    pub deadline: u128,
    pub write_keys: KeySet,
}

/// What to do about a row that another transaction means to write.
#[derive(Debug)]
pub enum WaitStep {
    /// The transaction has ended: look again.
    Gone,
    /// Wait until it ends, at most until this time.
    Until(u128),
    /// It lasts too long.
    TimedOut(Error),
}

#[derive(Debug)]
pub struct TxnRegistry {
    pub txns: BTreeMap<u64, PendingTxn>,
}

pub open spec fn wait_text(txn_id: int) -> Seq<char> {
    "timed out waiting for intent txn_id="@ + dec(txn_id) + " deadline_with_grace_elapsed"@
}

impl TxnRegistry {
    pub open spec fn wf(&self) -> bool {
        forall|id: u64| #[trigger] self.txns@.contains_key(id) ==> self.txns@[id].write_keys.wf()
    }

    pub fn new() -> (r: TxnRegistry)
        ensures
            r.wf(),
            r.txns@ == Map::<u64, PendingTxn>::empty(),
    {
        TxnRegistry { txns: BTreeMap::new() }
    }

    /// Takes note of a transaction that begins.
    pub fn register_pending_txn(&mut self, txn_id: u64, deadline: u128)
        requires
            old(self).wf(),
        ensures
            final(self).wf(),
            final(self).txns@.contains_key(txn_id),
            final(self).txns@ == old(self).txns@.insert(txn_id, final(self).txns@[txn_id]),
            final(self).txns@[txn_id].deadline == deadline,
            final(self).txns@[txn_id].write_keys@ == Set::<Seq<u8>>::empty(),
    {
        let p = PendingTxn { deadline, write_keys: KeySet::new() };
        self.txns.insert(txn_id, p);
    }

    /// Takes note of a row that a transaction means to write, if it is known.
    pub fn record_txn_write(&mut self, txn_id: u64, key: &[u8])
        requires
            old(self).wf(),
        ensures
            final(self).wf(),
            final(self).txns@.dom() == old(self).txns@.dom(),
            forall|id: u64| #[trigger]
                old(self).txns@.contains_key(id) && id != txn_id ==> final(self).txns@[id] == old(
                    self,
                ).txns@[id],
            old(self).txns@.contains_key(txn_id) ==> final(self).txns@[txn_id].deadline == old(
                self,
            ).txns@[txn_id].deadline && final(self).txns@[txn_id].write_keys@ == old(
                self,
            ).txns@[txn_id].write_keys@.insert(key@),
    {
        match self.txns.remove(&txn_id) {
            Some(p) => {
                let mut p = p;
                p.write_keys.insert(key);
                self.txns.insert(txn_id, p);
                assert(self.txns@.dom() =~= old(self).txns@.dom());
            },
            None => {
                assert(self.txns@ =~= old(self).txns@);
            },
        }
    }

    /// Forgets a transaction that has ended.
    pub fn remove_pending_txn(&mut self, txn_id: u64) -> (r: Option<PendingTxn>)
        requires
            old(self).wf(),
        ensures
            final(self).wf(),
            final(self).txns@ == old(self).txns@.remove(txn_id),
            match r {
                Some(p) => old(self).txns@.contains_key(txn_id) && p == old(self).txns@[txn_id],
                None => !old(self).txns@.contains_key(txn_id),
            },
    {
        self.txns.remove(&txn_id)
    }

    /// The next step for a reader or writer that met a row which `txn_id` means to write.
    pub fn wait_on_pending_txn(&self, txn_id: u64, now: u128, grace: u128) -> (r: WaitStep)
        requires
            self.txns@.contains_key(txn_id) ==> self.txns@[txn_id].deadline + grace <= u128::MAX,
        ensures
            if !self.txns@.contains_key(txn_id) {
                r is Gone
            } else if now >= self.txns@[txn_id].deadline + grace {
                r matches WaitStep::TimedOut(e) && is_io_error(
                    e,
                    IoErrorKind::WouldBlock,
                    wait_text(txn_id as int),
                )
            } else {
                r matches WaitStep::Until(t) && t == self.txns@[txn_id].deadline + grace
            },
    {
        match self.txns.get(&txn_id) {
            None => WaitStep::Gone,
            Some(p) => {
                let deadline: u128 = p.deadline + grace;
                if now >= deadline {
                    WaitStep::TimedOut(wait_timeout(txn_id))
                } else {
                    WaitStep::Until(deadline)
                }
            },
        }
    }

    /// The transactions whose time is up, in ascending order of id.
    pub fn expired(&self, now: u128) -> (r: Vec<u64>)
        ensures
            forall|i: int|
                0 <= i < r@.len() ==> self.txns@.contains_key(#[trigger] r@[i])
                    && self.txns@[r@[i]].deadline <= now,
            forall|id: u64| #[trigger]
                self.txns@.contains_key(id) && self.txns@[id].deadline <= now ==> r@.contains(id),
            forall|i: int, j: int| 0 <= i < j < r@.len() ==> #[trigger] r@[i] < #[trigger] r@[j],
    {
        let ghost m = self.txns@;
        let mut out: Vec<u64> = Vec::new();
        let ghost pairs = spec_btree_map_iter(&self.txns).remaining();
        let it0 = self.txns.iter();
        proof {
            let ks = pairs.map_values(|kv: (&u64, &PendingTxn)| *kv.0);
            assert(increasing_seq(ks));
            lemma_increasing(ks);
            assert forall|i: int, j: int| 0 <= i < j < pairs.len() implies *(#[trigger] pairs[i]).0
                < *(#[trigger] pairs[j]).0 by {
                assert(ks[i] == *pairs[i].0 && ks[j] == *pairs[j].0);
            }
        }
        for (id, p) in it: it0
            invariant
                it.seq() == pairs,
                m == self.txns@,
                forall|i: int, j: int|
                    0 <= i < j < pairs.len() ==> *(#[trigger] pairs[i]).0 < *(
                    #[trigger] pairs[j]).0,
                forall|i: int|
                    0 <= i < pairs.len() ==> m.contains_key(*(#[trigger] pairs[i]).0)
                        && m[*pairs[i].0] == *pairs[i].1,
                forall|i: int|
                    0 <= i < out@.len() ==> m.contains_key(#[trigger] out@[i])
                        && m[out@[i]].deadline <= now && exists|j: int|
                        0 <= j < it.index() && *(#[trigger] pairs[j]).0 == out@[i],
                forall|i: int, j: int|
                    0 <= i < j < out@.len() ==> #[trigger] out@[i] < #[trigger] out@[j],
                forall|j: int|
                    0 <= j < it.index() && m[*(#[trigger] pairs[j]).0].deadline <= now
                        ==> out@.contains(*pairs[j].0),
        {
            let ghost n = it.index() as int;
            assert(*pairs[n].0 == *id);
            assert(m[*id] == *p);
            let ghost prev = out@;
            if p.deadline <= now {
                out.push(*id);
                proof {
                    assert forall|i: int| 0 <= i < prev.len() implies #[trigger] out@[i] < *id by {
                        assert(out@[i] == prev[i]);
                        let j = choose|j: int| 0 <= j < n && *(#[trigger] pairs[j]).0 == prev[i];
                        assert(*pairs[j].0 < *pairs[n].0);
                    }
                    assert forall|j: int|
                        0 <= j < n && m[*(#[trigger] pairs[j]).0].deadline <= now implies out@.contains(
                    *pairs[j].0) by {
                        let i = choose|i: int| 0 <= i < prev.len() && prev[i] == *pairs[j].0;
                        assert(out@[i] == prev[i]);
                    }
                    assert(out@[prev.len() as int] == *id);
                }
            }
        }
        proof {
            assert forall|id: u64| #[trigger]
                m.contains_key(id) && m[id].deadline <= now implies out@.contains(id) by {
                assert(pairs.contains((&id, &m[id])));
                let j = choose|j: int| 0 <= j < pairs.len() && pairs[j] == (&id, &m[id]);
                assert(*pairs[j].0 == id);
                assert(m[*pairs[j].0].deadline <= now);
            }
        }
        out
    }
}

/// The error of waiting too long.
pub fn wait_timeout(txn_id: u64) -> (r: Error)
    ensures
        is_io_error(r, IoErrorKind::WouldBlock, wait_text(txn_id as int)),
{
    let mut m = join_num("timed out waiting for intent txn_id=", txn_id);
    m.append(" deadline_with_grace_elapsed");
    io_error(IoErrorKind::WouldBlock, m.as_str())
}

} // verus!
