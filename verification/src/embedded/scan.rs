//! Reading ranges of rows at a snapshot.
use vstd::prelude::*;

use super::gc::byte_strings;
use super::txn::{version_at, EmbeddedCompute, EmbeddedTxn, ReadStep, RowAt};
use super::visibility::version_result;
use crate::common::{Error, Result, KEY_SIZE};
use crate::key_order::is_key;
use crate::layout::copy_bytes;
use crate::page_bptree::chain::MAX_SCAN_LEAF_HOPS;
use crate::page_bptree::node_page::LeafRow;
use crate::page_bptree::range::{lists_range, metas_of, metas_view};

verus! {

/// How a scan goes on.
#[derive(Debug)]
pub enum ScanStep {
    Done,
    /// The row at this place is not known before this transaction ends; then go on
    /// from this place.
    Wait { at: usize, txn_id: u64 },
}

/// The visible rows among `ks[from..to]`.
pub open spec fn visible_rows(
    t: EmbeddedTxn,
    c: EmbeddedCompute,
    ks: Seq<Seq<u8>>,
    from: int,
    to: int,
) -> Seq<(Seq<u8>, Seq<u8>)>
    decreases to - from,
{
    if from >= to {
        seq![]
    } else {
        let before = visible_rows(t, c, ks, from, to - 1);
        match version_at(t, c, ks[to - 1]) {
            RowAt::Value(Some(v)) => before.push((ks[to - 1], v)),
            _ => before,
        }
    }
}

/// None of the rows of `ks[from..to]` has to be waited for or cannot be read.
pub open spec fn known_rows(
    t: EmbeddedTxn,
    c: EmbeddedCompute,
    ks: Seq<Seq<u8>>,
    from: int,
    to: int,
) -> bool {
    forall|j: int| from <= j < to ==> version_at(t, c, #[trigger] ks[j]) is Value
}

/// The scan stops at the row of `ks[at]`.
pub open spec fn stopped_at<T>(
    t: EmbeddedTxn,
    c: EmbeddedCompute,
    ks: Seq<Seq<u8>>,
    from: int,
    at: int,
    r: Result<T>,
) -> bool {
    &&& from <= at < ks.len()
    &&& known_rows(t, c, ks, from, at)
    &&& version_at(t, c, ks[at]) matches RowAt::Failed(w) && version_result(t.readable(&c), w, r)
}

pub open spec fn pair_views(v: Seq<(Vec<u8>, Vec<u8>)>) -> Seq<(Seq<u8>, Seq<u8>)> {
    Seq::new(v.len(), |i: int| (v[i].0@, v[i].1@))
}

/// The keys of a list of rows.
pub open spec fn keys_of(out: Seq<(Seq<u8>, LeafRow)>) -> Seq<Seq<u8>> {
    Seq::new(out.len(), |i: int| out[i].0)
}

/// `ks` are the keys of the rows in `[start, end]`, in ascending order.
pub open spec fn range_keys(
    rows: Map<Seq<u8>, LeafRow>,
    start: Seq<u8>,
    end: Seq<u8>,
    ks: Seq<Seq<u8>>,
) -> bool {
    exists|out: Seq<(Seq<u8>, LeafRow)>| #[trigger] lists_range(rows, start, end, out) && ks
        == keys_of(out)
}

impl EmbeddedTxn {
    /// The keys of the rows that a scan of `[start, end]` (inclusive) goes through.
    pub fn start_scan(
        &self,
        compute: &EmbeddedCompute,
        elapsed_nanos: u128,
        start: &[u8],
        end: &[u8],
        limit: usize,
    ) -> (r: Result<Vec<Vec<u8>>>)
        requires
            compute.wf(),
        ensures
            if self.timed_out(elapsed_nanos) {
                r matches Err(Error::TxnTimeout)
            } else if !is_key(start@) {
                r matches Err(Error::InvalidKeySize(a, b)) && a == start@.len() && b == KEY_SIZE
            } else if !is_key(end@) {
                r matches Err(Error::InvalidKeySize(a, b)) && a == end@.len() && b == KEY_SIZE
            } else if limit == 0 || compute.tree.depth() >= MAX_SCAN_LEAF_HOPS {
                r matches Ok(ks) && ks@.len() == 0
            } else {
                r matches Ok(ks) && range_keys(
                    compute.tree.rows(),
                    start@,
                    end@,
                    byte_strings(ks@),
                )
            },
    {
        match self.ensure_not_timed_out(elapsed_nanos) {
            Ok(()) => {},
            Err(e) => {
                return Err(e);
            },
        }
        if start.len() != KEY_SIZE {
            return Err(Error::InvalidKeySize(start.len(), KEY_SIZE));
        }
        if end.len() != KEY_SIZE {
            return Err(Error::InvalidKeySize(end.len(), KEY_SIZE));
        }
        let mut out: Vec<Vec<u8>> = Vec::new();
        if limit == 0 {
            return Ok(out);
        }
        let rows = compute.tree.range_meta(start, end);
        let n: usize = rows.len();
        let mut i: usize = 0;
        while i < n
            invariant
                n == rows@.len(),
                i <= n,
                out@.len() == i,
                forall|j: int| 0 <= j < i ==> (#[trigger] out@[j])@ == metas_view(rows@)[j].0,
            decreases n - i,
        {
            out.push(copy_bytes(rows[i].0.as_slice()));
            i += 1;
        }
        proof {
            if compute.tree.depth() < MAX_SCAN_LEAF_HOPS {
                let l = choose|l: Seq<(Seq<u8>, LeafRow)>| #[trigger]
                    lists_range(compute.tree.rows(), start@, end@, l) && metas_view(rows@)
                        == metas_of(l);
                assert(metas_view(rows@).len() == rows@.len());
                assert(metas_of(l).len() == l.len());
                assert(byte_strings(out@) =~= keys_of(l)) by {
                    assert forall|j: int| 0 <= j < out@.len() implies byte_strings(out@)[j]
                        == keys_of(l)[j] by {
                        assert(out@[j]@ == metas_view(rows@)[j].0);
                        assert(metas_of(l)[j].0 == l[j].0);
                    }
                }
            }
        }
        Ok(out)
    }

    /// Collects the visible rows of `keys` from place `from` on, until there are
    /// `limit` of them in `out` or one has to be waited for.
    pub fn scan_step(
        &mut self,
        compute: &EmbeddedCompute,
        elapsed_nanos: u128,
        keys: &Vec<Vec<u8>>,
        from: usize,
        limit: usize,
        out: &mut Vec<(Vec<u8>, Vec<u8>)>,
    ) -> (r: Result<ScanStep>)
        requires
            compute.wf(),
            from <= keys@.len(),
            old(out)@.len() < limit,
            forall|i: int|
                0 <= i < keys@.len() ==> is_key((#[trigger] keys@[i])@) && old(self).row_readable(
                    compute,
                    keys@[i]@,
                ),
        ensures
            ({
                let ks = byte_strings(keys@);
                let t = *old(self);
                let c = *compute;
                if from < keys@.len() && t.timed_out(elapsed_nanos) {
                    r matches Err(Error::TxnTimeout)
                } else {
                    match r {
                        Ok(ScanStep::Done) => exists|to: int|
                            from <= to <= keys@.len() && known_rows(t, c, ks, from as int, to)
                                && pair_views(final(out)@) == pair_views(old(out)@)
                                + #[trigger] visible_rows(t, c, ks, from as int, to) && (to
                                == keys@.len() || final(out)@.len() == limit),
                        Ok(ScanStep::Wait { at, txn_id }) => {
                            &&& from <= at < keys@.len()
                            &&& known_rows(t, c, ks, from as int, at as int)
                            &&& version_at(t, c, ks[at as int]) == RowAt::Wait(txn_id)
                            &&& pair_views(final(out)@) == pair_views(old(out)@) + visible_rows(
                                t,
                                c,
                                ks,
                                from as int,
                                at as int,
                            )
                            &&& final(out)@.len() < limit
                        },
                        Err(_) => exists|at: int| #[trigger] stopped_at(t, c, ks, from as int, at, r),
                    }
                }
            }),
            final(self).only_cached_more(old(self)),
            final(self).readable(compute) == old(self).readable(compute),
    {
        let ghost ks = byte_strings(keys@);
        let ghost t0 = *self;
        let ghost c0 = *compute;
        let ghost out0 = pair_views(out@);
        let n: usize = keys.len();
        let mut i: usize = from;
        assert(pair_views(out@) =~= out0 + visible_rows(t0, c0, ks, from as int, from as int));
        while i < n
            invariant
                n == keys@.len(),
                from <= i <= n,
                ks == byte_strings(keys@),
                compute.wf(),
                t0 == *old(self),
                c0 == *compute,
                out0 == pair_views(old(out)@),
                out@.len() < limit,
                self.only_cached_more(&t0),
                self.readable(compute) == t0.readable(compute),
                forall|j: int|
                    0 <= j < keys@.len() ==> is_key((#[trigger] keys@[j])@) && t0.row_readable(
                        compute,
                        keys@[j]@,
                    ),
                i > from ==> !t0.timed_out(elapsed_nanos),
                known_rows(t0, c0, ks, from as int, i as int),
                pair_views(out@) == out0 + visible_rows(t0, c0, ks, from as int, i as int),
            decreases n - i,
        {
            let key = &keys[i];
            assert(is_key(keys@[i as int]@));
            assert(ks[i as int] == key@);
            assert(self.row_readable(compute, key@));
            assert(version_at(*self, *compute, key@) == version_at(t0, c0, key@));
            match self.try_get(compute, elapsed_nanos, key.as_slice()) {
                Err(e) => {
                    assert(!t0.timed_out(elapsed_nanos) ==> stopped_at(
                        t0,
                        c0,
                        ks,
                        from as int,
                        i as int,
                        Err::<ScanStep, Error>(e),
                    ));
                    return Err(e);
                },
                Ok(ReadStep::Wait(txn_id)) => {
                    return Ok(ScanStep::Wait { at: i, txn_id });
                },
                Ok(ReadStep::Done(None)) => {
                    assert(visible_rows(t0, c0, ks, from as int, i + 1) == visible_rows(
                        t0,
                        c0,
                        ks,
                        from as int,
                        i as int,
                    ));
                },
                Ok(ReadStep::Done(Some(v))) => {
                    let ghost before = pair_views(out@);
                    let ghost pair = (key@, v@);
                    out.push((copy_bytes(key.as_slice()), v));
                    proof {
                        assert(pair_views(out@) =~= before.push(pair));
                        let more = visible_rows(t0, c0, ks, from as int, i as int);
                        assert(visible_rows(t0, c0, ks, from as int, i + 1) == more.push(pair));
                        assert((out0 + more).push(pair) =~= out0 + more.push(pair));
                    }
                    if out.len() >= limit {
                        assert(known_rows(t0, c0, ks, from as int, i + 1));
                        return Ok(ScanStep::Done);
                    }
                },
            }
            i += 1;
        }
        Ok(ScanStep::Done)
    }

    /// Counts the visible rows of `keys` from place `from` on, until `count` is
    /// `limit` or a row has to be waited for.
    pub fn count_step(
        &mut self,
        compute: &EmbeddedCompute,
        elapsed_nanos: u128,
        keys: &Vec<Vec<u8>>,
        from: usize,
        limit: usize,
        count: &mut usize,
    ) -> (r: Result<ScanStep>)
        requires
            compute.wf(),
            from <= keys@.len(),
            *old(count) < limit,
            forall|i: int|
                0 <= i < keys@.len() ==> is_key((#[trigger] keys@[i])@) && old(self).row_readable(
                    compute,
                    keys@[i]@,
                ),
        ensures
            ({
                let ks = byte_strings(keys@);
                let t = *old(self);
                let c = *compute;
                if from < keys@.len() && t.timed_out(elapsed_nanos) {
                    r matches Err(Error::TxnTimeout)
                } else {
                    match r {
                        Ok(ScanStep::Done) => exists|to: int|
                            from <= to <= keys@.len() && known_rows(t, c, ks, from as int, to)
                                && *final(count) == *old(count) + (#[trigger] visible_rows(
                                t,
                                c,
                                ks,
                                from as int,
                                to,
                            )).len() && (to == keys@.len() || *final(count) == limit),
                        Ok(ScanStep::Wait { at, txn_id }) => {
                            &&& from <= at < keys@.len()
                            &&& known_rows(t, c, ks, from as int, at as int)
                            &&& version_at(t, c, ks[at as int]) == RowAt::Wait(txn_id)
                            &&& *final(count) == *old(count) + visible_rows(
                                t,
                                c,
                                ks,
                                from as int,
                                at as int,
                            ).len()
                            &&& *final(count) < limit
                        },
                        Err(_) => exists|at: int| #[trigger] stopped_at(t, c, ks, from as int, at, r),
                    }
                }
            }),
            final(self).only_cached_more(old(self)),
            final(self).readable(compute) == old(self).readable(compute),
    {
        let ghost ks = byte_strings(keys@);
        let ghost t0 = *self;
        let ghost c0 = *compute;
        let n: usize = keys.len();
        let mut i: usize = from;
        while i < n
            invariant
                n == keys@.len(),
                from <= i <= n,
                ks == byte_strings(keys@),
                compute.wf(),
                t0 == *old(self),
                c0 == *compute,
                *count < limit,
                self.only_cached_more(&t0),
                self.readable(compute) == t0.readable(compute),
                forall|j: int|
                    0 <= j < keys@.len() ==> is_key((#[trigger] keys@[j])@) && t0.row_readable(
                        compute,
                        keys@[j]@,
                    ),
                i > from ==> !t0.timed_out(elapsed_nanos),
                known_rows(t0, c0, ks, from as int, i as int),
                *count == *old(count) + visible_rows(t0, c0, ks, from as int, i as int).len(),
            decreases n - i,
        {
            let key = &keys[i];
            assert(is_key(keys@[i as int]@));
            assert(ks[i as int] == key@);
            assert(self.row_readable(compute, key@));
            assert(version_at(*self, *compute, key@) == version_at(t0, c0, key@));
            match self.try_get_exists(compute, elapsed_nanos, key.as_slice()) {
                Err(e) => {
                    assert(!t0.timed_out(elapsed_nanos) ==> stopped_at(
                        t0,
                        c0,
                        ks,
                        from as int,
                        i as int,
                        Err::<ScanStep, Error>(e),
                    ));
                    return Err(e);
                },
                Ok(ReadStep::Wait(txn_id)) => {
                    return Ok(ScanStep::Wait { at: i, txn_id });
                },
                Ok(ReadStep::Done(seen)) => {
                    assert(version_at(t0, c0, ks[i as int]) is Value);
                    if seen {
                        *count = *count + 1;
                        assert(*count == *old(count) + visible_rows(
                            t0,
                            c0,
                            ks,
                            from as int,
                            i + 1,
                        ).len());
                        if *count >= limit {
                            assert(known_rows(t0, c0, ks, from as int, i + 1));
                            return Ok(ScanStep::Done);
                        }
                    }
                },
            }
            i += 1;
        }
        Ok(ScanStep::Done)
    }
}

/// A scan gives the rows of its keys that the transaction sees, and no others, in the
/// order of the keys: `at` says which key each row of the result has.
pub proof fn law_scan_gives_visible_rows(
    t: EmbeddedTxn,
    c: EmbeddedCompute,
    ks: Seq<Seq<u8>>,
    from: int,
    to: int,
) -> (at: Seq<int>)
    requires
        0 <= from <= to <= ks.len(),
    ensures
        at.len() == visible_rows(t, c, ks, from, to).len(),
        forall|i: int, j: int| 0 <= i < j < at.len() ==> #[trigger] at[i] < #[trigger] at[j],
        forall|i: int|
            0 <= i < at.len() ==> from <= #[trigger] at[i] < to && version_at(t, c, ks[at[i]])
                == RowAt::Value(Some(visible_rows(t, c, ks, from, to)[i].1)) && visible_rows(
                t,
                c,
                ks,
                from,
                to,
            )[i].0 == ks[at[i]],
        forall|j: int|
            from <= j < to && (version_at(t, c, #[trigger] ks[j]) matches RowAt::Value(v) && v
                is Some) ==> at.contains(j),
    decreases to - from,
{
    if from < to {
        let before = law_scan_gives_visible_rows(t, c, ks, from, to - 1);
        match version_at(t, c, ks[to - 1]) {
            RowAt::Value(Some(v)) => {
                let at = before.push(to - 1);
                assert forall|j: int|
                    from <= j < to && (version_at(t, c, #[trigger] ks[j]) matches RowAt::Value(v)
                        && v is Some) implies at.contains(j) by {
                    if j == to - 1 {
                        assert(at[before.len() as int] == j);
                    } else {
                        let i = choose|i: int| 0 <= i < before.len() && before[i] == j;
                        assert(at[i] == j);
                    }
                }
                at
            },
            _ => before,
        }
    } else {
        seq![]
    }
}

} // verus!
