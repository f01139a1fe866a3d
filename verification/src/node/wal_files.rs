//! Segment files of the write-ahead log: their names, their use of space, and
//! which of them may go.
use vstd::prelude::*;
use vstd::string::*;

use super::config::StorageMaintenanceConfig;
use super::wal_codec::{law_segment_lsn_bounds_batches, log_batches, max_end_lsn};
use crate::text::{padded_dec, padded_string, parse_dec, parse_number, strip_prefix, strip_suffix,
    stripped_prefix, stripped_suffix};

verus! {

/// The name of a segment file.
pub open spec fn segment_name(file_id: int) -> Seq<char> {
    "wal-"@ + padded_dec(file_id, 20) + ".log"@
}

/// The segment that a file name stands for.
pub open spec fn segment_id(name: Seq<char>) -> Option<int> {
    match stripped_prefix(name, "wal-"@) {
        Some(rest) => match stripped_suffix(rest, ".log"@) {
            Some(id) => parse_dec(id, u64::MAX as int),
            None => None,
        },
        None => None,
    }
}

/// The name of a segment file.
pub fn wal_segment_name(file_id: u64) -> (r: String)
    ensures
        r@ == segment_name(file_id as int),
{
    let mut out = String::from_str("wal-");
    let d = padded_string(file_id, 20);
    out.append(d.as_str());
    out.append(".log");
    out
}

/// The segment that a file name stands for.
pub fn parse_wal_segment_name(name: &str) -> (r: Option<u64>)
    ensures
        match r {
            Some(id) => segment_id(name@) == Some(id as int),
            None => segment_id(name@) is None,
        },
{
    match strip_prefix(name, "wal-") {
        Some(rest) => match strip_suffix(rest, ".log") {
            Some(id) => parse_number(id, u64::MAX),
            None => None,
        },
        None => None,
    }
}

/// A segment is found again by its name.
pub proof fn law_segment_name_round_trip(file_id: u64)
    ensures
        segment_id(segment_name(file_id as int)) == Some(file_id as int),
{
    let d = padded_dec(file_id as int, 20);
    let name = segment_name(file_id as int);
    let rest = d + ".log"@;
    crate::text::law_padded_round_trip(file_id as int, 20, u64::MAX as int);
    assert(name =~= "wal-"@ + rest);
    assert(name.take("wal-"@.len() as int) =~= "wal-"@);
    assert(name.skip("wal-"@.len() as int) =~= rest);
    assert(rest.skip(rest.len() - ".log"@.len()) =~= ".log"@);
    assert(rest.take(rest.len() - ".log"@.len()) =~= d);
}

/// `a` in ascending order.
pub open spec fn is_sorted(a: Seq<u64>) -> bool {
    forall|i: int, j: int| 0 <= i < j < a.len() ==> #[trigger] a[i] <= #[trigger] a[j]
}

fn insert_sorted(ids: &mut Vec<u64>, id: u64)
    requires
        is_sorted(old(ids)@),
    ensures
        is_sorted(final(ids)@),
        final(ids)@.to_multiset() == old(ids)@.to_multiset().insert(id),
{
    let ghost before = ids@;
    let n: usize = ids.len();
    let mut i: usize = n;
    while i > 0 && ids[i - 1] > id
        invariant
            n == ids@.len(),
            ids@ == before,
            i <= n,
            is_sorted(before),
            forall|j: int| i <= j < n ==> #[trigger] before[j] > id,
        decreases i,
    {
        i -= 1;
    }
    ids.insert(i, id);
    proof {
        broadcast use vstd::seq_lib::group_to_multiset_ensures;

        assert forall|a: int, b: int| 0 <= a < b < ids@.len() implies #[trigger] ids@[a]
            <= #[trigger] ids@[b] by {
            let oa = if a < i { a } else { a - 1 };
            let ob = if b < i { b } else { b - 1 };
            if a != i && b != i {
                assert(ids@[a] == before[oa] && ids@[b] == before[ob]);
            } else if a == i {
                assert(ids@[b] == before[b - 1]);
            } else {
                assert(ids@[a] == before[a]);
                if i > 0 {
                    assert(before[a] <= before[i - 1]);
                }
            }
        }
    }
}

/// The segments among some file names, in ascending order.
pub open spec fn segment_ids(names: Seq<String>, n: int) -> vstd::multiset::Multiset<u64>
    decreases n,
{
    if n <= 0 {
        vstd::multiset::Multiset::empty()
    } else {
        match segment_id(names[n - 1]@) {
            Some(id) => segment_ids(names, n - 1).insert(id as u64),
            None => segment_ids(names, n - 1),
        }
    }
}

/// The segments among the file names of a directory, in ascending order.
pub fn list_wal_segments(names: &Vec<String>) -> (r: Vec<u64>)
    ensures
        is_sorted(r@),
        r@.to_multiset() == segment_ids(names@, names@.len() as int),
{
    broadcast use vstd::seq_lib::group_to_multiset_ensures;

    let mut out: Vec<u64> = Vec::new();
    let n: usize = names.len();
    let mut i: usize = 0;
    assert(out@.to_multiset() =~= vstd::multiset::Multiset::empty());
    while i < n
        invariant
            n == names@.len(),
            i <= n,
            is_sorted(out@),
            out@.to_multiset() == segment_ids(names@, i as int),
        decreases n - i,
    {
        match parse_wal_segment_name(names[i].as_str()) {
            Some(id) => insert_sorted(&mut out, id),
            None => {},
        }
        i += 1;
    }
    out
}

/// The sum, or `u64::MAX` when it does not fit.
pub open spec fn saturated_sum(a: Seq<u64>, n: int) -> int
    decreases n,
{
    if n <= 0 {
        0
    } else if saturated_sum(a, n - 1) + a[n - 1] > u64::MAX {
        u64::MAX as int
    } else {
        saturated_sum(a, n - 1) + a[n - 1]
    }
}

/// Segments and their bytes, of segments with the given sizes.
pub fn wal_usage(sizes: &Vec<u64>) -> (r: (usize, u64))
    ensures
        r.0 == sizes@.len(),
        r.1 == saturated_sum(sizes@, sizes@.len() as int),
{
    let n: usize = sizes.len();
    let mut bytes: u64 = 0;
    let mut i: usize = 0;
    while i < n
        invariant
            n == sizes@.len(),
            i <= n,
            bytes == saturated_sum(sizes@, i as int),
        decreases n - i,
    {
        bytes = bytes.saturating_add(sizes[i]);
        i += 1;
    }
    (n, bytes)
}

/// More bytes or segments than the limits allow, once `incoming` bytes have come.
pub open spec fn over_limits(
    segments: int,
    bytes: int,
    config: StorageMaintenanceConfig,
    incoming: int,
) -> bool {
    ||| (if bytes + incoming > u64::MAX {
        u64::MAX as int
    } else {
        bytes + incoming
    }) > config.max_wal_bytes
    ||| segments > config.max_wal_segments
}

/// The usage, if it exceeds the limits once `incoming_bytes` have come.
pub fn wal_usage_exceeds_limits(
    segments: usize,
    bytes: u64,
    config: &StorageMaintenanceConfig,
    incoming_bytes: u64,
) -> (r: Option<(usize, u64)>)
    ensures
        r == (if over_limits(segments as int, bytes as int, *config, incoming_bytes as int) {
            Some((segments, bytes))
        } else {
            None
        }),
{
    let bytes_over: bool = bytes.saturating_add(incoming_bytes) > config.max_wal_bytes;
    let segments_over: bool = segments > config.max_wal_segments;
    if bytes_over || segments_over {
        Some((segments, bytes))
    } else {
        None
    }
}

/// Of the segments `segments`, whose greatest LSNs are `max_lsns`, those that a
/// checkpoint made superfluous. The last segment stays.
pub open spec fn removable_segments(
    segments: Seq<u64>,
    max_lsns: Seq<u64>,
    checkpoint_lsn: u64,
    n: int,
) -> Seq<u64>
    decreases n,
{
    if n <= 0 {
        seq![]
    } else if 0 < max_lsns[n - 1] <= checkpoint_lsn {
        removable_segments(segments, max_lsns, checkpoint_lsn, n - 1).push(segments[n - 1])
    } else {
        removable_segments(segments, max_lsns, checkpoint_lsn, n - 1)
    }
}

/// The segments that a checkpoint at `checkpoint_lsn` made superfluous.
pub fn truncate_wal_segments(
    segments: &Vec<u64>,
    max_lsns: &Vec<u64>,
    checkpoint_lsn: u64,
) -> (r: Vec<u64>)
    requires
        segments@.len() == max_lsns@.len(),
    ensures
        r@ == removable_segments(segments@, max_lsns@, checkpoint_lsn, segments@.len() - 1),
{
    let mut out: Vec<u64> = Vec::new();
    let n: usize = segments.len();
    if n <= 1 {
        return out;
    }
    let mut i: usize = 0;
    while i < n - 1
        invariant
            n == segments@.len(),
            n == max_lsns@.len(),
            n >= 1,
            i <= n - 1,
            out@ == removable_segments(segments@, max_lsns@, checkpoint_lsn, i as int),
        decreases n - i,
    {
        if max_lsns[i] > 0 && max_lsns[i] <= checkpoint_lsn {
            out.push(segments[i]);
        }
        i += 1;
    }
    out
}

/// The last segment, and every segment with records beyond the checkpoint, stays.
pub proof fn law_truncate_keeps_unapplied(
    segments: Seq<u64>,
    max_lsns: Seq<u64>,
    checkpoint_lsn: u64,
    n: int,
    id: u64,
)
    requires
        segments.len() == max_lsns.len(),
        0 <= n <= segments.len(),
        removable_segments(segments, max_lsns, checkpoint_lsn, n).contains(id),
    ensures
        exists|i: int| 0 <= i < n && segments[i] == id && #[trigger] max_lsns[i] <= checkpoint_lsn,
    decreases n,
{
    let all = removable_segments(segments, max_lsns, checkpoint_lsn, n);
    let k = choose|k: int| 0 <= k < all.len() && all[k] == id;
    if n > 0 {
        let before = removable_segments(segments, max_lsns, checkpoint_lsn, n - 1);
        if k < before.len() {
            assert(before[k] == id);
            law_truncate_keeps_unapplied(segments, max_lsns, checkpoint_lsn, n - 1, id);
        } else {
            assert(segments[n - 1] == id && max_lsns[n - 1] <= checkpoint_lsn);
        }
    }
}

proof fn lemma_removable(
    segments: Seq<u64>,
    max_lsns: Seq<u64>,
    checkpoint_lsn: u64,
    n: int,
    id: u64,
)
    requires
        segments.len() == max_lsns.len(),
        0 <= n <= segments.len(),
    ensures
        removable_segments(segments, max_lsns, checkpoint_lsn, n).contains(id) <==> exists|i: int|
            0 <= i < n && #[trigger] segments[i] == id && 0 < max_lsns[i] <= checkpoint_lsn,
    decreases n,
{
    if n > 0 {
        lemma_removable(segments, max_lsns, checkpoint_lsn, n - 1, id);
        let before = removable_segments(segments, max_lsns, checkpoint_lsn, n - 1);
        let all = removable_segments(segments, max_lsns, checkpoint_lsn, n);
        if before.contains(id) {
            let j = before.index_of(id);
            assert(all[j] == id);
            let i = choose|i: int|
                0 <= i < n - 1 && #[trigger] segments[i] == id && 0 < max_lsns[i]
                    <= checkpoint_lsn;
            assert(0 <= i < n && segments[i] == id);
        }
        if all.contains(id) && !before.contains(id) {
            let j = all.index_of(id);
            if j < before.len() {
                assert(before[j] == id);
            }
            assert(segments[n - 1] == id);
        }
        if segments[n - 1] == id && 0 < max_lsns[n - 1] <= checkpoint_lsn {
            assert(all.last() == id);
        }
    }
}

/// Truncation removes exactly the segments before the last one that have records, none
/// of them beyond the checkpoint. The segment that is written to stays.
pub proof fn law_truncation_removes_checkpointed(
    segments: Seq<u64>,
    max_lsns: Seq<u64>,
    checkpoint_lsn: u64,
    id: u64,
)
    requires
        segments.len() == max_lsns.len(),
        segments.len() > 0,
        forall|i: int, j: int| 0 <= i < j < segments.len() ==> #[trigger] segments[i]
            < #[trigger] segments[j],
    ensures
        ({
            let gone = removable_segments(
                segments,
                max_lsns,
                checkpoint_lsn,
                segments.len() - 1,
            );
            &&& gone.contains(id) <==> exists|i: int|
                0 <= i < segments.len() - 1 && #[trigger] segments[i] == id && 0 < max_lsns[i]
                    <= checkpoint_lsn
            &&& !gone.contains(segments.last())
        }),
{
    lemma_removable(segments, max_lsns, checkpoint_lsn, segments.len() - 1, id);
    lemma_removable(segments, max_lsns, checkpoint_lsn, segments.len() - 1, segments.last());
}

/// No log record is lost by truncation that a checkpoint did not cover: every batch that
/// can be read from a removed segment ends at or before the checkpoint.
///
/// `logs` are the bytes of the segments, and `max_lsns` their LSNs.
pub proof fn law_truncated_records_are_checkpointed(
    segments: Seq<u64>,
    logs: Seq<Seq<u8>>,
    max_lsns: Seq<u64>,
    checkpoint_lsn: u64,
    k: int,
    b: int,
)
    requires
        segments.len() == logs.len(),
        segments.len() == max_lsns.len(),
        forall|i: int, j: int| 0 <= i < j < segments.len() ==> #[trigger] segments[i]
            < #[trigger] segments[j],
        forall|i: int|
            0 <= i < logs.len() ==> #[trigger] max_lsns[i] == max_end_lsn(log_batches(logs[i], 0)),
        0 <= k < segments.len(),
        removable_segments(segments, max_lsns, checkpoint_lsn, segments.len() - 1).contains(
            segments[k],
        ),
        0 <= b < log_batches(logs[k], 0).len(),
    ensures
        log_batches(logs[k], 0)[b].end_lsn <= checkpoint_lsn,
        k < segments.len() - 1,
{
    lemma_removable(segments, max_lsns, checkpoint_lsn, segments.len() - 1, segments[k]);
    let i = choose|i: int|
        0 <= i < segments.len() - 1 && #[trigger] segments[i] == segments[k] && 0 < max_lsns[i]
            <= checkpoint_lsn;
    assert(i == k) by {
        if i < k {
            assert(segments[i] < segments[k]);
        } else if k < i {
            assert(segments[k] < segments[i]);
        }
    }
    law_segment_lsn_bounds_batches(log_batches(logs[k], 0));
    assert(max_lsns[k] == max_end_lsn(log_batches(logs[k], 0)));
}

/// The bytes of the log are the sum of its segments' sizes, as far as 64 bits can say.
pub proof fn law_usage_is_the_sum(a: Seq<u64>, n: int)
    requires
        0 <= n <= a.len(),
    ensures
        ({
            let sum = a.take(n).fold_left(0int, |s: int, x: u64| s + x);
            &&& sum >= 0
            &&& saturated_sum(a, n) == (if sum <= u64::MAX {
                sum
            } else {
                u64::MAX as int
            })
        }),
    decreases n,
{
    let f = |s: int, x: u64| s + x;
    if n > 0 {
        law_usage_is_the_sum(a, n - 1);
        assert(a.take(n).drop_last() =~= a.take(n - 1));
        assert(a.take(n).last() == a[n - 1]);
        reveal_with_fuel(Seq::fold_left, 2);
    } else {
        assert(a.take(0) =~= Seq::<u64>::empty());
        reveal_with_fuel(Seq::fold_left, 2);
    }
}

/// A log is over its limits exactly if it has more segments than allowed, or more bytes,
/// once those that come are counted.
pub proof fn law_limits(
    segments: int,
    bytes: int,
    config: StorageMaintenanceConfig,
    incoming: int,
)
    requires
        0 <= bytes,
        0 <= incoming,
        bytes + incoming <= u64::MAX,
    ensures
        over_limits(segments, bytes, config, incoming) <==> segments > config.max_wal_segments
            || bytes + incoming > config.max_wal_bytes,
{
}

/// A segment is listed exactly if a file has its name.
pub proof fn law_listed_segments_have_names(names: Seq<String>, n: int, id: u64)
    requires
        0 <= n <= names.len(),
    ensures
        segment_ids(names, n).contains(id) <==> exists|i: int|
            0 <= i < n && segment_id((#[trigger] names[i])@) == Some(id as int),
        forall|i: int|
            0 <= i < n && (#[trigger] names[i])@ == "wal-"@ + padded_dec(id as int, 20) + ".log"@
                ==> segment_ids(names, n).contains(id),
    decreases n,
{
    if n > 0 {
        law_listed_segments_have_names(names, n - 1, id);
        if exists|i: int| 0 <= i < n - 1 && segment_id((#[trigger] names[i])@) == Some(id as int) {
            let i = choose|i: int|
                0 <= i < n - 1 && segment_id((#[trigger] names[i])@) == Some(id as int);
            assert(0 <= i < n && segment_id(names[i]@) == Some(id as int));
        }
        if segment_ids(names, n).contains(id) && !segment_ids(names, n - 1).contains(id) {
            lemma_segment_id_range(names[n - 1]@);
            assert(segment_id(names[n - 1]@) == Some(id as int));
        }
        law_segment_name_round_trip(id);
        assert forall|i: int|
            0 <= i < n && (#[trigger] names[i])@ == "wal-"@ + padded_dec(id as int, 20)
                + ".log"@ implies segment_ids(names, n).contains(id) by {
            assert(names[i]@ == segment_name(id as int));
            if i < n - 1 {
                assert(segment_ids(names, n - 1).contains(id));
            }
        }
    }
}

proof fn lemma_segment_id_range(name: Seq<char>)
    ensures
        segment_id(name) matches Some(id) ==> 0 <= id <= u64::MAX,
{
    match stripped_prefix(name, "wal-"@) {
        Some(rest) => match stripped_suffix(rest, ".log"@) {
            Some(d) => {
                crate::text::lemma_parse_range(d, u64::MAX as int);
            },
            None => {},
        },
        None => {},
    }
}

} // verus!
