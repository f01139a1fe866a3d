//! The benchmark that mixes reads and writes.
use vstd::prelude::*;

use crate::args::{at_least_one, number_arg, or_default, parse_u32_or_default,
    parse_usize_or_default, texts};
use crate::common::{KEY_SIZE, VALUE_SIZE};
use crate::layout::{le8, set_u64, zeroed, zeros};
use crate::text::{contains_text, has_text, padded_dec, padded_string};
use vstd::string::*;
use vstd::utf8::*;

verus! {

/// Most tries of a write.
pub const MAX_ATTEMPTS: usize = 12;

/// Longest wait between two tries, in milliseconds.
pub const MAX_BACKOFF_MS: u64 = 25;

/// Rows that are loaded in one transaction.
pub const LOAD_BATCH: usize = 256;

#[derive(Clone, Copy, Debug, PartialEq, Eq, Structural)]
pub struct BenchConfig {
    pub records: usize,
    pub ops: usize,
    pub concurrency: usize,
    /// Reads in a hundred operations.
    pub read_ratio: u32,
}

/// Reads the settings; what is not given keeps its default.
pub fn parse_bench_config(args: &Vec<String>) -> (r: BenchConfig)
    ensures
        ({
            let a = texts(args@);
            let z = usize::MAX as int;
            let ratio = or_default(number_arg(a, "--read-ratio"@, u32::MAX as int), 80);
            &&& r.records == or_default(number_arg(a, "--records"@, z), 100_000)
            &&& r.ops == or_default(number_arg(a, "--ops"@, z), 200_000)
            &&& r.concurrency == at_least_one(or_default(number_arg(a, "--concurrency"@, z), 16))
            &&& r.read_ratio == (if ratio < 100 {
                ratio
            } else {
                100
            })
        }),
{
    let concurrency: usize = parse_usize_or_default(args, "--concurrency", 16);
    let ratio: u32 = parse_u32_or_default(args, "--read-ratio", 80);
    BenchConfig {
        records: parse_usize_or_default(args, "--records", 100_000),
        ops: parse_usize_or_default(args, "--ops", 200_000),
        concurrency: if concurrency < 1 {
            1
        } else {
            concurrency
        },
        read_ratio: if ratio < 100 {
            ratio
        } else {
            100
        },
    }
}

/// The key of a row: its number, the least byte first, and zero bytes.
pub fn key_for(id: u64) -> (r: [u8; KEY_SIZE])
    ensures
        r@ == le8(id as int) + zeros(8),
{
    let mut bytes: Vec<u8> = zeroed(8);
    set_u64(&mut bytes, 0, id);
    assert(bytes@ =~= le8(id as int));
    let mut key: [u8; KEY_SIZE] = [0u8; KEY_SIZE];
    let mut i: usize = 0;
    while i < 8
        invariant
            i <= 8,
            bytes@ == le8(id as int),
            forall|j: int| 0 <= j < i ==> #[trigger] key@[j] == le8(id as int)[j],
            forall|j: int| i <= j < KEY_SIZE ==> #[trigger] key@[j] == 0,
        decreases 8 - i,
    {
        key[i] = bytes[i];
        i += 1;
    }
    assert(key@ =~= le8(id as int) + zeros(8));
    key
}

/// The value of a row: a number and zero bytes.
pub fn value_for(id: u64) -> (r: Vec<u8>)
    ensures
        r@ == le8(id as int) + zeros(VALUE_SIZE - 8),
{
    let mut value: Vec<u8> = zeroed(VALUE_SIZE);
    set_u64(&mut value, 0, id);
    assert(value@ =~= le8(id as int) + zeros(VALUE_SIZE - 8));
    value
}

/// The key of a row as text: its number in sixteen digits, or more where it
/// has more.
pub fn text_key_for(id: u64) -> (r: Vec<u8>)
    ensures
        r@ == encode_utf8(padded_dec(id as int, 16)),
{
    let s = padded_string(id, 16);
    s.as_str().as_bytes_vec()
}

/// Operations of one of several workers: the rest of the division goes to the
/// first ones.
pub open spec fn share(ops: int, workers: int, worker: int) -> int {
    ops / workers + (if worker < ops % workers {
        1int
    } else {
        0int
    })
}

/// Operations of one worker.
pub fn worker_ops(ops: usize, concurrency: usize, worker: usize) -> (r: usize)
    requires
        concurrency > 0,
    ensures
        r == share(ops as int, concurrency as int, worker as int),
{
    let base: usize = ops / concurrency;
    let rem: usize = ops % concurrency;
    if worker < rem {
        proof {
            assert(base + 1 <= ops) by (nonlinear_arith)
                requires
                    base == ops / concurrency,
                    rem == ops % concurrency,
                    concurrency > 0,
                    rem > 0,
            ;
        }
        base + 1
    } else {
        base
    }
}

/// Operations of the first `n` workers.
pub open spec fn shares(ops: int, workers: int, n: int) -> int
    decreases n,
{
    if n <= 0 {
        0
    } else {
        shares(ops, workers, n - 1) + share(ops, workers, n - 1)
    }
}

proof fn lemma_shares(ops: int, workers: int, n: int)
    requires
        0 <= ops,
        0 < workers,
        0 <= n <= workers,
    ensures
        shares(ops, workers, n) == n * (ops / workers) + (if n < ops % workers {
            n
        } else {
            ops % workers
        }),
    decreases n,
{
    let q = ops / workers;
    assert(0 <= ops % workers < workers) by (nonlinear_arith)
        requires
            0 < workers,
    ;
    if n > 0 {
        lemma_shares(ops, workers, n - 1);
        assert(n * q == (n - 1) * q + q) by (nonlinear_arith);
    } else {
        assert(0 * q == 0);
    }
}

/// The workers share out all operations.
pub proof fn law_shares_add_up(ops: int, workers: int)
    requires
        0 <= ops,
        0 < workers,
    ensures
        shares(ops, workers, workers) == ops,
{
    lemma_shares(ops, workers, workers);
    assert(ops == workers * (ops / workers) + ops % workers && 0 <= ops % workers < workers)
        by (nonlinear_arith)
        requires
            0 < workers,
    ;
}

/// The number that a worker's write puts into its value.
pub fn write_number(worker: u64, n: u64) -> (r: u64)
    ensures
        r == (worker << 32) | n,
{
    (worker << 32) | n
}

/// Whether the text of an error tells of a state that passes.
pub fn is_transient_by_text(msg: &str) -> (r: bool)
    ensures
        r == (has_text(msg@, "quorum not reached"@) || has_text(msg@, "out of order"@) || has_text(
            msg@,
            "wal backpressure"@,
        ) || has_text(msg@, "WouldBlock"@)),
{
    contains_text(msg, "quorum not reached") || contains_text(msg, "out of order")
        || contains_text(msg, "wal backpressure") || contains_text(msg, "WouldBlock")
}

/// Whether a write is tried again after try number `attempt` failed.
pub fn tries_again(attempt: usize, retryable: bool, transient_by_text: bool) -> (r: bool)
    ensures
        r == (attempt != MAX_ATTEMPTS && (retryable || transient_by_text)),
{
    attempt != MAX_ATTEMPTS && (retryable || transient_by_text)
}

/// The next wait: twice as long, at most 25 milliseconds.
pub fn next_backoff_ms(ms: u64) -> (r: u64)
    requires
        ms <= MAX_BACKOFF_MS,
    ensures
        r == (if 2 * ms < MAX_BACKOFF_MS {
            2 * ms
        } else {
            MAX_BACKOFF_MS as int
        }),
{
    if 2 * ms < MAX_BACKOFF_MS {
        2 * ms
    } else {
        MAX_BACKOFF_MS
    }
}

/// `slice::sort_unstable`: the numbers in ascending order.
#[verifier::external_body]
fn sort_numbers(values: &mut Vec<u64>)
    ensures
        forall|i: int, j: int|
            0 <= i <= j < final(values)@.len() ==> #[trigger] final(values)@[i] <= #[trigger] final(values)@[j],
        final(values)@.to_multiset() == old(values)@.to_multiset(),
{
    values.sort_unstable()
}

/// Number `rank` of the values in ascending order, the last one where there are
/// fewer, 0 where there are none. The values are sorted on the way.
pub fn ranked(values: &mut Vec<u64>, rank: usize) -> (r: u64)
    ensures
        forall|i: int, j: int|
            0 <= i <= j < final(values)@.len() ==> #[trigger] final(values)@[i] <= #[trigger] final(values)@[j],
        final(values)@.to_multiset() == old(values)@.to_multiset(),
        r == (if final(values)@.len() == 0 {
            0
        } else if rank < final(values)@.len() {
            final(values)@[rank as int]
        } else {
            final(values)@.last()
        }),
{
    sort_numbers(values);
    let n: usize = values.len();
    if n == 0 {
        0
    } else if rank < n {
        values[rank]
    } else {
        values[n - 1]
    }
}

/// The operations are shared evenly: no worker has more than one operation more than
/// another, and an earlier worker has no fewer than a later one.
pub proof fn law_shares_are_even(ops: int, workers: int, a: int, b: int)
    requires
        0 <= ops,
        0 < workers,
        0 <= a < b < workers,
    ensures
        share(ops, workers, b) <= share(ops, workers, a) <= share(ops, workers, b) + 1,
{
}

} // verus!
