//! Command line arguments: `--name value` pairs.
use vstd::prelude::*;

use crate::node::config::StorageMaintenanceConfig;
use crate::text::{lower_eq, lower_text, parse_dec, parse_number, str_eq};
use vstd::string::*;

verus! {

pub open spec fn texts(args: Seq<String>) -> Seq<Seq<char>> {
    Seq::new(args.len(), |i: int| args[i]@)
}

/// What stands behind the first occurrence of a name.
pub open spec fn arg_value(args: Seq<Seq<char>>, key: Seq<char>) -> Option<Seq<char>>
    decreases args.len(),
{
    if args.len() == 0 {
        None
    } else if args[0] == key {
        if args.len() > 1 {
            Some(args[1])
        } else {
            None
        }
    } else {
        arg_value(args.drop_first(), key)
    }
}

/// What stands behind the first occurrence of a name.
pub fn parse_arg(args: &Vec<String>, key: &str) -> (r: Option<String>)
    ensures
        match r {
            Some(v) => arg_value(texts(args@), key@) == Some(v@),
            None => arg_value(texts(args@), key@) is None,
        },
{
    let ghost ts = texts(args@);
    let n: usize = args.len();
    let mut i: usize = 0;
    assert(ts.skip(0) =~= ts);
    while i < n
        invariant
            n == args@.len(),
            ts == texts(args@),
            i <= n,
            arg_value(ts, key@) == arg_value(ts.skip(i as int), key@),
        decreases n - i,
    {
        let ghost rest = ts.skip(i as int);
        assert(rest[0] == args@[i as int]@);
        assert(rest.drop_first() =~= ts.skip(i + 1));
        if str_eq(args[i].as_str(), key) {
            if i + 1 < n {
                assert(rest[1] == args@[i + 1]@);
                return Some(String::from_str(args[i + 1].as_str()));
            }
            return None;
        }
        i += 1;
    }
    None
}

/// A number behind a name, not above `max`.
pub open spec fn number_arg(args: Seq<Seq<char>>, key: Seq<char>, max: int) -> Option<int> {
    match arg_value(args, key) {
        Some(v) => parse_dec(v, max),
        None => None,
    }
}

/// The number behind a name.
pub fn parse_u64(args: &Vec<String>, key: &str) -> (r: Option<u64>)
    ensures
        match r {
            Some(v) => number_arg(texts(args@), key@, u64::MAX as int) == Some(v as int),
            None => number_arg(texts(args@), key@, u64::MAX as int) is None,
        },
{
    match parse_arg(args, key) {
        Some(v) => parse_number(v.as_str(), u64::MAX),
        None => None,
    }
}

/// The number behind a name.
pub fn parse_usize(args: &Vec<String>, key: &str) -> (r: Option<usize>)
    ensures
        match r {
            Some(v) => number_arg(texts(args@), key@, usize::MAX as int) == Some(v as int),
            None => number_arg(texts(args@), key@, usize::MAX as int) is None,
        },
{
    match parse_arg(args, key) {
        Some(v) => match parse_number(v.as_str(), usize::MAX as u64) {
            Some(x) => Some(x as usize),
            None => None,
        },
        None => None,
    }
}

pub open spec fn is_yes(s: Seq<char>) -> bool {
    s == "1"@ || s == "true"@ || s == "yes"@ || s == "on"@
}

pub open spec fn is_no(s: Seq<char>) -> bool {
    s == "0"@ || s == "false"@ || s == "no"@ || s == "off"@
}

/// A yes or a no behind a name, in upper or lower case.
pub open spec fn bool_arg(args: Seq<Seq<char>>, key: Seq<char>) -> Option<bool> {
    match arg_value(args, key) {
        Some(v) => if is_yes(lower_text(v)) {
            Some(true)
        } else if is_no(lower_text(v)) {
            Some(false)
        } else {
            None
        },
        None => None,
    }
}

/// The yes or no behind a name.
pub fn parse_bool(args: &Vec<String>, key: &str) -> (r: Option<bool>)
    ensures
        r == bool_arg(texts(args@), key@),
{
    match parse_arg(args, key) {
        None => None,
        Some(text) => {
            let v = text.as_str();
            if lower_eq(v, "1") || lower_eq(v, "true") || lower_eq(v, "yes") || lower_eq(v, "on") {
                Some(true)
            } else if lower_eq(v, "0") || lower_eq(v, "false") || lower_eq(v, "no") || lower_eq(
                v,
                "off",
            ) {
                Some(false)
            } else {
                None
            }
        },
    }
}

pub open spec fn or_default(v: Option<int>, default: int) -> int {
    match v {
        Some(x) => x,
        None => default,
    }
}

/// The number behind a name, or a default.
pub fn parse_u64_or_default(args: &Vec<String>, key: &str, default: u64) -> (r: u64)
    ensures
        r == or_default(number_arg(texts(args@), key@, u64::MAX as int), default as int),
{
    match parse_u64(args, key) {
        Some(v) => v,
        None => default,
    }
}

/// The number behind a name, or a default.
pub fn parse_usize_or_default(args: &Vec<String>, key: &str, default: usize) -> (r: usize)
    ensures
        r == or_default(number_arg(texts(args@), key@, usize::MAX as int), default as int),
{
    match parse_usize(args, key) {
        Some(v) => v,
        None => default,
    }
}

/// The number behind a name, or a default.
pub fn parse_u32_or_default(args: &Vec<String>, key: &str, default: u32) -> (r: u32)
    ensures
        r == or_default(number_arg(texts(args@), key@, u32::MAX as int), default as int),
{
    match parse_arg(args, key) {
        Some(v) => match parse_number(v.as_str(), u32::MAX as u64) {
            Some(x) => x as u32,
            None => default,
        },
        None => default,
    }
}

pub open spec fn at_least_one(v: int) -> int {
    if v < 1 {
        1
    } else {
        v
    }
}

/// A positive number behind a name, or a default; zero counts as one.
pub open spec fn positive_arg(
    args: Seq<Seq<char>>,
    key: Seq<char>,
    max: int,
    default: int,
) -> int {
    match number_arg(args, key, max) {
        Some(v) => at_least_one(v),
        None => default,
    }
}

fn positive_u64(args: &Vec<String>, key: &str, default: u64) -> (r: u64)
    ensures
        r == positive_arg(texts(args@), key@, u64::MAX as int, default as int),
{
    match parse_u64(args, key) {
        Some(v) => if v < 1 {
            1
        } else {
            v
        },
        None => default,
    }
}

fn positive_usize(args: &Vec<String>, key: &str, default: usize) -> (r: usize)
    ensures
        r == positive_arg(texts(args@), key@, usize::MAX as int, default as int),
{
    match parse_usize(args, key) {
        Some(v) => if v < 1 {
            1
        } else {
            v
        },
        None => default,
    }
}

/// The settings of the storage node from its arguments. Limits are at least
/// one; what is not given keeps its default.
pub fn build_maintenance_from_args(args: &Vec<String>) -> (r: StorageMaintenanceConfig)
    ensures
        ({
            let a = texts(args@);
            let u = u64::MAX as int;
            let z = usize::MAX as int;
            &&& r.checkpoint.interval_nanos == positive_arg(
                a,
                "--checkpoint-interval-secs"@,
                u,
                60,
            ) * 1_000_000_000
            &&& r.checkpoint.max_dirty_pages == positive_arg(
                a,
                "--checkpoint-max-dirty-pages"@,
                z,
                1000,
            )
            &&& r.checkpoint.max_dirty_bytes == positive_arg(
                a,
                "--checkpoint-max-dirty-bytes"@,
                z,
                64int * 1024 * 1024,
            )
            &&& r.truncate_wal == match bool_arg(a, "--wal-truncate"@) {
                Some(v) => v,
                None => true,
            }
            &&& r.max_wal_bytes == positive_arg(a, "--wal-max-bytes"@, u, 512int * 1024 * 1024)
            &&& r.max_wal_segments == positive_arg(a, "--wal-max-segments"@, z, 64)
            &&& r.mvcc_gc_every_wal_batches == positive_arg(
                a,
                "--mvcc-gc-every-wal-batches"@,
                z,
                128,
            )
            &&& r.wal_group_commit_max_batches == positive_arg(
                a,
                "--wal-group-max-batches"@,
                z,
                64,
            )
            &&& r.wal_group_commit_wait_us == or_default(
                number_arg(a, "--wal-group-wait-us"@, u),
                200,
            )
        }),
{
    let mut m = StorageMaintenanceConfig::default();
    let secs: u64 = positive_u64(args, "--checkpoint-interval-secs", 60);
    m.checkpoint.interval_nanos = secs as u128 * 1_000_000_000;
    m.checkpoint.max_dirty_pages = positive_usize(
        args,
        "--checkpoint-max-dirty-pages",
        m.checkpoint.max_dirty_pages,
    );
    m.checkpoint.max_dirty_bytes = positive_usize(
        args,
        "--checkpoint-max-dirty-bytes",
        m.checkpoint.max_dirty_bytes,
    );
    if let Some(v) = parse_bool(args, "--wal-truncate") {
        m.truncate_wal = v;
    }
    m.max_wal_bytes = positive_u64(args, "--wal-max-bytes", m.max_wal_bytes);
    m.max_wal_segments = positive_usize(args, "--wal-max-segments", m.max_wal_segments);
    m.mvcc_gc_every_wal_batches = positive_usize(
        args,
        "--mvcc-gc-every-wal-batches",
        m.mvcc_gc_every_wal_batches,
    );
    m.wal_group_commit_max_batches = positive_usize(
        args,
        "--wal-group-max-batches",
        m.wal_group_commit_max_batches,
    );
    m.wal_group_commit_wait_us = parse_u64_or_default(
        args,
        "--wal-group-wait-us",
        m.wal_group_commit_wait_us,
    );
    m
}

/// Whether metrics are written in the Prometheus format.
pub fn wants_prometheus(format: &str) -> (r: bool)
    ensures
        r == (lower_text(format@) == "prom"@ || lower_text(format@) == "prometheus"@),
{
    lower_eq(format, "prom") || lower_eq(format, "prometheus")
}

/// The value of a name is what stands behind its first occurrence; a name that does not
/// occur, or only as the last argument, has none.
pub proof fn law_first_occurrence_counts(args: Seq<Seq<char>>, key: Seq<char>, i: int)
    ensures
        0 <= i < args.len() && args[i] == key && (forall|j: int|
            0 <= j < i ==> #[trigger] args[j] != key) ==> arg_value(args, key) == (if i + 1
            < args.len() {
            Some(args[i + 1])
        } else {
            None
        }),
        (forall|j: int| 0 <= j < args.len() ==> #[trigger] args[j] != key) ==> arg_value(
            args,
            key,
        ) is None,
    decreases args.len(),
{
    if args.len() > 0 && args[0] != key {
        let rest = args.drop_first();
        law_first_occurrence_counts(rest, key, i - 1);
        assert forall|j: int| 0 <= j < rest.len() implies #[trigger] rest[j] == args[j + 1] by {}
        if 0 <= i < args.len() && args[i] == key && (forall|j: int|
            0 <= j < i ==> #[trigger] args[j] != key) {
            assert(forall|j: int| 0 <= j < i - 1 ==> #[trigger] rest[j] != key);
        }
        if forall|j: int| 0 <= j < args.len() ==> #[trigger] args[j] != key {
            assert(forall|j: int| 0 <= j < rest.len() ==> #[trigger] rest[j] != key);
        }
    }
}

/// A positive setting is what was asked for, one where zero was asked for, and the default
/// where nothing was, or no number not above `max`.
pub proof fn law_positive_setting(
    args: Seq<Seq<char>>,
    key: Seq<char>,
    max: int,
    default: int,
)
    requires
        default >= 1,
    ensures
        positive_arg(args, key, max, default) >= 1,
        arg_value(args, key) is None ==> positive_arg(args, key, max, default) == default,
        arg_value(args, key) is Some && parse_dec(arg_value(args, key)->0, max) is None
            ==> positive_arg(args, key, max, default) == default,
        arg_value(args, key) is Some && (parse_dec(arg_value(args, key)->0, max) matches Some(v) && v
            >= 1) ==> positive_arg(args, key, max, default) == parse_dec(
            arg_value(args, key)->0,
            max,
        )->0,
        arg_value(args, key) is Some && parse_dec(arg_value(args, key)->0, max) == Some(0int)
            ==> positive_arg(args, key, max, default) == 1,
{
}

/// A switch is on behind `1`, `true`, `yes` or `on`, off behind `0`, `false`, `no` or
/// `off`, in upper or lower case, and neither behind anything else or if it is not there.
pub proof fn law_switch(args: Seq<Seq<char>>, key: Seq<char>)
    ensures
        arg_value(args, key) is None ==> bool_arg(args, key) is None,
        arg_value(args, key) matches Some(v) ==> {
            let t = lower_text(v);
            &&& t == "1"@ || t == "true"@ || t == "yes"@ || t == "on"@ <==> bool_arg(args, key)
                == Some(true)
            &&& t == "0"@ || t == "false"@ || t == "no"@ || t == "off"@ <==> bool_arg(args, key)
                == Some(false)
        },
{
    reveal_strlit("1");
    reveal_strlit("true");
    reveal_strlit("yes");
    reveal_strlit("on");
    reveal_strlit("0");
    reveal_strlit("false");
    reveal_strlit("no");
    reveal_strlit("off");
    assert("1"@.len() == 1 && "true"@.len() == 4 && "yes"@.len() == 3 && "on"@.len() == 2);
    assert("0"@.len() == 1 && "false"@.len() == 5 && "no"@.len() == 2 && "off"@.len() == 3);
    assert("1"@[0] == '1' && "0"@[0] == '0');
    assert("on"@[0] == 'o' && "no"@[0] == 'n');
    assert("yes"@[0] == 'y' && "off"@[0] == 'o');
}

/// A number setting is what stands behind its name, or its default.
pub proof fn law_number_setting(
    args: Seq<Seq<char>>,
    key: Seq<char>,
    max: int,
    default: int,
)
    ensures
        arg_value(args, key) is None ==> or_default(number_arg(args, key, max), default) == default,
        arg_value(args, key) is Some && parse_dec(arg_value(args, key)->0, max) is None
            ==> or_default(number_arg(args, key, max), default) == default,
        arg_value(args, key) is Some && parse_dec(arg_value(args, key)->0, max) is Some
            ==> or_default(number_arg(args, key, max), default) == parse_dec(
            arg_value(args, key)->0,
            max,
        )->0,
{
}

} // verus!
