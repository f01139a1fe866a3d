//! The benchmark that runs one workload against two stores.
use vstd::prelude::*;

use crate::args::{at_least_one, texts};
use crate::common::{Error, ErrorCategory, KEY_SIZE, VALUE_SIZE};
use crate::key_order::{be_num, lemma_lex_is_num_order, lex_lt, pow256};
use crate::layout::{le8, lemma_le8, set_u64, zeroed, zeros};
use crate::node::config::bool_text;
use crate::text::{contains_text, dec, has_text, join2, parse_dec, parse_number, put_num, str_eq,
    strip_prefix, stripped_prefix};
use vstd::string::*;

verus! {

#[derive(Clone, Copy, Debug, PartialEq, Eq, Structural)]
pub enum BackendKind {
    ScaleKv,
    Redb,
}

#[derive(Clone, Copy, Debug, PartialEq, Eq, Structural)]
pub enum BenchMode {
    Put,
    Get,
    Scan,
}

#[derive(Clone, Copy, Debug, PartialEq, Eq, Structural)]
pub struct Config {
    pub backend: BackendKind,
    pub mode: BenchMode,
    pub clients: usize,
    pub duration_secs: u64,
    pub keyspace: u64,
    pub preload_keys: u64,
    pub preload: bool,
    pub preload_only: bool,
    pub allow_misses: bool,
    pub value_size: usize,
    pub txn_ops: usize,
    pub scan_len: usize,
    pub seed: u64,
}

/// What the arguments ask for.
#[derive(Clone, Copy, Debug)]
pub enum Invocation {
    Help,
    Run(Config),
}

/// Settings before any argument is read.
pub open spec fn default_config(seed: u64) -> Config {
    Config {
        backend: BackendKind::ScaleKv,
        mode: BenchMode::Get,
        clients: 8,
        duration_secs: 10,
        keyspace: 100_000,
        preload_keys: 100_000,
        preload: true,
        preload_only: false,
        allow_misses: false,
        value_size: VALUE_SIZE,
        txn_ops: 16,
        scan_len: 64,
        seed,
    }
}

/// The arguments as far as they are read.
pub struct Reading {
    pub cfg: Config,
    /// The number of keys to load was given.
    pub preload_keys_set: bool,
    /// The next argument.
    pub at: int,
}

/// What reading one option yields.
pub enum Step {
    Next(Reading),
    Help,
    Fail(Seq<char>),
}

/// The value behind the option at `i`.
pub open spec fn value_behind(args: Seq<Seq<char>>, i: int, name: Seq<char>) -> std::result::Result<
    Seq<char>,
    Seq<char>,
> {
    if i + 1 < args.len() {
        Ok(args[i + 1])
    } else {
        Err("missing value for "@ + name)
    }
}

/// The number behind the option at `i`.
pub open spec fn number_behind(
    args: Seq<Seq<char>>,
    i: int,
    name: Seq<char>,
    max: int,
) -> std::result::Result<int, Seq<char>> {
    match value_behind(args, i, name) {
        Err(m) => Err(m),
        Ok(v) => match parse_dec(v, max) {
            Some(x) => Ok(x),
            None => Err("invalid "@ + name),
        },
    }
}

pub open spec fn mode_of(s: Seq<char>) -> Option<BenchMode> {
    if s == "put"@ {
        Some(BenchMode::Put)
    } else if s == "get"@ {
        Some(BenchMode::Get)
    } else if s == "scan"@ {
        Some(BenchMode::Scan)
    } else {
        None
    }
}

pub open spec fn next_after(s: Reading, cfg: Config, n: int) -> Step {
    Step::Next(Reading { cfg, preload_keys_set: s.preload_keys_set, at: s.at + n })
}

/// An option with a number that goes into the settings.
pub open spec fn number_step(
    s: Reading,
    v: std::result::Result<int, Seq<char>>,
    cfg: spec_fn(int) -> Config,
) -> Step {
    match v {
        Ok(x) => next_after(s, cfg(x), 2),
        Err(m) => Step::Fail(m),
    }
}

/// Reads the option at `s.at`.
pub open spec fn read_option(s: Reading, args: Seq<Seq<char>>) -> Step {
    let a = args[s.at];
    let c = s.cfg;
    let u = u64::MAX as int;
    let z = usize::MAX as int;
    if a == "--clients"@ {
        number_step(
            s,
            number_behind(args, s.at, "--clients"@, z),
            |x: int| Config { clients: at_least_one(x) as usize, ..c },
        )
    } else if a == "--duration-secs"@ {
        number_step(
            s,
            number_behind(args, s.at, "--duration-secs"@, u),
            |x: int| Config { duration_secs: at_least_one(x) as u64, ..c },
        )
    } else if a == "--keyspace"@ {
        number_step(
            s,
            number_behind(args, s.at, "--keyspace"@, u),
            |x: int| Config { keyspace: x as u64, ..c },
        )
    } else if a == "--preload-keys"@ {
        match number_behind(args, s.at, "--preload-keys"@, u) {
            Ok(x) => Step::Next(
                Reading {
                    cfg: Config { preload_keys: x as u64, ..c },
                    preload_keys_set: true,
                    at: s.at + 2,
                },
            ),
            Err(m) => Step::Fail(m),
        }
    } else if a == "--value-size"@ {
        number_step(
            s,
            number_behind(args, s.at, "--value-size"@, z),
            |x: int| Config { value_size: x as usize, ..c },
        )
    } else if a == "--txn-ops"@ {
        number_step(
            s,
            number_behind(args, s.at, "--txn-ops"@, z),
            |x: int| Config { txn_ops: x as usize, ..c },
        )
    } else if a == "--scan-len"@ {
        number_step(
            s,
            number_behind(args, s.at, "--scan-len"@, z),
            |x: int| Config { scan_len: x as usize, ..c },
        )
    } else if a == "--backend"@ {
        match value_behind(args, s.at, "--backend"@) {
            Err(m) => Step::Fail(m),
            Ok(v) => if v == "scale-kv"@ {
                next_after(s, Config { backend: BackendKind::ScaleKv, ..c }, 2)
            } else if v == "redb"@ {
                next_after(s, Config { backend: BackendKind::Redb, ..c }, 2)
            } else {
                Step::Fail("invalid --backend: "@ + v + " (expected scale-kv|redb)"@)
            },
        }
    } else if a == "--mode"@ {
        match value_behind(args, s.at, "--mode"@) {
            Err(m) => Step::Fail(m),
            Ok(v) => match mode_of(v) {
                Some(mode) => next_after(s, Config { mode, ..c }, 2),
                None => Step::Fail("invalid --mode: "@ + v + " (expected put|get|scan)"@),
            },
        }
    } else if a == "--preload"@ {
        next_after(s, Config { preload: true, ..c }, 1)
    } else if a == "--skip-preload"@ {
        next_after(s, Config { preload: false, ..c }, 1)
    } else if a == "--preload-only"@ {
        next_after(s, Config { preload_only: true, ..c }, 1)
    } else if a == "--allow-misses"@ {
        next_after(s, Config { allow_misses: true, ..c }, 1)
    } else if a == "--seed"@ {
        if s.at + 1 < args.len() && stripped_prefix(args[s.at + 1], "--"@) is None {
            number_step(
                s,
                number_behind(args, s.at, "--seed"@, u),
                |x: int| Config { seed: x as u64, ..c },
            )
        } else {
            next_after(s, Config { seed: 0, ..c }, 1)
        }
    } else if a == "--help"@ || a == "-h"@ {
        Step::Help
    } else {
        Step::Fail("unknown argument: "@ + a)
    }
}

/// Reads the arguments from `s.at` on.
pub open spec fn read_all(s: Reading, args: Seq<Seq<char>>) -> Step
    decreases args.len() - s.at,
{
    if s.at >= args.len() {
        Step::Next(s)
    } else {
        match read_option(s, args) {
            Step::Next(t) => if t.at > s.at {
                read_all(t, args)
            } else {
                Step::Next(t)
            },
            other => other,
        }
    }
}

/// The number of keys to load once the keyspace is known.
pub open spec fn settled_keys(s: Reading) -> u64 {
    if !s.preload_keys_set || s.cfg.preload_keys > s.cfg.keyspace {
        s.cfg.keyspace
    } else {
        s.cfg.preload_keys
    }
}

/// The settings that were read, or what is wrong with them.
pub open spec fn settled(s: Reading) -> std::result::Result<Config, Seq<char>> {
    let c = Config { preload_keys: settled_keys(s), ..s.cfg };
    if c.keyspace == 0 {
        Err("--keyspace must be > 0"@)
    } else if !c.preload_only && !c.allow_misses && c.preload_keys == 0 {
        Err("--preload-keys must be > 0 unless --allow-misses or --preload-only is set"@)
    } else if c.txn_ops == 0 {
        Err("--txn-ops must be > 0"@)
    } else if c.scan_len == 0 {
        Err("--scan-len must be > 0"@)
    } else if c.backend is ScaleKv && c.value_size != VALUE_SIZE {
        Err(
            "scale-kv requires fixed --value-size "@ + dec(VALUE_SIZE as int) + " (got "@ + dec(
                c.value_size as int,
            ) + ")"@,
        )
    } else {
        Ok(c)
    }
}

fn take_value<'a>(args: &'a Vec<String>, i: usize, name: &str) -> (r: std::result::Result<
    &'a str,
    String,
>)
    requires
        i < args@.len(),
    ensures
        match value_behind(texts(args@), i as int, name@) {
            Ok(v) => r matches Ok(t) && t@ == v && i + 1 < args@.len(),
            Err(m) => r matches Err(t) && t@ == m,
        },
{
    let n: usize = args.len();
    if n - i > 1 {
        Ok(args[i + 1].as_str())
    } else {
        Err(join2("missing value for ", name))
    }
}

fn take_number(args: &Vec<String>, i: usize, name: &str, max: u64) -> (r: std::result::Result<
    u64,
    String,
>)
    requires
        i < args@.len(),
    ensures
        match number_behind(texts(args@), i as int, name@, max as int) {
            Ok(v) => r matches Ok(x) && x == v && x <= max && i + 1 < args@.len(),
            Err(m) => r matches Err(t) && t@ == m,
        },
{
    match take_value(args, i, name) {
        Err(m) => Err(m),
        Ok(v) => match parse_number(v, max) {
            Some(x) => Ok(x),
            None => Err(join2("invalid ", name)),
        },
    }
}

/// Reads a mode.
pub fn parse_mode(s: &str) -> (r: std::result::Result<BenchMode, String>)
    ensures
        match mode_of(s@) {
            Some(m) => r matches Ok(v) && v == m,
            None => r matches Err(t) && t@ == "invalid --mode: "@ + s@
                + " (expected put|get|scan)"@,
        },
{
    if str_eq(s, "put") {
        Ok(BenchMode::Put)
    } else if str_eq(s, "get") {
        Ok(BenchMode::Get)
    } else if str_eq(s, "scan") {
        Ok(BenchMode::Scan)
    } else {
        let mut m = join2("invalid --mode: ", s);
        m.append(" (expected put|get|scan)");
        Err(m)
    }
}

/// One option that was read: the settings, whether the number of keys to load
/// is given, and the next argument; nothing when help is asked for.
type OptionRead = std::result::Result<Option<(Config, bool, usize)>, String>;

/// `r` is what `step` says.
pub open spec fn reads_as(r: OptionRead, step: Step) -> bool {
    match step {
        Step::Next(t) => r matches Ok(Some((cfg, set, at))) && cfg == t.cfg && set
            == t.preload_keys_set && at == t.at,
        Step::Help => r matches Ok(None),
        Step::Fail(m) => r matches Err(t) && t@ == m,
    }
}

fn read_number_option(cfg: Config, set: bool, args: &Vec<String>, i: usize) -> (r: Option<OptionRead>)
    requires
        i < args@.len(),
    ensures
        match r {
            Some(read) => reads_as(
                read,
                read_option(
                    (Reading { cfg, preload_keys_set: set, at: i as int }),
                    texts(args@),
                ),
            ) && (read matches Ok(Some(x)) ==> i < x.2 <= args@.len()),
            None => is_other_option(args@[i as int]@),
        },
{
    let n: usize = args.len();
    let a = args[i].as_str();
    let ghost ts = texts(args@);
    assert(ts[i as int] == a@);
    assert(n == args@.len());
    if str_eq(a, "--clients") {
        Some(
            match take_number(args, i, "--clients", usize::MAX as u64) {
                Err(m) => Err(m),
                Ok(x) => {
                    let clients: usize = if x < 1 {
                        1
                    } else {
                        x as usize
                    };
                    Ok(Some((Config { clients, ..cfg }, set, i + 2)))
                },
            },
        )
    } else if str_eq(a, "--duration-secs") {
        Some(
            match take_number(args, i, "--duration-secs", u64::MAX) {
                Err(m) => Err(m),
                Ok(x) => {
                    let duration_secs: u64 = if x < 1 {
                        1
                    } else {
                        x
                    };
                    Ok(Some((Config { duration_secs, ..cfg }, set, i + 2)))
                },
            },
        )
    } else if str_eq(a, "--keyspace") {
        Some(
            match take_number(args, i, "--keyspace", u64::MAX) {
                Err(m) => Err(m),
                Ok(x) => Ok(Some((Config { keyspace: x, ..cfg }, set, i + 2))),
            },
        )
    } else if str_eq(a, "--preload-keys") {
        Some(
            match take_number(args, i, "--preload-keys", u64::MAX) {
                Err(m) => Err(m),
                Ok(x) => Ok(Some((Config { preload_keys: x, ..cfg }, true, i + 2))),
            },
        )
    } else if str_eq(a, "--value-size") {
        Some(
            match take_number(args, i, "--value-size", usize::MAX as u64) {
                Err(m) => Err(m),
                Ok(x) => Ok(Some((Config { value_size: x as usize, ..cfg }, set, i + 2))),
            },
        )
    } else if str_eq(a, "--txn-ops") {
        Some(
            match take_number(args, i, "--txn-ops", usize::MAX as u64) {
                Err(m) => Err(m),
                Ok(x) => Ok(Some((Config { txn_ops: x as usize, ..cfg }, set, i + 2))),
            },
        )
    } else if str_eq(a, "--scan-len") {
        Some(
            match take_number(args, i, "--scan-len", usize::MAX as u64) {
                Err(m) => Err(m),
                Ok(x) => Ok(Some((Config { scan_len: x as usize, ..cfg }, set, i + 2))),
            },
        )
    } else {
        None
    }
}

/// Not one of the options that take a number and nothing else.
pub open spec fn is_other_option(a: Seq<char>) -> bool {
    a != "--clients"@ && a != "--duration-secs"@ && a != "--keyspace"@ && a != "--preload-keys"@
        && a != "--value-size"@ && a != "--txn-ops"@ && a != "--scan-len"@
}

fn read_one(cfg: Config, set: bool, args: &Vec<String>, i: usize) -> (r: OptionRead)
    requires
        i < args@.len(),
    ensures
        reads_as(
            r,
            read_option((Reading { cfg, preload_keys_set: set, at: i as int }), texts(args@)),
        ),
        r matches Ok(Some(x)) ==> i < x.2 <= args@.len(),
{
    if let Some(read) = read_number_option(cfg, set, args, i) {
        return read;
    }
    let n: usize = args.len();
    let a = args[i].as_str();
    let ghost ts = texts(args@);
    assert(ts[i as int] == a@);
    if str_eq(a, "--backend") {
        match take_value(args, i, "--backend") {
            Err(m) => Err(m),
            Ok(v) => {
                if str_eq(v, "scale-kv") {
                    Ok(Some((Config { backend: BackendKind::ScaleKv, ..cfg }, set, i + 2)))
                } else if str_eq(v, "redb") {
                    Ok(Some((Config { backend: BackendKind::Redb, ..cfg }, set, i + 2)))
                } else {
                    let mut m = join2("invalid --backend: ", v);
                    m.append(" (expected scale-kv|redb)");
                    Err(m)
                }
            },
        }
    } else if str_eq(a, "--mode") {
        match take_value(args, i, "--mode") {
            Err(m) => Err(m),
            Ok(v) => match parse_mode(v) {
                Ok(mode) => Ok(Some((Config { mode, ..cfg }, set, i + 2))),
                Err(m) => Err(m),
            },
        }
    } else if str_eq(a, "--preload") {
        Ok(Some((Config { preload: true, ..cfg }, set, i + 1)))
    } else if str_eq(a, "--skip-preload") {
        Ok(Some((Config { preload: false, ..cfg }, set, i + 1)))
    } else if str_eq(a, "--preload-only") {
        Ok(Some((Config { preload_only: true, ..cfg }, set, i + 1)))
    } else if str_eq(a, "--allow-misses") {
        Ok(Some((Config { allow_misses: true, ..cfg }, set, i + 1)))
    } else if str_eq(a, "--seed") {
        if n - i > 1 && strip_prefix(args[i + 1].as_str(), "--").is_none() {
            assert(ts[i + 1] == args@[i + 1]@);
            match take_number(args, i, "--seed", u64::MAX) {
                Err(m) => Err(m),
                Ok(x) => Ok(Some((Config { seed: x, ..cfg }, set, i + 2))),
            }
        } else {
            assert(i + 1 < n ==> ts[i + 1] == args@[i + 1]@);
            Ok(Some((Config { seed: 0, ..cfg }, set, i + 1)))
        }
    } else if str_eq(a, "--help") || str_eq(a, "-h") {
        Ok(None)
    } else {
        Err(join2("unknown argument: ", a))
    }
}

fn settle(cfg: Config, set: bool) -> (r: std::result::Result<Config, String>)
    ensures
        match settled((Reading { cfg, preload_keys_set: set, at: 0 })) {
            Ok(c) => r matches Ok(v) && v == c,
            Err(m) => r matches Err(t) && t@ == m,
        },
{
    if cfg.keyspace == 0 {
        return Err(String::from_str("--keyspace must be > 0"));
    }
    let preload_keys: u64 = if !set || cfg.preload_keys > cfg.keyspace {
        cfg.keyspace
    } else {
        cfg.preload_keys
    };
    let c = Config { preload_keys, ..cfg };
    if !c.preload_only && !c.allow_misses && c.preload_keys == 0 {
        return Err(
            String::from_str(
                "--preload-keys must be > 0 unless --allow-misses or --preload-only is set",
            ),
        );
    }
    if c.txn_ops == 0 {
        return Err(String::from_str("--txn-ops must be > 0"));
    }
    if c.scan_len == 0 {
        return Err(String::from_str("--scan-len must be > 0"));
    }
    if c.backend == BackendKind::ScaleKv && c.value_size != VALUE_SIZE {
        let mut m = String::new();
        put_num(&mut m, "scale-kv requires fixed --value-size ", VALUE_SIZE as u64);
        put_num(&mut m, " (got ", c.value_size as u64);
        m.append(")");
        assert(m@ =~= "scale-kv requires fixed --value-size "@ + dec(VALUE_SIZE as int)
            + " (got "@ + dec(c.value_size as int) + ")"@);
        return Err(m);
    }
    Ok(c)
}

/// Reads the arguments of the program, its name first. `seed` is the seed of
/// the workload where none is given.
pub fn parse_config(args: &Vec<String>, seed: u64) -> (r: std::result::Result<Invocation, String>)
    ensures
        match read_all(
            (Reading { cfg: default_config(seed), preload_keys_set: false, at: 1 }),
            texts(args@),
        ) {
            Step::Help => r matches Ok(Invocation::Help),
            Step::Fail(m) => r matches Err(t) && t@ == m,
            Step::Next(s) => match settled(s) {
                Ok(c) => r matches Ok(Invocation::Run(v)) && v == c,
                Err(m) => r matches Err(t) && t@ == m,
            },
        },
{
    let ghost ts = texts(args@);
    let ghost start = Reading { cfg: default_config(seed), preload_keys_set: false, at: 1 };
    let mut cfg = Config {
        backend: BackendKind::ScaleKv,
        mode: BenchMode::Get,
        clients: 8,
        duration_secs: 10,
        keyspace: 100_000,
        preload_keys: 100_000,
        preload: true,
        preload_only: false,
        allow_misses: false,
        value_size: VALUE_SIZE,
        txn_ops: 16,
        scan_len: 64,
        seed,
    };
    let mut set = false;
    let n: usize = args.len();
    let mut i: usize = 1;
    while i < n
        invariant
            n == args@.len(),
            ts == texts(args@),
            start == (Reading { cfg: default_config(seed), preload_keys_set: false, at: 1 }),
            1 <= i,
            read_all(start, ts) == read_all(
                (Reading { cfg, preload_keys_set: set, at: i as int }),
                ts,
            ),
        decreases n - i,
    {
        match read_one(cfg, set, args, i) {
            Err(m) => {
                return Err(m);
            },
            Ok(None) => {
                return Ok(Invocation::Help);
            },
            Ok(Some((c, s, at))) => {
                cfg = c;
                set = s;
                i = at;
            },
        }
    }
    match settle(cfg, set) {
        Ok(c) => Ok(Invocation::Run(c)),
        Err(m) => Err(m),
    }
}

/// The key of a row: its number, the greatest byte first, and zero bytes.
pub open spec fn bench_key(id: int) -> Seq<u8> {
    Seq::new(8, |i: int| le8(id)[7 - i]) + zeros(8)
}

/// The key of a row.
pub fn key_for(id: u64) -> (r: [u8; KEY_SIZE])
    ensures
        r@ == bench_key(id as int),
{
    let mut le: Vec<u8> = zeroed(8);
    set_u64(&mut le, 0, id);
    assert(le@ =~= le8(id as int));
    let mut key: [u8; KEY_SIZE] = [0u8; KEY_SIZE];
    let mut i: usize = 0;
    while i < 8
        invariant
            i <= 8,
            le@ == le8(id as int),
            forall|j: int| 0 <= j < i ==> #[trigger] key@[j] == le8(id as int)[7 - j],
            forall|j: int| i <= j < KEY_SIZE ==> #[trigger] key@[j] == 0,
        decreases 8 - i,
    {
        key[i] = le[7 - i];
        i += 1;
    }
    assert(key@ =~= bench_key(id as int));
    key
}

proof fn lemma_num_before_zeros(s: Seq<u8>, n: nat)
    ensures
        be_num(s + zeros(n as int)) == be_num(s) * pow256(n),
    decreases n,
{
    let t = s + zeros(n as int);
    if n == 0 {
        assert(t =~= s);
    } else {
        lemma_num_before_zeros(s, (n - 1) as nat);
        assert(t.drop_last() =~= s + zeros(n - 1));
        assert(t.last() == 0);
        let p = pow256((n - 1) as nat);
        assert(be_num(s) * p * 256 == be_num(s) * (256 * p)) by (nonlinear_arith);
    }
}

proof fn lemma_bench_key_num(id: int)
    requires
        0 <= id <= u64::MAX,
    ensures
        be_num(bench_key(id)) == id * pow256(8),
{
    let b = le8(id);
    let s = Seq::new(8, |i: int| b[7 - i]);
    lemma_le8(id);
    let s1 = s.drop_last();
    let s2 = s1.drop_last();
    let s3 = s2.drop_last();
    let s4 = s3.drop_last();
    let s5 = s4.drop_last();
    let s6 = s5.drop_last();
    let s7 = s6.drop_last();
    let s8 = s7.drop_last();
    assert(be_num(s8) == 0);
    assert(be_num(s7) == b[7]);
    assert(be_num(s6) == be_num(s7) * 256 + b[6]);
    assert(be_num(s5) == be_num(s6) * 256 + b[5]);
    assert(be_num(s4) == be_num(s5) * 256 + b[4]);
    assert(be_num(s3) == be_num(s4) * 256 + b[3]);
    assert(be_num(s2) == be_num(s3) * 256 + b[2]);
    assert(be_num(s1) == be_num(s2) * 256 + b[1]);
    assert(be_num(s) == be_num(s1) * 256 + b[0]);
    assert(be_num(s) == id);
    lemma_num_before_zeros(s, 8);
}

/// Keys stand in the order of the numbers of their rows.
pub proof fn law_key_order(a: u64, b: u64)
    ensures
        lex_lt(bench_key(a as int), bench_key(b as int)) <==> a < b,
{
    lemma_bench_key_num(a as int);
    lemma_bench_key_num(b as int);
    lemma_lex_is_num_order(bench_key(a as int), bench_key(b as int));
    reveal_with_fuel(pow256, 9);
    assert(pow256(8) == 0x1_0000_0000_0000_0000int);
}

/// A value of the given size that begins with a number, where it has room.
pub open spec fn bench_value(seed: int, size: int) -> Seq<u8> {
    if size >= 8 {
        le8(seed) + zeros(size - 8)
    } else {
        zeros(size)
    }
}

/// A value of the given size that begins with a number, where it has room.
pub fn value_for(seed: u64, value_size: usize) -> (r: Vec<u8>)
    ensures
        r@ == bench_value(seed as int, value_size as int),
{
    let mut value: Vec<u8> = zeroed(value_size);
    if value_size >= 8 {
        set_u64(&mut value, 0, seed);
    }
    assert(value@ =~= bench_value(seed as int, value_size as int));
    value
}

/// The number of the last row of a scan.
pub open spec fn scan_end(start: int, keyspace: int, scan_len: int) -> int {
    let last = if keyspace == 0 {
        0
    } else {
        keyspace - 1
    };
    let end = start + at_least_one(scan_len) - 1;
    if end < last {
        end
    } else {
        last
    }
}

/// The first and the last key of a scan of `scan_len` rows inside the keyspace.
pub fn scan_bounds(start: u64, keyspace: u64, scan_len: usize) -> (r: (
    [u8; KEY_SIZE],
    [u8; KEY_SIZE],
))
    ensures
        r.0@ == bench_key(start as int),
        r.1@ == bench_key(scan_end(start as int, keyspace as int, scan_len as int)),
{
    let last: u64 = keyspace.saturating_sub(1);
    let len: u64 = if scan_len < 1 {
        1
    } else {
        scan_len as u64
    };
    let end: u64 = start.saturating_add(len - 1);
    let end: u64 = if end < last {
        end
    } else {
        last
    };
    (key_for(start), key_for(end))
}

/// The seed of a worker's random numbers.
pub fn worker_seed(seed: u64, worker: u64) -> (r: u64)
    requires
        worker < u64::MAX,
    ensures
        r == seed ^ ((worker + 1) as u64).wrapping_mul(0x9e3779b97f4a7c15),
{
    seed ^ (worker + 1).wrapping_mul(0x9e3779b97f4a7c15)
}

/// Rows that the workload touches: all of them where misses are allowed, else
/// those that were loaded.
pub fn effective_keyspace(cfg: &Config) -> (r: u64)
    ensures
        r == (if cfg.allow_misses || cfg.keyspace < cfg.preload_keys {
            cfg.keyspace
        } else {
            cfg.preload_keys
        }),
{
    if cfg.allow_misses || cfg.keyspace < cfg.preload_keys {
        cfg.keyspace
    } else {
        cfg.preload_keys
    }
}

/// One transaction of the workload.
#[derive(Debug)]
pub enum TxnPlan {
    Put(Vec<([u8; KEY_SIZE], Vec<u8>)>),
    Get(Vec<[u8; KEY_SIZE]>),
    Scan(Vec<([u8; KEY_SIZE], [u8; KEY_SIZE], usize)>),
}

/// The number that write `i` of a transaction puts into its value.
pub open spec fn write_number(worker: u64, write_seq: u64, i: int) -> u64 {
    (worker << 32) ^ wrapped(write_seq + i)
}

/// A count of 64 bits that begins anew after its greatest value.
pub open spec fn wrapped(n: int) -> u64 {
    (n % 0x1_0000_0000_0000_0000) as u64
}

/// What a worker reads and writes in one transaction. `ids` are the rows, picked
/// at random.
pub fn plan_txn(cfg: &Config, worker: u64, write_seq: u64, ids: &Vec<u64>) -> (r: (TxnPlan, u64))
    ensures
        match cfg.mode {
            BenchMode::Put => r.0 matches TxnPlan::Put(ws) && ws@.len() == ids@.len() && (forall|i: int|
                0 <= i < ids@.len() ==> (#[trigger] ws@[i]).0@ == bench_key(ids@[i] as int)
                    && ws@[i].1@ == bench_value(
                    write_number(worker, write_seq, i) as int,
                    cfg.value_size as int,
                )) && r.1 == wrapped(write_seq + ids@.len()),
            BenchMode::Get => r.0 matches TxnPlan::Get(ks) && ks@.len() == ids@.len() && (forall|i: int|
                0 <= i < ids@.len() ==> (#[trigger] ks@[i])@ == bench_key(ids@[i] as int)) && r.1
                == write_seq,
            BenchMode::Scan => r.0 matches TxnPlan::Scan(rs) && rs@.len() == ids@.len() && (forall|i: int|
                0 <= i < ids@.len() ==> (#[trigger] rs@[i]).0@ == bench_key(ids@[i] as int)
                    && rs@[i].1@ == bench_key(
                    scan_end(
                        ids@[i] as int,
                        keyspace_of(*cfg) as int,
                        cfg.scan_len as int,
                    ),
                ) && rs@[i].2 == cfg.scan_len) && r.1 == write_seq,
        },
{
    let n: usize = ids.len();
    let keyspace: u64 = effective_keyspace(cfg);
    let mut writes: Vec<([u8; KEY_SIZE], Vec<u8>)> = Vec::new();
    let mut keys: Vec<[u8; KEY_SIZE]> = Vec::new();
    let mut ranges: Vec<([u8; KEY_SIZE], [u8; KEY_SIZE], usize)> = Vec::new();
    let mut seq: u64 = write_seq;
    let mut i: usize = 0;
    while i < n
        invariant
            n == ids@.len(),
            i <= n,
            keyspace == keyspace_of(*cfg),
            cfg.mode is Put ==> seq == wrapped(write_seq + i) && writes@.len() == i && forall|j: int|
                0 <= j < i ==> (#[trigger] writes@[j]).0@ == bench_key(ids@[j] as int)
                    && writes@[j].1@ == bench_value(
                    write_number(worker, write_seq, j) as int,
                    cfg.value_size as int,
                ),
            !(cfg.mode is Put) ==> seq == write_seq,
            cfg.mode is Get ==> keys@.len() == i && forall|j: int|
                0 <= j < i ==> (#[trigger] keys@[j])@ == bench_key(ids@[j] as int),
            cfg.mode is Scan ==> ranges@.len() == i && forall|j: int|
                0 <= j < i ==> (#[trigger] ranges@[j]).0@ == bench_key(ids@[j] as int)
                    && ranges@[j].1@ == bench_key(
                    scan_end(ids@[j] as int, keyspace as int, cfg.scan_len as int),
                ) && ranges@[j].2 == cfg.scan_len,
        decreases n - i,
    {
        match cfg.mode {
            BenchMode::Put => {
                let value = value_for((worker << 32) ^ seq, cfg.value_size);
                writes.push((key_for(ids[i]), value));
                seq = seq.wrapping_add(1);
            },
            BenchMode::Get => {
                keys.push(key_for(ids[i]));
            },
            BenchMode::Scan => {
                let (a, b) = scan_bounds(ids[i], keyspace, cfg.scan_len);
                ranges.push((a, b, cfg.scan_len));
            },
        }
        i += 1;
    }
    match cfg.mode {
        BenchMode::Put => (TxnPlan::Put(writes), seq),
        BenchMode::Get => (TxnPlan::Get(keys), seq),
        BenchMode::Scan => (TxnPlan::Scan(ranges), seq),
    }
}

/// Rows that the workload touches.
pub open spec fn keyspace_of(cfg: Config) -> u64 {
    if cfg.allow_misses || cfg.keyspace < cfg.preload_keys {
        cfg.keyspace
    } else {
        cfg.preload_keys
    }
}

/// A sample of fixed size out of a stream of numbers.
#[derive(Debug)]
pub struct Reservoir {
    pub cap: usize,
    pub seen: u64,
    pub samples: Vec<u64>,
}

impl Reservoir {
    pub open spec fn wf(&self) -> bool {
        self.samples@.len() <= self.cap && (self.samples@.len() < self.cap ==> self.seen
            == self.samples@.len())
    }

    pub fn new(cap: usize) -> (r: Reservoir)
        ensures
            r.wf(),
            r.cap == cap,
            r.seen == 0,
            r.samples@.len() == 0,
    {
        Reservoir { cap, seen: 0, samples: Vec::new() }
    }

    /// Whether the sample is full, so that the next number needs a pick.
    pub fn is_full(&self) -> (r: bool)
        ensures
            r == (self.samples@.len() >= self.cap),
    {
        self.samples.len() >= self.cap
    }

    /// Takes a number in. `pick` is a number below the count of those seen, this
    /// one included; once the sample is full, it says which place the number
    /// takes, if any.
    pub fn record(&mut self, v: u64, pick: u64)
        requires
            old(self).wf(),
            old(self).seen < u64::MAX,
        ensures
            final(self).wf(),
            final(self).cap == old(self).cap,
            final(self).seen == old(self).seen + 1,
            final(self).samples@ == (if old(self).samples@.len() < old(self).cap {
                old(self).samples@.push(v)
            } else if pick < old(self).cap {
                old(self).samples@.update(pick as int, v)
            } else {
                old(self).samples@
            }),
    {
        self.seen = self.seen + 1;
        if self.samples.len() < self.cap {
            self.samples.push(v);
            return ;
        }
        if pick < self.cap as u64 {
            self.samples.set(pick as usize, v);
        }
    }
}

/// What the workers did.
#[derive(Debug)]
pub struct WorkerStats {
    pub reads: u64,
    pub writes: u64,
    pub retryable_read_errors: u64,
    pub retryable_write_errors: u64,
    pub samples: Vec<u64>,
}

impl WorkerStats {
    pub fn new() -> (r: WorkerStats)
        ensures
            r.reads == 0,
            r.writes == 0,
            r.retryable_read_errors == 0,
            r.retryable_write_errors == 0,
            r.samples@.len() == 0,
    {
        WorkerStats {
            reads: 0,
            writes: 0,
            retryable_read_errors: 0,
            retryable_write_errors: 0,
            samples: Vec::new(),
        }
    }

    /// Counts a transaction.
    pub fn count(&mut self, mode: BenchMode)
        requires
            old(self).reads < u64::MAX,
            old(self).writes < u64::MAX,
        ensures
            final(self).writes == old(self).writes + (if mode is Put {
                1int
            } else {
                0int
            }),
            final(self).reads == old(self).reads + (if mode is Put {
                0int
            } else {
                1int
            }),
            final(self).retryable_read_errors == old(self).retryable_read_errors,
            final(self).retryable_write_errors == old(self).retryable_write_errors,
            final(self).samples == old(self).samples,
    {
        match mode {
            BenchMode::Put => {
                self.writes += 1;
            },
            BenchMode::Get | BenchMode::Scan => {
                self.reads += 1;
            },
        }
    }

    /// Adds what another worker did.
    pub fn merge(&mut self, other: &WorkerStats)
        requires
            old(self).reads + other.reads <= u64::MAX,
            old(self).writes + other.writes <= u64::MAX,
            old(self).retryable_read_errors + other.retryable_read_errors <= u64::MAX,
            old(self).retryable_write_errors + other.retryable_write_errors <= u64::MAX,
        ensures
            final(self).reads == old(self).reads + other.reads,
            final(self).writes == old(self).writes + other.writes,
            final(self).retryable_read_errors == old(self).retryable_read_errors
                + other.retryable_read_errors,
            final(self).retryable_write_errors == old(self).retryable_write_errors
                + other.retryable_write_errors,
            final(self).samples@ == old(self).samples@ + other.samples@,
    {
        self.reads += other.reads;
        self.writes += other.writes;
        self.retryable_read_errors += other.retryable_read_errors;
        self.retryable_write_errors += other.retryable_write_errors;
        let n: usize = other.samples.len();
        let mut i: usize = 0;
        assert(self.samples@ =~= old(self).samples@ + other.samples@.take(0));
        while i < n
            invariant
                n == other.samples@.len(),
                i <= n,
                self.reads == old(self).reads + other.reads,
                self.writes == old(self).writes + other.writes,
                self.retryable_read_errors == old(self).retryable_read_errors
                    + other.retryable_read_errors,
                self.retryable_write_errors == old(self).retryable_write_errors
                    + other.retryable_write_errors,
                self.samples@ == old(self).samples@ + other.samples@.take(i as int),
            decreases n - i,
        {
            self.samples.push(other.samples[i]);
            assert(self.samples@ =~= old(self).samples@ + other.samples@.take(i + 1));
            i += 1;
        }
        assert(other.samples@.take(n as int) =~= other.samples@);
    }
}

/// Whether a transaction is tried again after this error: the store asks for
/// less, by the category of the error or by its text.
pub fn is_retryable_backpressure(err: &Error) -> (r: bool)
    ensures
        r == (err.category_spec() is Backpressure || has_text(err.message_spec(), "WouldBlock"@)
            || has_text(err.message_spec(), "backpressure"@)),
{
    if err.category() == ErrorCategory::Backpressure {
        return true;
    }
    let msg = err.message();
    contains_text(msg.as_str(), "WouldBlock") || contains_text(msg.as_str(), "backpressure")
}

/// Where a batch of rows to load ends.
pub fn batch_end(next: u64, txn_ops: usize, total: u64) -> (r: u64)
    requires
        next + at_least_one(txn_ops as int) <= u64::MAX,
    ensures
        r == (if next + at_least_one(txn_ops as int) < total {
            next + at_least_one(txn_ops as int)
        } else {
            total as int
        }),
{
    let batch: u64 = if txn_ops < 1 {
        1
    } else {
        txn_ops as u64
    };
    let end: u64 = next + batch;
    if end < total {
        end
    } else {
        total
    }
}

/// Whether to say how many rows are loaded: every 10000 rows and at the end.
pub fn progress_due(loaded: u64, total: u64) -> (r: bool)
    ensures
        r == (loaded % 10_000 == 0 || loaded == total),
{
    loaded % 10_000 == 0 || loaded == total
}

pub open spec fn mode_text(mode: BenchMode) -> Seq<char> {
    match mode {
        BenchMode::Put => "put"@,
        BenchMode::Get => "get"@,
        BenchMode::Scan => "scan"@,
    }
}

pub fn mode_name(mode: BenchMode) -> (r: &'static str)
    ensures
        r@ == mode_text(mode),
{
    match mode {
        BenchMode::Put => "put",
        BenchMode::Get => "get",
        BenchMode::Scan => "scan",
    }
}

pub fn backend_name(backend: BackendKind) -> (r: &'static str)
    ensures
        r@ == (match backend {
            BackendKind::ScaleKv => "scale-kv"@,
            BackendKind::Redb => "redb"@,
        }),
{
    match backend {
        BackendKind::ScaleKv => "scale-kv",
        BackendKind::Redb => "redb",
    }
}

fn put_bool(out: &mut String, label: &str, v: bool)
    ensures
        final(out)@ == old(out)@ + label@ + bool_text(v),
{
    out.append(label);
    if v {
        out.append("true");
    } else {
        out.append("false");
    }
}

/// The settings as one line.
pub open spec fn config_text(c: Config) -> Seq<char> {
    "config mode="@ + mode_text(c.mode) + " clients="@ + dec(c.clients as int)
        + " duration_secs="@ + dec(c.duration_secs as int) + " keyspace="@ + dec(c.keyspace as int)
        + " preload_keys="@ + dec(c.preload_keys as int) + " preload="@ + bool_text(c.preload)
        + " preload_only="@ + bool_text(c.preload_only) + " allow_misses="@ + bool_text(
        c.allow_misses,
    ) + " value_size="@ + dec(c.value_size as int) + " txn_ops="@ + dec(c.txn_ops as int)
        + " scan_len="@ + dec(c.scan_len as int) + " seed="@ + dec(c.seed as int)
}

/// The settings as one line.
pub fn config_line(c: &Config) -> (r: String)
    ensures
        r@ == config_text(*c),
{
    let mut s = join2("config mode=", mode_name(c.mode));
    put_num(&mut s, " clients=", c.clients as u64);
    put_num(&mut s, " duration_secs=", c.duration_secs);
    put_num(&mut s, " keyspace=", c.keyspace);
    put_num(&mut s, " preload_keys=", c.preload_keys);
    put_bool(&mut s, " preload=", c.preload);
    put_bool(&mut s, " preload_only=", c.preload_only);
    put_bool(&mut s, " allow_misses=", c.allow_misses);
    put_num(&mut s, " value_size=", c.value_size as u64);
    put_num(&mut s, " txn_ops=", c.txn_ops as u64);
    put_num(&mut s, " scan_len=", c.scan_len as u64);
    put_num(&mut s, " seed=", c.seed);
    s
}

/// Settings that are accepted have rows to work on, transactions and scans that are not
/// empty, no more rows to load than there are, and rows of 1024 bytes for this store; and
/// what was asked for otherwise stays as it is.
pub proof fn law_accepted_settings(s: Reading)
    ensures
        settled(s) matches Ok(c) ==> {
            &&& c.keyspace > 0
            &&& c.txn_ops > 0
            &&& c.scan_len > 0
            &&& c.preload_keys <= c.keyspace
            &&& !s.preload_keys_set ==> c.preload_keys == c.keyspace
            &&& s.preload_keys_set && s.cfg.preload_keys <= s.cfg.keyspace ==> c.preload_keys
                == s.cfg.preload_keys
            &&& c.preload_keys > 0 || c.preload_only || c.allow_misses
            &&& c.backend is ScaleKv ==> c.value_size == 1024
            &&& c == (Config { preload_keys: c.preload_keys, ..s.cfg })
        },
        s.cfg.keyspace == 0 || s.cfg.txn_ops == 0 || s.cfg.scan_len == 0 || (s.cfg.backend is ScaleKv
            && s.cfg.value_size != 1024) ==> settled(s) is Err,
{
}

/// A scan begins with its first row and has `scan_len` rows, at least one, or ends with
/// the last row.
pub proof fn law_scan_length(start: int, keyspace: int, scan_len: int)
    requires
        0 <= start < keyspace,
        0 <= scan_len,
    ensures
        start <= scan_end(start, keyspace, scan_len) < keyspace,
        1 <= scan_len && start + scan_len <= keyspace ==> scan_end(start, keyspace, scan_len) - start
            + 1 == scan_len,
        start + scan_len > keyspace ==> scan_end(start, keyspace, scan_len) == keyspace - 1,
        scan_len == 0 ==> scan_end(start, keyspace, scan_len) == start,
{
}

/// A workload keeps to the rows that were loaded, unless it may miss.
pub proof fn law_rows_in_use(cfg: Config)
    ensures
        keyspace_of(cfg) <= cfg.keyspace,
        cfg.allow_misses ==> keyspace_of(cfg) == cfg.keyspace,
        !cfg.allow_misses ==> keyspace_of(cfg) <= cfg.preload_keys && (keyspace_of(cfg)
            == cfg.keyspace || keyspace_of(cfg) == cfg.preload_keys),
{
}

/// A value has the size that was asked for, and begins with its number.
pub proof fn law_value_begins_with_number(seed: u64, size: int)
    requires
        0 <= size,
    ensures
        bench_value(seed as int, size).len() == size,
        size >= 8 ==> crate::layout::u64_at(bench_value(seed as int, size), 0) == seed,
        forall|i: int|
            0 <= i < size && (i >= 8 || size < 8) ==> #[trigger] bench_value(seed as int, size)[i]
                == 0,
{
    lemma_le8(seed as int);
    if size >= 8 {
        let v = bench_value(seed as int, size);
        assert(v.subrange(0, 8) =~= le8(seed as int));
        crate::layout::lemma_field8(v, 0, seed as int);
    }
}

proof fn lemma_number_options()
    ensures
        "--duration-secs"@ != "--clients"@,
        "--keyspace"@ != "--clients"@ && "--keyspace"@ != "--duration-secs"@,
        "--preload-keys"@ != "--clients"@ && "--preload-keys"@ != "--duration-secs"@
            && "--preload-keys"@ != "--keyspace"@,
        "--value-size"@ != "--clients"@ && "--value-size"@ != "--duration-secs"@ && "--value-size"@
            != "--keyspace"@ && "--value-size"@ != "--preload-keys"@,
        "--txn-ops"@ != "--clients"@ && "--txn-ops"@ != "--duration-secs"@ && "--txn-ops"@
            != "--keyspace"@ && "--txn-ops"@ != "--preload-keys"@ && "--txn-ops"@
            != "--value-size"@,
        "--scan-len"@ != "--clients"@ && "--scan-len"@ != "--duration-secs"@ && "--scan-len"@
            != "--keyspace"@ && "--scan-len"@ != "--preload-keys"@ && "--scan-len"@
            != "--value-size"@ && "--scan-len"@ != "--txn-ops"@,
{
    reveal_strlit("--clients");
    reveal_strlit("--duration-secs");
    reveal_strlit("--keyspace");
    reveal_strlit("--preload-keys");
    reveal_strlit("--value-size");
    reveal_strlit("--txn-ops");
    reveal_strlit("--scan-len");
    assert("--clients"@.len() == 9 && "--duration-secs"@.len() == 15 && "--keyspace"@.len() == 10);
    assert("--preload-keys"@.len() == 14 && "--value-size"@.len() == 12);
    assert("--txn-ops"@.len() == 9 && "--scan-len"@.len() == 10);
    assert("--clients"@[2] == 'c' && "--txn-ops"@[2] == 't');
    assert("--keyspace"@[2] == 'k' && "--scan-len"@[2] == 's');
}

/// Each option with a number sets its own field to the number behind it, the number of
/// clients and of seconds to at least one, and no other field; reading goes on behind it.
pub proof fn law_number_option_sets_its_field(s: Reading, args: Seq<Seq<char>>, x: int)
    requires
        0 <= s.at,
        s.at + 1 < args.len(),
        0 <= x <= usize::MAX,
        parse_dec(args[s.at + 1], usize::MAX as int) == Some(x),
        parse_dec(args[s.at + 1], u64::MAX as int) == Some(x),
    ensures
        ({
            let set = |c: Config| -> Step {
                Step::Next(
                    Reading { cfg: c, preload_keys_set: s.preload_keys_set, at: s.at + 2 },
                )
            };
            let positive = if x == 0 {
                1
            } else {
                x
            };
            let a = args[s.at];
            &&& a == "--clients"@ ==> read_option(s, args) == set(
                (Config { clients: positive as usize, ..s.cfg }),
            )
            &&& a == "--duration-secs"@ ==> read_option(s, args) == set(
                (Config { duration_secs: positive as u64, ..s.cfg }),
            )
            &&& a == "--keyspace"@ ==> read_option(s, args) == set(
                (Config { keyspace: x as u64, ..s.cfg }),
            )
            &&& a == "--preload-keys"@ ==> read_option(s, args) == Step::Next(
                Reading {
                    cfg: Config { preload_keys: x as u64, ..s.cfg },
                    preload_keys_set: true,
                    at: s.at + 2,
                },
            )
            &&& a == "--value-size"@ ==> read_option(s, args) == set(
                (Config { value_size: x as usize, ..s.cfg }),
            )
            &&& a == "--txn-ops"@ ==> read_option(s, args) == set(
                (Config { txn_ops: x as usize, ..s.cfg }),
            )
            &&& a == "--scan-len"@ ==> read_option(s, args) == set(
                (Config { scan_len: x as usize, ..s.cfg }),
            )
        }),
{
    lemma_number_options();
}

} // verus!
