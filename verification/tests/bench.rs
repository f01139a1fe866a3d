use scale_kv::args::{
    build_maintenance_from_args, parse_arg, parse_bool, parse_u32_or_default, parse_u64,
    parse_u64_or_default, parse_usize_or_default, wants_prometheus,
};
use scale_kv::bench::compare::{
    backend_name, batch_end, config_line, effective_keyspace, is_retryable_backpressure, key_for as compare_key,
    mode_name, parse_config, parse_mode, plan_txn, progress_due, scan_bounds,
    value_for as compare_value, worker_seed, BackendKind, BenchMode, Invocation, Reservoir,
    TxnPlan, WorkerStats,
};
use scale_kv::bench::report::{is_run, render_report, run_in_line, Row};
use scale_kv::bench::workload::{
    is_transient_by_text, key_for, next_backoff_ms, parse_bench_config, ranked, text_key_for,
    tries_again, value_for, worker_ops, write_number,
};
use scale_kv::common::{Error, IoError, IoErrorKind, KEY_SIZE, VALUE_SIZE};

fn strings(words: &[&str]) -> Vec<String> {
    words.iter().map(|w| w.to_string()).collect()
}

fn row(read_ratio: u32, concurrency: usize, throughput: f64) -> Row {
    Row {
        records: 1000,
        ops: 5000,
        concurrency,
        read_ratio,
        throughput_text: format!("{throughput:.2}"),
        throughput_rank: throughput.to_bits(),
        p50_us: 10,
        p95_us: 20,
        p99_us: 30,
        read_ops: 1,
        write_ops: 2,
    }
}

#[test]
fn test_parse_arg_and_rows() {
    let args = vec!["perf_report".to_string(), "--in".to_string(), "in.jsonl".to_string()];
    assert_eq!(parse_arg(&args, "--in").as_deref(), Some("in.jsonl"));
    assert!(parse_arg(&args, "--out").is_none());

    let content = "# comment\n{\"records\":1}\n\n  {\"records\":2}  \n";
    let rows: Vec<&str> = content.lines().filter_map(|l| run_in_line(l)).collect();
    assert_eq!(rows.len(), 2);
    assert_eq!(rows[1], "{\"records\":2}");
    assert!(!is_run("# comment"));
    assert!(!is_run(""));

    let dangling = vec!["perf_report".to_string(), "--in".to_string()];
    assert!(parse_arg(&dangling, "--in").is_none());
}

#[test]
fn test_render_report_orders_rows_and_has_best_table() {
    let rows = vec![row(80, 8, 3000.0), row(80, 4, 3500.0), row(20, 2, 500.0)];
    let report = render_report(&rows, "x.jsonl").unwrap();
    assert!(report.contains("# Performance Baseline Report"));
    assert!(report.contains("| 80 | 4 | 3500.00 |"));
    assert!(report.contains("| 20 | 2 | 500.00 |"));
    let low = report.find("| 20 | 2 |").unwrap();
    let mid = report.find("| 80 | 4 |").unwrap();
    let high = report.find("| 80 | 8 |").unwrap();
    assert!(low < mid && mid < high);
}

#[test]
fn test_render_report_rejects_empty() {
    assert!(render_report(&Vec::new(), "empty.jsonl").is_err());
}

#[test]
fn test_parse_bool_and_numeric_helpers() {
    let args = vec![
        "storage_server".to_string(),
        "--wal-truncate".to_string(),
        "yes".to_string(),
        "--metrics-interval-secs".to_string(),
        "9".to_string(),
    ];
    assert_eq!(parse_bool(&args, "--wal-truncate"), Some(true));
    assert_eq!(parse_u64_or_default(&args, "--metrics-interval-secs", 0), 9);
    assert_eq!(parse_u64_or_default(&args, "--missing", 3), 3);

    let args = vec![
        "storage_server".to_string(),
        "--wal-truncate".to_string(),
        "OFF".to_string(),
    ];
    assert_eq!(parse_bool(&args, "--wal-truncate"), Some(false));
    assert_eq!(parse_bool(&args, "--x"), None);
}

#[test]
fn test_build_maintenance_applies_clamps() {
    let args = strings(&[
        "storage_server",
        "--checkpoint-interval-secs",
        "0",
        "--checkpoint-max-dirty-pages",
        "0",
        "--checkpoint-max-dirty-bytes",
        "0",
        "--wal-truncate",
        "false",
        "--wal-max-bytes",
        "0",
        "--wal-max-segments",
        "0",
        "--mvcc-gc-every-wal-batches",
        "0",
        "--wal-group-max-batches",
        "0",
        "--wal-group-wait-us",
        "123",
    ]);
    let cfg = build_maintenance_from_args(&args);
    assert_eq!(cfg.checkpoint.interval_nanos, 1_000_000_000);
    assert_eq!(cfg.checkpoint.max_dirty_pages, 1);
    assert_eq!(cfg.checkpoint.max_dirty_bytes, 1);
    assert!(!cfg.truncate_wal);
    assert_eq!(cfg.max_wal_bytes, 1);
    assert_eq!(cfg.max_wal_segments, 1);
    assert_eq!(cfg.mvcc_gc_every_wal_batches, 1);
    assert_eq!(cfg.wal_group_commit_max_batches, 1);
    assert_eq!(cfg.wal_group_commit_wait_us, 123);
    assert!(wants_prometheus("prom"));
    assert!(!wants_prometheus("json"));
}

#[test]
fn test_parse_helpers_and_key_value_layout() {
    let args = strings(&["workload_bench", "--records", "123", "--read-ratio", "77"]);
    assert_eq!(parse_usize_or_default(&args, "--records", 1), 123);
    assert_eq!(parse_usize_or_default(&args, "--missing", 9), 9);
    assert_eq!(parse_u32_or_default(&args, "--read-ratio", 0), 77);
    assert_eq!(parse_u32_or_default(&args, "--none", 11), 11);

    let k = key_for(5);
    assert_eq!(k.len(), KEY_SIZE);
    assert_eq!(&k[..8], &5u64.to_le_bytes());
    let v = value_for(9);
    assert_eq!(v.len(), VALUE_SIZE);
    assert_eq!(&v[..8], &9u64.to_le_bytes());
}

#[test]
fn test_percentiles_and_transient_message_matcher() {
    let percentile_us = |mut values: Vec<u64>, p: f64| -> u64 {
        if values.is_empty() {
            return 0;
        }
        let rank = ((values.len() - 1) as f64 * p).round() as usize;
        ranked(&mut values, rank)
    };
    assert_eq!(percentile_us(vec![], 0.5), 0);
    assert_eq!(percentile_us(vec![1, 100, 10], 0.5), 10);
    assert_eq!(percentile_us(vec![1, 100, 10], 0.99), 100);

    assert!(is_transient_by_text("wal backpressure"));
    assert!(is_transient_by_text("WouldBlock"));
    assert!(is_transient_by_text("quorum not reached"));
    assert!(!is_transient_by_text("invalid key"));
}

#[test]
fn workload_shares() {
    assert_eq!(worker_ops(10, 3, 0), 4);
    assert_eq!(worker_ops(10, 3, 1), 3);
    assert_eq!(worker_ops(10, 3, 2), 3);
    assert_eq!(write_number(1, 5) == write_number(2, 5), false);
    assert!(tries_again(0, true, false));
    assert!(!tries_again(0, false, false));
    assert!(!tries_again(12, true, true));
    assert_eq!(next_backoff_ms(1), 2);
    assert_eq!(next_backoff_ms(20), 25);
    assert_eq!(text_key_for(5).len(), KEY_SIZE);
    let c = parse_bench_config(&strings(&["b", "--records", "32", "--concurrency", "2"]));
    assert_eq!(c.records, 32);
    assert_eq!(c.concurrency, 2);
}

#[test]
fn compare_settings() {
    let c = match parse_config(
        &strings(&["compare", "--backend", "redb", "--mode", "scan", "--clients", "4", "--seed", "9"]),
        1,
    ) {
        Ok(Invocation::Run(c)) => c,
        other => panic!("{other:?}"),
    };
    assert_eq!(c.backend, BackendKind::Redb);
    assert_eq!(c.mode, BenchMode::Scan);
    assert_eq!(c.clients, 4);
    assert_eq!(c.seed, 9);
    assert!(matches!(parse_config(&strings(&["compare", "--help"]), 1), Ok(Invocation::Help)));
    assert!(parse_config(&strings(&["compare", "--nope"]), 1).is_err());
    assert!(parse_config(&strings(&["compare", "--mode", "zip"]), 1).is_err());
    assert!(parse_config(&strings(&["compare", "--clients"]), 1).is_err());
    assert_eq!(parse_mode("put"), Ok(BenchMode::Put));
    assert!(parse_mode("zip").is_err());
    assert_eq!(mode_name(BenchMode::Get), "get");
    assert_eq!(backend_name(BackendKind::Redb), "redb");
    assert!(config_line(&c).starts_with("config mode=scan clients=4 "));
    assert!(config_line(&c).ends_with(" seed=9"));
    assert_eq!(effective_keyspace(&c), c.keyspace.min(c.preload_keys));
    assert_eq!(parse_u64(&strings(&["x", "--n", "5"]), "--n"), Some(5));
}

#[test]
fn compare_keys_are_ordered_like_their_ids() {
    assert_eq!(&compare_key(258)[..8], &258u64.to_be_bytes());
    assert!(compare_key(1) < compare_key(256));
    assert_eq!(compare_value(3, 40).len(), 40);
    let (a, b) = scan_bounds(5, 100, 10);
    assert_eq!(a, compare_key(5));
    assert_eq!(b, compare_key(14));
    let (_, b) = scan_bounds(95, 100, 10);
    assert_eq!(b, compare_key(99));
    assert_ne!(worker_seed(1, 1), worker_seed(1, 2));
}

#[test]
fn compare_work_and_counts() {
    let mut c = match parse_config(&strings(&["compare", "--backend", "redb"]), 1) {
        Ok(Invocation::Run(c)) => c,
        other => panic!("{other:?}"),
    };
    c.mode = BenchMode::Get;
    let (plan, seq) = plan_txn(&c, 0, 3, &vec![7, 8]);
    assert_eq!(seq, 3);
    match plan {
        TxnPlan::Get(keys) => assert_eq!(keys, vec![compare_key(7), compare_key(8)]),
        _ => panic!("reads were asked for"),
    }
    c.mode = BenchMode::Put;
    let (plan, seq) = plan_txn(&c, 0, 3, &vec![7, 8]);
    assert_eq!(seq, 5);
    match plan {
        TxnPlan::Put(rows) => assert_eq!(rows[1].0, compare_key(8)),
        _ => panic!("writes were asked for"),
    }

    let mut r = Reservoir::new(2);
    r.record(10, 0);
    r.record(20, 0);
    r.record(30, 1);
    assert_eq!(r.seen, 3);
    assert_eq!(r.samples, vec![10, 30]);

    let mut a = WorkerStats::new();
    a.count(BenchMode::Put);
    let mut b = WorkerStats::new();
    b.count(BenchMode::Get);
    b.samples.push(4);
    a.merge(&b);
    assert_eq!((a.reads, a.writes), (1, 1));
    assert_eq!(a.samples, vec![4]);

    assert!(is_retryable_backpressure(&Error::Io(IoError::new(IoErrorKind::WouldBlock, "x"))));
    assert!(!is_retryable_backpressure(&Error::TxnTimeout));
    assert_eq!(batch_end(0, 10, 25), 10);
    assert_eq!(batch_end(20, 10, 25), 25);
    assert!(progress_due(25, 25));
}
