//! Settings and metrics of the storage node.
use vstd::prelude::*;
use vstd::string::*;

use crate::common::{io_error, is_io_error, IoErrorKind, Result};
use crate::page_store::CheckpointConfig;
use crate::text::{dec, put_num};

verus! {

/// When the node writes checkpoints, drops log segments and collects garbage.
#[derive(Clone, Copy, Debug, PartialEq, Eq, Structural)]
pub struct StorageMaintenanceConfig {
    pub checkpoint: CheckpointConfig,
    pub truncate_wal: bool,
    pub max_wal_bytes: u64,
    pub max_wal_segments: usize,
    pub mvcc_gc_every_wal_batches: usize,
    pub wal_group_commit_max_batches: usize,
    pub wal_group_commit_wait_us: u64,
}

impl Default for StorageMaintenanceConfig {
    fn default() -> (r: StorageMaintenanceConfig)
        ensures
            r.checkpoint.interval_nanos == 60_000_000_000,
            r.checkpoint.max_dirty_pages == 1000,
            r.checkpoint.max_dirty_bytes == 64 * 1024 * 1024,
            r.truncate_wal,
            r.max_wal_bytes == 512 * 1024 * 1024,
            r.max_wal_segments == 64,
            r.mvcc_gc_every_wal_batches == 128,
            r.wal_group_commit_max_batches == 64,
            r.wal_group_commit_wait_us == 200,
    {
        StorageMaintenanceConfig {
            checkpoint: CheckpointConfig::default(),
            truncate_wal: true,
            max_wal_bytes: 512 * 1024 * 1024,
            max_wal_segments: 64,
            mvcc_gc_every_wal_batches: 128,
            wal_group_commit_max_batches: 64,
            wal_group_commit_wait_us: 200,
        }
    }
}

/// What is wrong with a configuration, if anything is.
pub open spec fn config_fault(c: StorageMaintenanceConfig) -> Option<Seq<char>> {
    if c.checkpoint.interval_nanos == 0 {
        Some("checkpoint.interval must be > 0"@)
    } else if c.checkpoint.max_dirty_pages == 0 {
        Some("checkpoint.max_dirty_pages must be > 0"@)
    } else if c.checkpoint.max_dirty_bytes == 0 {
        Some("checkpoint.max_dirty_bytes must be > 0"@)
    } else if c.max_wal_bytes == 0 {
        Some("max_wal_bytes must be > 0"@)
    } else if c.max_wal_segments == 0 {
        Some("max_wal_segments must be > 0"@)
    } else if c.mvcc_gc_every_wal_batches == 0 {
        Some("mvcc_gc_every_wal_batches must be > 0"@)
    } else if c.wal_group_commit_max_batches == 0 {
        Some("wal_group_commit_max_batches must be > 0"@)
    } else {
        None
    }
}

pub open spec fn bool_text(b: bool) -> Seq<char> {
    if b {
        "true"@
    } else {
        "false"@
    }
}

impl StorageMaintenanceConfig {
    /// Rejects a zero where a limit must be positive.
    pub fn validate(&self) -> (r: Result<()>)
        ensures
            match config_fault(*self) {
                Some(m) => r matches Err(e) && is_io_error(e, IoErrorKind::InvalidInput, m),
                None => r is Ok,
            },
    {
        if self.checkpoint.interval_nanos == 0 {
            return Err(io_error(IoErrorKind::InvalidInput, "checkpoint.interval must be > 0"));
        }
        if self.checkpoint.max_dirty_pages == 0 {
            return Err(
                io_error(IoErrorKind::InvalidInput, "checkpoint.max_dirty_pages must be > 0"),
            );
        }
        if self.checkpoint.max_dirty_bytes == 0 {
            return Err(
                io_error(IoErrorKind::InvalidInput, "checkpoint.max_dirty_bytes must be > 0"),
            );
        }
        if self.max_wal_bytes == 0 {
            return Err(io_error(IoErrorKind::InvalidInput, "max_wal_bytes must be > 0"));
        }
        if self.max_wal_segments == 0 {
            return Err(io_error(IoErrorKind::InvalidInput, "max_wal_segments must be > 0"));
        }
        if self.mvcc_gc_every_wal_batches == 0 {
            return Err(
                io_error(IoErrorKind::InvalidInput, "mvcc_gc_every_wal_batches must be > 0"),
            );
        }
        if self.wal_group_commit_max_batches == 0 {
            return Err(
                io_error(IoErrorKind::InvalidInput, "wal_group_commit_max_batches must be > 0"),
            );
        }
        Ok(())
    }

    /// The configuration as JSON; `interval_secs` is the checkpoint interval in
    /// seconds, as text.
    pub fn render_json(&self, interval_secs: &str) -> (r: String)
        ensures
            r@ == "{\"checkpoint\":{\"interval_secs\":"@ + interval_secs@
                + ",\"max_dirty_pages\":"@ + dec(self.checkpoint.max_dirty_pages as int)
                + ",\"max_dirty_bytes\":"@ + dec(self.checkpoint.max_dirty_bytes as int)
                + "},\"truncate_wal\":"@ + bool_text(self.truncate_wal) + ",\"max_wal_bytes\":"@
                + dec(self.max_wal_bytes as int) + ",\"max_wal_segments\":"@ + dec(
                self.max_wal_segments as int,
            ) + ",\"mvcc_gc_every_wal_batches\":"@ + dec(self.mvcc_gc_every_wal_batches as int)
                + ",\"wal_group_commit_max_batches\":"@ + dec(
                self.wal_group_commit_max_batches as int,
            ) + ",\"wal_group_commit_wait_us\":"@ + dec(self.wal_group_commit_wait_us as int)
                + "}"@,
    {
        let mut out = String::from_str("{\"checkpoint\":{\"interval_secs\":");
        out.append(interval_secs);
        put_num(&mut out, ",\"max_dirty_pages\":", self.checkpoint.max_dirty_pages as u64);
        put_num(&mut out, ",\"max_dirty_bytes\":", self.checkpoint.max_dirty_bytes as u64);
        out.append("},\"truncate_wal\":");
        if self.truncate_wal {
            out.append("true");
        } else {
            out.append("false");
        }
        put_num(&mut out, ",\"max_wal_bytes\":", self.max_wal_bytes);
        put_num(&mut out, ",\"max_wal_segments\":", self.max_wal_segments as u64);
        put_num(
            &mut out,
            ",\"mvcc_gc_every_wal_batches\":",
            self.mvcc_gc_every_wal_batches as u64,
        );
        put_num(
            &mut out,
            ",\"wal_group_commit_max_batches\":",
            self.wal_group_commit_max_batches as u64,
        );
        put_num(&mut out, ",\"wal_group_commit_wait_us\":", self.wal_group_commit_wait_us);
        out.append("}");
        out
    }
}

/// Counters of the node at one moment.
#[derive(Clone, Copy, Debug, PartialEq, Eq, Structural)]
pub struct StorageMetricsSnapshot {
    pub wal_segments: usize,
    pub wal_bytes: u64,
    pub wal_backpressure_count: u64,
    pub checkpoint_runs: u64,
    pub checkpoint_total_duration_ms: u64,
    pub checkpoint_last_duration_ms: u64,
    pub gc_runs: u64,
    pub gc_versions_removed_total: u64,
    pub gc_last_duration_ms: u64,
    pub mvcc_keys: usize,
    pub mvcc_versions: usize,
    pub active_reads: usize,
    pub page_cache_resident_pages: usize,
    pub page_cache_hits: u64,
    pub page_cache_misses: u64,
}

/// One line of the Prometheus text.
pub open spec fn metric_line(name: Seq<char>, value: Seq<char>) -> Seq<char> {
    name + " "@ + value + "\n"@
}

fn put_metric(out: &mut String, name: &str, n: u64)
    ensures
        final(out)@ == old(out)@ + metric_line(name@, dec(n as int)),
{
    out.append(name);
    put_num(out, " ", n);
    out.append("\n");
    assert(out@ =~= old(out)@ + metric_line(name@, dec(n as int)));
}

impl StorageMetricsSnapshot {
    /// The counters as Prometheus text; `avg` is the mean number of versions per
    /// key, as text.
    pub fn render_prometheus(&self, avg: &str) -> (r: String)
        ensures
            r@ == metric_line("scale_kv_wal_segments"@, dec(self.wal_segments as int))
                + metric_line("scale_kv_wal_bytes"@, dec(self.wal_bytes as int)) + metric_line(
                "scale_kv_wal_backpressure_count"@,
                dec(self.wal_backpressure_count as int),
            ) + metric_line("scale_kv_checkpoint_runs_total"@, dec(self.checkpoint_runs as int))
                + metric_line(
                "scale_kv_checkpoint_duration_ms_total"@,
                dec(self.checkpoint_total_duration_ms as int),
            ) + metric_line(
                "scale_kv_checkpoint_duration_ms_last"@,
                dec(self.checkpoint_last_duration_ms as int),
            ) + metric_line("scale_kv_gc_runs_total"@, dec(self.gc_runs as int)) + metric_line(
                "scale_kv_gc_versions_removed_total"@,
                dec(self.gc_versions_removed_total as int),
            ) + metric_line("scale_kv_gc_duration_ms_last"@, dec(self.gc_last_duration_ms as int))
                + metric_line("scale_kv_mvcc_keys"@, dec(self.mvcc_keys as int)) + metric_line(
                "scale_kv_mvcc_versions"@,
                dec(self.mvcc_versions as int),
            ) + metric_line("scale_kv_mvcc_versions_per_key"@, avg@) + metric_line(
                "scale_kv_active_reads"@,
                dec(self.active_reads as int),
            ) + metric_line(
                "scale_kv_page_cache_resident_pages"@,
                dec(self.page_cache_resident_pages as int),
            ) + metric_line("scale_kv_page_cache_hits"@, dec(self.page_cache_hits as int))
                + metric_line("scale_kv_page_cache_misses"@, dec(self.page_cache_misses as int)),
    {
        let mut out = String::from_str("");
        proof {
            reveal_strlit("");
        }
        put_metric(&mut out, "scale_kv_wal_segments", self.wal_segments as u64);
        assert(out@ =~= metric_line("scale_kv_wal_segments"@, dec(self.wal_segments as int)));
        put_metric(&mut out, "scale_kv_wal_bytes", self.wal_bytes);
        put_metric(&mut out, "scale_kv_wal_backpressure_count", self.wal_backpressure_count);
        put_metric(&mut out, "scale_kv_checkpoint_runs_total", self.checkpoint_runs);
        put_metric(
            &mut out,
            "scale_kv_checkpoint_duration_ms_total",
            self.checkpoint_total_duration_ms,
        );
        put_metric(
            &mut out,
            "scale_kv_checkpoint_duration_ms_last",
            self.checkpoint_last_duration_ms,
        );
        put_metric(&mut out, "scale_kv_gc_runs_total", self.gc_runs);
        put_metric(&mut out, "scale_kv_gc_versions_removed_total", self.gc_versions_removed_total);
        put_metric(&mut out, "scale_kv_gc_duration_ms_last", self.gc_last_duration_ms);
        put_metric(&mut out, "scale_kv_mvcc_keys", self.mvcc_keys as u64);
        put_metric(&mut out, "scale_kv_mvcc_versions", self.mvcc_versions as u64);
        let ghost before = out@;
        out.append("scale_kv_mvcc_versions_per_key");
        out.append(" ");
        out.append(avg);
        out.append("\n");
        assert(out@ =~= before + metric_line("scale_kv_mvcc_versions_per_key"@, avg@));
        put_metric(&mut out, "scale_kv_active_reads", self.active_reads as u64);
        put_metric(
            &mut out,
            "scale_kv_page_cache_resident_pages",
            self.page_cache_resident_pages as u64,
        );
        put_metric(&mut out, "scale_kv_page_cache_hits", self.page_cache_hits);
        put_metric(&mut out, "scale_kv_page_cache_misses", self.page_cache_misses);
        out
    }

    /// The counters as JSON; `avg` is the mean number of versions per key, as text.
    pub fn render_json(&self, avg: &str) -> (r: String)
        ensures
            r@ == "{\"wal\":{\"segments\":"@ + dec(self.wal_segments as int) + ",\"bytes\":"@ + dec(
                self.wal_bytes as int,
            ) + ",\"backpressure_count\":"@ + dec(self.wal_backpressure_count as int)
                + "},\"checkpoint\":{\"runs\":"@ + dec(self.checkpoint_runs as int)
                + ",\"duration_ms_total\":"@ + dec(self.checkpoint_total_duration_ms as int)
                + ",\"duration_ms_last\":"@ + dec(self.checkpoint_last_duration_ms as int)
                + "},\"gc\":{\"runs\":"@ + dec(self.gc_runs as int)
                + ",\"versions_removed_total\":"@ + dec(self.gc_versions_removed_total as int)
                + ",\"duration_ms_last\":"@ + dec(self.gc_last_duration_ms as int)
                + "},\"mvcc\":{\"keys\":"@ + dec(self.mvcc_keys as int) + ",\"versions\":"@ + dec(
                self.mvcc_versions as int,
            ) + ",\"avg_versions_per_key\":"@ + avg@ + ",\"active_reads\":"@ + dec(
                self.active_reads as int,
            ) + "},\"cache\":{\"resident_pages\":"@ + dec(self.page_cache_resident_pages as int)
                + ",\"hits\":"@ + dec(self.page_cache_hits as int) + ",\"misses\":"@ + dec(
                self.page_cache_misses as int,
            ) + "}}"@,
    {
        let mut out = String::from_str("{\"wal\":{\"segments\":");
        let d = crate::text::dec_string(self.wal_segments as u64);
        out.append(d.as_str());
        put_num(&mut out, ",\"bytes\":", self.wal_bytes);
        put_num(&mut out, ",\"backpressure_count\":", self.wal_backpressure_count);
        put_num(&mut out, "},\"checkpoint\":{\"runs\":", self.checkpoint_runs);
        put_num(&mut out, ",\"duration_ms_total\":", self.checkpoint_total_duration_ms);
        put_num(&mut out, ",\"duration_ms_last\":", self.checkpoint_last_duration_ms);
        put_num(&mut out, "},\"gc\":{\"runs\":", self.gc_runs);
        put_num(&mut out, ",\"versions_removed_total\":", self.gc_versions_removed_total);
        put_num(&mut out, ",\"duration_ms_last\":", self.gc_last_duration_ms);
        put_num(&mut out, "},\"mvcc\":{\"keys\":", self.mvcc_keys as u64);
        put_num(&mut out, ",\"versions\":", self.mvcc_versions as u64);
        out.append(",\"avg_versions_per_key\":");
        out.append(avg);
        put_num(&mut out, ",\"active_reads\":", self.active_reads as u64);
        put_num(
            &mut out,
            "},\"cache\":{\"resident_pages\":",
            self.page_cache_resident_pages as u64,
        );
        put_num(&mut out, ",\"hits\":", self.page_cache_hits);
        put_num(&mut out, ",\"misses\":", self.page_cache_misses);
        out.append("}}");
        out
    }
}

/// A configuration is accepted exactly if none of its limits and intervals is zero.
pub proof fn law_accepted_config_has_no_zero(c: StorageMaintenanceConfig)
    ensures
        config_fault(c) is None <==> c.checkpoint.interval_nanos > 0 && c.checkpoint.max_dirty_pages
            > 0 && c.checkpoint.max_dirty_bytes > 0 && c.max_wal_bytes > 0 && c.max_wal_segments > 0
            && c.mvcc_gc_every_wal_batches > 0 && c.wal_group_commit_max_batches > 0,
{
}

} // verus!
