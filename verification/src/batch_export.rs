//! Progress of a batch run and the naming of its ZIP export.
use crate::binary_float::{
    float_div, float_div_exec, float_mul_nat, float_mul_u64, float_of_nat, float_of_u64,
    float_round, float_round_capped, lemma_pow2_table,
};
use crate::text::{push_str};
use vstd::prelude::*;

verus! {

#[derive(Clone, Debug, PartialEq, Eq)]
pub struct DownloadEntry {
    pub file_name: String,
    pub source_image: String,
}

#[derive(Clone, Debug, PartialEq, Eq)]
pub struct ZipPlan {
    pub zip_name: String,
    pub entry_count: usize,
}

#[derive(Clone, Debug, PartialEq, Eq)]
pub struct BatchProgress {
    pub total: usize,
    pub processed: usize,
    pub failed: usize,
    pub running: bool,
    pub cancelled: bool,
    pub status: String,
}

/// The idle progress: nothing counted, not running, not cancelled, status
/// `Ready`.
pub open spec fn is_idle_progress(p: BatchProgress) -> bool {
    p.total == 0 && p.processed == 0 && p.failed == 0 && !p.running && !p.cancelled && p.status@
        == "Ready"@
}

impl Default for BatchProgress {
    fn default() -> (p: Self)
        ensures
            is_idle_progress(p),
    {
        BatchProgress {
            total: 0,
            processed: 0,
            failed: 0,
            running: false,
            cancelled: false,
            status: String::from_str("Ready"),
        }
    }
}

/// `n as f64`.
pub open spec fn f64_of(n: nat) -> (nat, int) {
    float_of_nat(n, 53)
}

/// `((processed as f64 / total as f64) * 100.0).round() as u8`, and 0 for an
/// empty batch.
pub open spec fn percent_of(processed: nat, total: nat) -> nat {
    if total == 0 {
        0
    } else {
        let q = float_div(f64_of(processed), f64_of(total), 53);
        let r = float_round(float_mul_nat(q, 100, 53));
        if r > 255 {
            255
        } else {
            r
        }
    }
}

impl BatchProgress {
    /// Begins a run of `total` items.
    pub fn start(&mut self, total: usize, status: &str)
        ensures
            final(self).total == total,
            final(self).processed == 0,
            final(self).failed == 0,
            final(self).running,
            !final(self).cancelled,
            final(self).status@ == status@,
    {
        self.total = total;
        self.processed = 0;
        self.failed = 0;
        self.running = true;
        self.cancelled = false;
        self.status = String::from_str(status);
    }

    /// Counts one finished item, and one failure when it did not succeed
    /// (both counts saturate).
    pub fn record_result(&mut self, success: bool)
        ensures
            final(self).processed == (if old(self).processed == usize::MAX {
                usize::MAX as int
            } else {
                old(self).processed + 1
            }),
            final(self).failed == (if success || old(self).failed == usize::MAX {
                old(self).failed as int
            } else {
                old(self).failed + 1
            }),
            final(self).total == old(self).total,
            final(self).running == old(self).running,
            final(self).cancelled == old(self).cancelled,
            final(self).status == old(self).status,
    {
        self.processed = self.processed.saturating_add(1);
        if !success {
            self.failed = self.failed.saturating_add(1);
        }
    }

    /// Ends the run with a final status.
    pub fn complete(&mut self, status: &str)
        ensures
            !final(self).running,
            final(self).status@ == status@,
            final(self).total == old(self).total,
            final(self).processed == old(self).processed,
            final(self).failed == old(self).failed,
            final(self).cancelled == old(self).cancelled,
    {
        self.running = false;
        self.status = String::from_str(status);
    }

    /// Back to the idle progress.
    pub fn reset(&mut self)
        ensures
            is_idle_progress(*final(self)),
    {
        *self = Self::default();
    }

    /// The completed share of the run, in percent.
    pub fn percent(&self) -> (r: u8)
        ensures
            r as nat == percent_of(self.processed as nat, self.total as nat),
    {
        if self.total == 0 {
            return 0;
        }
        proof {
            lemma_pow2_table();
        }
        let a = float_of_u64(self.processed as u64, 53);
        let b = float_of_u64(self.total as u64, 53);
        let q = float_div_exec(a, b, 53);
        let v = float_mul_u64(q, 100, 53);
        float_round_capped(v, 255) as u8
    }
}

/// Recording a result never lets the failures outnumber the finished items.
pub proof fn lemma_record_result_keeps_failed_within_processed(
    processed: nat,
    failed: nat,
    success: bool,
)
    requires
        failed <= processed <= usize::MAX,
    ensures
        ({
            let p2 = if processed == usize::MAX {
                usize::MAX as nat
            } else {
                processed + 1
            };
            let f2 = if success || failed == usize::MAX {
                failed
            } else {
                failed + 1
            };
            f2 <= p2
        }),
{
}

pub open spec fn zip_name(timestamp_utc: Seq<char>) -> Seq<char> {
    "face-crops-"@ + timestamp_utc + ".zip"@
}

/// `face-crops-<timestamp>.zip`.
pub fn default_zip_name(timestamp_utc: &str) -> (name: String)
    ensures
        name@ == zip_name(timestamp_utc@),
{
    let mut out = String::new();
    push_str(&mut out, "face-crops-");
    push_str(&mut out, timestamp_utc);
    push_str(&mut out, ".zip");
    out
}

/// The archive name and how many files go into it.
pub fn plan_zip_export(entries: &[DownloadEntry], timestamp_utc: &str) -> (plan: ZipPlan)
    ensures
        plan.zip_name@ == zip_name(timestamp_utc@),
        plan.entry_count == entries@.len(),
{
    ZipPlan { zip_name: default_zip_name(timestamp_utc), entry_count: entries.len() }
}

/// A run whose every item is counted shows one hundred percent.
pub proof fn lemma_finished_run_is_hundred_percent(total: nat)
    requires
        0 < total <= u64::MAX,
    ensures
        percent_of(total, total) == 100,
{
    crate::binary_float::lemma_pow2_table();
    crate::binary_float::lemma_float_of_nat_normal(total, 53);
    crate::binary_float::lemma_hundred_percent(f64_of(total));
}

/// While the finished items do not outnumber the total, the run shows at
/// most one hundred percent.
pub proof fn lemma_percent_at_most_hundred(processed: nat, total: nat)
    requires
        processed <= total,
    ensures
        percent_of(processed, total) <= 100,
{
    if total > 0 {
        crate::binary_float::lemma_hundredfold_ratio_at_most_hundred(processed, total);
    }
}

} // verus!
