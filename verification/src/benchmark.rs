//! The benchmark records produced by the comparison harness.

use vstd::prelude::*;

verus! {

/// One strategy's measurements over one input set.
///
/// Accuracy is kept as the exact ratio `true_positives /
/// (true_positives + false_positives + false_negatives)`, defined as `1`
/// when that denominator is zero; `accuracy_millionths` renders it as an
/// integer.
#[derive(Debug)]
pub struct BenchmarkResult {
    pub method_name: String,
    pub total_files: usize,
    pub duplicates_found: usize,
    pub unique_files: usize,
    pub space_saved: u64,
    /// Wall-clock time of the strategy run, in whole milliseconds.
    pub execution_time_ms: u64,
    /// Memory growth observed across the run, in bytes; `0` when sampling
    /// failed.
    pub memory_usage: u64,
    pub true_positives: usize,
    pub false_positives: usize,
    pub false_negatives: usize,
}

/// The accuracy ratio of a result, scaled to millionths and truncated.
pub open spec fn accuracy_millionths_spec(tp: int, fp: int, fn_: int) -> int {
    if tp + fp + fn_ == 0 {
        1_000_000
    } else {
        tp * 1_000_000 / (tp + fp + fn_)
    }
}

impl Clone for BenchmarkResult {
    fn clone(&self) -> (r: Self)
        ensures
            r == *self,
    {
        BenchmarkResult {
            method_name: self.method_name.clone(),
            total_files: self.total_files,
            duplicates_found: self.duplicates_found,
            unique_files: self.unique_files,
            space_saved: self.space_saved,
            execution_time_ms: self.execution_time_ms,
            memory_usage: self.memory_usage,
            true_positives: self.true_positives,
            false_positives: self.false_positives,
            false_negatives: self.false_negatives,
        }
    }
}

impl BenchmarkResult {
    /// The accuracy ratio scaled to millionths: `1_000_000` means the
    /// strategy matched the ground truth exactly.
    pub fn accuracy_millionths(&self) -> (r: u64)
        ensures
            r == accuracy_millionths_spec(
                self.true_positives as int,
                self.false_positives as int,
                self.false_negatives as int,
            ),
    {
        let tp = self.true_positives as u128;
        let fp = self.false_positives as u128;
        let fneg = self.false_negatives as u128;
        if tp + fp + fneg == 0 {
            1_000_000
        } else {
            let r = tp * 1_000_000 / (tp + fp + fneg);
            proof {
                assert(r <= 1_000_000 * tp / 1) by (nonlinear_arith)
                    requires r == tp * 1_000_000 / (tp + fp + fneg), tp + fp + fneg >= 1;
                assert(r <= u64::MAX) by (nonlinear_arith)
                    requires r == tp * 1_000_000 / (tp + fp + fneg),
                        tp + fp + fneg >= 1,
                        tp <= tp + fp + fneg;
            }
            r as u64
        }
    }
}

/// The outcome of one comparison run: every strategy's measurements, the
/// winning strategy's name, and the rendered table.
#[derive(Debug)]
pub struct ComparisonReport {
    pub results: Vec<BenchmarkResult>,
    pub best_method: String,
    pub comparison_table: String,
}

/// A file descriptor handed to the strategies: a path, a size, and an
/// optional precomputed fingerprint.
#[derive(Debug)]
pub struct FileInfo {
    pub path: String,
    pub size: u64,
    pub hash: Option<String>,
}

impl Clone for FileInfo {
    fn clone(&self) -> (r: Self)
        ensures
            r == *self,
    {
        FileInfo {
            path: self.path.clone(),
            size: self.size,
            hash: match &self.hash {
                Some(h) => Some(h.clone()),
                None => None,
            },
        }
    }
}

} // verus!
