//! The comparison harness: accuracy tallies, scoring, ranking and the
//! rendered table.

use file_deduplicator::benchmark::BenchmarkResult;
use file_deduplicator::benchmark::FileInfo;
use file_deduplicator::comparison::compare_with_ground_truth;
use file_deduplicator::comparison::determine_best_method;
use file_deduplicator::comparison::Method;
use file_deduplicator::comparison::MethodComparator;
use file_deduplicator::methods::DeduplicationMethod;
use file_deduplicator::methods::FullHashMethod;
use file_deduplicator::methods::SizeOnlyMethod;
use file_deduplicator::methods::TwoPassMethod;
use file_deduplicator::methods::PartialHashMethod;
use file_deduplicator::render::generate_comparison_table;
use file_deduplicator::render::u64_to_dec;
use file_deduplicator::render::pad_right;

fn bench_corpus(entries: &[(&str, &[u8])]) -> (Vec<FileInfo>, Vec<Vec<u8>>) {
    let mut files = Vec::new();
    let mut contents = Vec::new();
    for (path, data) in entries {
        files.push(FileInfo { path: path.to_string(), size: data.len() as u64, hash: None });
        contents.push(data.to_vec());
    }
    (files, contents)
}

fn result_with(name: &str, tp: usize, fp: usize, fneg: usize, time_ms: u64) -> BenchmarkResult {
    BenchmarkResult {
        method_name: name.to_string(),
        total_files: 10,
        duplicates_found: 0,
        unique_files: 10,
        space_saved: 0,
        execution_time_ms: time_ms,
        memory_usage: 0,
        true_positives: tp,
        false_positives: fp,
        false_negatives: fneg,
    }
}

#[test]
fn accuracy_against_self_is_perfect() {
    let (files, contents) = bench_corpus(&[
        ("a", b"one".as_slice()),
        ("b", b"one".as_slice()),
        ("c", b"two".as_slice()),
    ]);
    let groups = FullHashMethod.find_duplicates(&files, &contents);
    let (tp, fp, fneg) = compare_with_ground_truth(&groups, &groups);
    assert_eq!(tp, groups.len());
    assert_eq!(fp, 0);
    assert_eq!(fneg, 0);
}

#[test]
fn accuracy_counts_distinct_group_sets() {
    let (files, contents) = bench_corpus(&[
        ("a", b"one".as_slice()),
        ("b", b"one".as_slice()),
        ("c", b"two".as_slice()),
        ("d", b"six".as_slice()),
    ]);
    let detected = FullHashMethod.find_duplicates(&files, &contents);
    let truth = SizeOnlyMethod.find_duplicates(&files, &contents);
    // size-only lumps all four equal-size files into one group, the full
    // hash keeps only the identical pair: no group set coincides
    let (tp, fp, fneg) = compare_with_ground_truth(&detected, &truth);
    assert_eq!(detected.len(), 1);
    assert_eq!(truth.len(), 1);
    assert_eq!(tp, 0);
    assert_eq!(fp, 1);
    assert_eq!(fneg, 1);
}

#[test]
fn best_method_weighs_speed_against_accuracy() {
    // perfect accuracy at ten milliseconds against ninety percent at one:
    // the documented weighting favors the faster strategy here
    let slow_accurate = result_with("slow_accurate", 1, 0, 0, 10);
    let fast_rough = result_with("fast_rough", 9, 1, 0, 1);
    let results = vec![slow_accurate, fast_rough];
    let best = determine_best_method(&results);
    assert_eq!(best, "fast_rough");
}

#[test]
fn best_method_prefers_first_on_tie() {
    let first = result_with("first", 1, 0, 0, 5);
    let second = result_with("second", 1, 0, 0, 5);
    let results = vec![first, second];
    assert_eq!(determine_best_method(&results), "first");
    let none: Vec<BenchmarkResult> = Vec::new();
    assert_eq!(determine_best_method(&none), "none");
}

#[test]
fn accuracy_millionths_values() {
    let perfect = result_with("p", 3, 0, 0, 1);
    assert_eq!(perfect.accuracy_millionths(), 1_000_000);
    let empty = result_with("e", 0, 0, 0, 1);
    assert_eq!(empty.accuracy_millionths(), 1_000_000);
    let half = result_with("h", 1, 1, 0, 1);
    assert_eq!(half.accuracy_millionths(), 500_000);
}

#[test]
fn compare_methods_reports_all_strategies() {
    let (files, contents) = bench_corpus(&[
        ("a.txt", b"identical content".as_slice()),
        ("b.txt", b"identical content".as_slice()),
        ("c.txt", b"longer, different content".as_slice()),
    ]);
    let mut comparator = MethodComparator::new();
    comparator.add_method(Method::SizeOnly(SizeOnlyMethod));
    comparator.add_method(Method::PartialHash(PartialHashMethod));
    comparator.add_method(Method::FullHash(FullHashMethod));
    comparator.add_method(Method::TwoPass(TwoPassMethod));
    let report = comparator.compare_methods(&files, &contents);
    assert_eq!(report.results.len(), 4);
    assert_eq!(report.results[0].method_name, "size_only");
    assert_eq!(report.results[2].method_name, "full_hash");
    for r in &report.results {
        assert_eq!(r.total_files, 3);
        // every strategy finds exactly the identical pair here
        assert_eq!(r.duplicates_found, 1);
        assert_eq!(r.unique_files, 2);
        assert_eq!(r.space_saved, 17);
        assert_eq!(r.false_positives, 0);
        assert_eq!(r.false_negatives, 0);
        assert_eq!(r.accuracy_millionths(), 1_000_000);
    }
    assert!(report.comparison_table.contains("Method"));
    assert!(report.comparison_table.contains("Saved(MB)"));
    assert!(report.comparison_table.contains("size_only"));
    assert!(report.comparison_table.contains("two_pass"));
}

#[test]
fn comparator_uses_supplied_ground_truth() {
    let (files, contents) = bench_corpus(&[
        ("a", b"one".as_slice()),
        ("b", b"one".as_slice()),
        ("c", b"ten".as_slice()),
    ]);
    let mut comparator = MethodComparator::new();
    comparator.add_method(Method::SizeOnly(SizeOnlyMethod));
    // with the size-only partition itself as truth, size-only is perfect
    let truth = SizeOnlyMethod.find_duplicates(&files, &contents);
    comparator.set_ground_truth(truth);
    let report = comparator.compare_methods(&files, &contents);
    assert_eq!(report.results[0].false_positives, 0);
    assert_eq!(report.results[0].false_negatives, 0);
    assert_eq!(report.results[0].accuracy_millionths(), 1_000_000);
    assert_eq!(report.best_method, "size_only");
}

#[test]
fn table_layout_is_fixed() {
    let results = vec![result_with("size_only", 1, 0, 0, 12)];
    let table = generate_comparison_table(&results);
    let lines: Vec<&str> = table.lines().collect();
    assert_eq!(lines.len(), 3);
    assert!(lines[0].starts_with("Method"));
    assert_eq!(lines[1], "-".repeat(80));
    assert!(lines[2].starts_with("size_only"));
    assert!(lines[2].contains("1.0000"));
    assert!(lines[2].contains("0.00"));
}

#[test]
fn decimal_rendering() {
    assert_eq!(u64_to_dec(0), "0");
    assert_eq!(u64_to_dec(7), "7");
    assert_eq!(u64_to_dec(42), "42");
    assert_eq!(u64_to_dec(1234567890), "1234567890");
    assert_eq!(u64_to_dec(u64::MAX), "18446744073709551615");
}

#[test]
fn padding_rendering() {
    assert_eq!(pad_right("ab".to_string(), 5), "ab   ");
    assert_eq!(pad_right("abcdef".to_string(), 3), "abcdef");
}
