//! The duplicate finder, the similarity machinery, and the fingerprinting
//! primitives over concrete inputs.

use file_deduplicator::config::Config;
use file_deduplicator::config::DuplicateConfig;
use file_deduplicator::finder::extension_of_str;
use file_deduplicator::finder::remediation_name;
use file_deduplicator::finder::split_files_by_extensions;
use file_deduplicator::finder::DuplicateFinder;
use file_deduplicator::finder::PathKind;
use file_deduplicator::hashing::compute_full_hash;
use file_deduplicator::hashing::compute_md5;
use file_deduplicator::hashing::compute_partial_hash;
use file_deduplicator::hashing::compute_simple_hash;
use file_deduplicator::hashing::data_to_hex;
use file_deduplicator::hashing::get_file_sha256_digest;
use file_deduplicator::models::ScanStats;
use file_deduplicator::piecewise::compare_files;
use file_deduplicator::piecewise::compute_file_chunk_hashes_hex;
use file_deduplicator::piecewise::compute_file_hashes;
use file_deduplicator::piecewise::find_similar_files;
use file_deduplicator::piecewise::Similarity;
use file_deduplicator::plugins::file_name_of;
use file_deduplicator::plugins::DedupPlugin;
use file_deduplicator::plugins::FullHashPlugin;
use file_deduplicator::plugins::PluginManager;

#[test]
fn test_duplicate_finder_creation() {
    let finder = DuplicateFinder::new(
        "/tmp/in",
        "/tmp/out",
        PathKind::Directory,
        PathKind::Directory,
        true,
    );
    assert!(finder.is_ok());
}

#[test]
fn test_failed_finder_creation() {
    let finder = DuplicateFinder::new(
        "/tmp/in",
        "./alo",
        PathKind::Directory,
        PathKind::Missing,
        true,
    );
    assert!(finder.is_err());

    let finder = DuplicateFinder::new(
        "./alo",
        "/tmp/out",
        PathKind::Missing,
        PathKind::Directory,
        true,
    );
    assert!(finder.is_err());

    let finder = DuplicateFinder::new(
        "/tmp/f1",
        "/tmp/f2",
        PathKind::NotDirectory,
        PathKind::NotDirectory,
        true,
    );
    assert!(finder.is_err());
}

#[test]
fn test_empty_dir() {
    let finder = DuplicateFinder::new(
        "/tmp/in",
        "/tmp/out",
        PathKind::Directory,
        PathKind::Directory,
        false,
    );
    assert!(finder.is_err());
    assert_eq!(finder.unwrap_err(), "/tmp/in is empty");
}

#[test]
fn find_nested_files() {
    // a file in a nested directory still makes the input non-empty
    let finder = DuplicateFinder::new(
        "/tmp/in",
        "/tmp/out",
        PathKind::Directory,
        PathKind::Directory,
        true,
    );
    assert!(finder.is_ok());
}

#[test]
fn test_split_files_by_extensions() {
    let paths = vec![
        "file1.txt".to_string(),
        "file2.txt".to_string(),
        "file3.docx".to_string(),
        "file4.eml".to_string(),
    ];
    let result = split_files_by_extensions(&paths);
    assert_eq!(result.len(), 3);

    let get = |ext: &str| -> Vec<String> {
        result
            .iter()
            .find(|(k, _)| k == ext)
            .map(|(_, v)| v.clone())
            .unwrap_or_default()
    };
    assert_eq!(get("txt").len(), 2);
    assert_eq!(get("docx").len(), 1);
    assert_eq!(get("eml").len(), 1);

    assert!(get("docx")[0].ends_with("file3.docx"));
    assert!(get("eml")[0].ends_with("file4.eml"));
}

#[test]
fn test_get_file_sha256_digest() {
    let digest_1 = get_file_sha256_digest(b"123\n");
    let digest_2 = get_file_sha256_digest(b"123\n");
    assert_eq!(digest_1, digest_2);

    let digest_3 = get_file_sha256_digest(b"321\n");
    assert_ne!(digest_2, digest_3);
}

#[test]
fn test_find_full_duplicates_basic() {
    let paths = vec![
        "file1.txt".to_string(),
        "file2.txt".to_string(),
        "file3.txt".to_string(),
        "subdir/file4.txt".to_string(),
    ];
    let contents = vec![
        b"identical content".to_vec(),
        b"identical content".to_vec(),
        b"different content".to_vec(),
        b"identical content".to_vec(),
    ];
    let finder = DuplicateFinder::new(
        "/tmp/in",
        "/tmp/in",
        PathKind::Directory,
        PathKind::Directory,
        true,
    )
    .unwrap();
    let duplicates = finder.find_full_duplicates(&paths, &contents);
    let mut normalized = duplicates;
    for group in &mut normalized {
        group.sort();
    }
    normalized.sort_by(|a, b| a[0].cmp(&b[0]));
    println!("{:?}", normalized);
    assert_eq!(normalized.len(), 2);
    assert_eq!(normalized[0].len(), 3);
}

#[test]
fn labeled_duplicates_carry_extension_and_digest() {
    let paths = vec!["a.txt".to_string(), "b.txt".to_string(), "c.log".to_string()];
    let contents = vec![b"dup".to_vec(), b"dup".to_vec(), b"solo".to_vec()];
    let finder = DuplicateFinder::new(
        "/tmp/in",
        "/tmp/out",
        PathKind::Directory,
        PathKind::Directory,
        true,
    )
    .unwrap();
    let labeled = finder.find_duplicates_with_info(&paths, &contents);
    assert_eq!(labeled.len(), 1);
    let expected_digest = compute_full_hash(b"dup");
    assert_eq!(labeled[0].0, format!("txt_{}", expected_digest));
    assert_eq!(labeled[0].1, vec!["a.txt".to_string(), "b.txt".to_string()]);
}

#[test]
fn extension_extraction() {
    assert_eq!(extension_of_str(&"a/b/file.txt".to_string()), "txt");
    assert_eq!(extension_of_str(&"noext".to_string()), "unknown");
    assert_eq!(extension_of_str(&".hidden".to_string()), "unknown");
    assert_eq!(extension_of_str(&"dir.d/file".to_string()), "unknown");
    assert_eq!(extension_of_str(&"x/y.tar.gz".to_string()), "gz");
    assert_eq!(extension_of_str(&"".to_string()), "unknown");
}

#[test]
fn file_name_extraction() {
    assert_eq!(file_name_of(&"a/b.txt".to_string()), "b.txt");
    assert_eq!(file_name_of(&"plain".to_string()), "plain");
    assert_eq!(file_name_of(&"dir/".to_string()), "unknown");
    assert_eq!(file_name_of(&"".to_string()), "unknown");
}

#[test]
fn remediation_names() {
    assert_eq!(remediation_name(0, "photo.jpg"), "original_photo.jpg");
    assert_eq!(remediation_name(1, "photo.jpg"), "[1]_photo.jpg");
    assert_eq!(remediation_name(12, "x"), "[12]_x");
}

#[test]
fn hex_rendering_matches_known_digests() {
    assert_eq!(data_to_hex(&[0x00, 0xff, 0x1a]), "00ff1a");
    assert_eq!(data_to_hex(&[]), "");
    // the SHA-256 of the empty input is a published constant
    assert_eq!(
        compute_full_hash(b""),
        "e3b0c44298fc1c149afbf4c8996fb92427ae41e4649b934ca495991b7852b855"
    );
    // the MD5 of the empty input is a published constant
    assert_eq!(compute_md5(b""), "d41d8cd98f00b204e9800998ecf8427e");
}

#[test]
fn partial_hash_covers_only_real_content() {
    // a shorter buffer is hashed as it is, never padded
    assert_eq!(compute_partial_hash(b"abc", 50), compute_full_hash(b"abc"));
    let long = vec![5u8; 100];
    assert_eq!(compute_partial_hash(&long, 50), compute_full_hash(&vec![5u8; 50]));
    assert_ne!(compute_partial_hash(&long, 50), compute_full_hash(&long));
}

#[test]
fn simple_hash_is_deterministic_in_process() {
    assert_eq!(compute_simple_hash(b"abc"), compute_simple_hash(b"abc"));
}

#[test]
fn chunk_hashes_sample_head_and_tail() {
    // a short buffer has one window, sampled from both ends
    let hashes = compute_file_hashes(b"small");
    assert_eq!(hashes.len(), 2);
    assert_eq!(hashes[0], hashes[1]);
    assert_eq!(hashes[0].len(), 32);
    let empty: &[u8] = b"";
    assert_eq!(compute_file_hashes(empty).len(), 0);
    let hex = compute_file_chunk_hashes_hex(b"small");
    assert_eq!(hex.len(), 2);
    assert_eq!(hex[0].len(), 64);
}

#[test]
fn similarity_is_symmetric_and_counts_matches() {
    let a = compute_file_hashes(b"same");
    let b = compute_file_hashes(b"same");
    let c = compute_file_hashes(b"other");
    let ab = compare_files(&a, &b);
    assert_eq!(ab.identical, ab.compared);
    assert!(ab.meets_threshold(100));
    let ac = compare_files(&a, &c);
    let ca = compare_files(&c, &a);
    assert_eq!(ac, ca);
    assert_eq!(ac.identical, 0);
    assert!(!ac.meets_threshold(1));
    // two empty digest sequences count as fully similar
    let empty = Similarity { identical: 0, compared: 0 };
    assert!(empty.meets_threshold(100));
}

#[test]
fn similar_files_listing() {
    let paths = vec!["a".to_string(), "b".to_string(), "c".to_string()];
    let contents = vec![b"same bytes".to_vec(), b"same bytes".to_vec(), b"unrelated".to_vec()];
    let listing = find_similar_files(&paths, &contents, 90);
    assert_eq!(listing.len(), 3);
    assert_eq!(listing[0].0, "a");
    assert_eq!(listing[0].1.len(), 1);
    assert_eq!(listing[0].1[0].0, "b");
    assert_eq!(listing[2].1.len(), 0);
}

#[test]
fn plugin_manager_runs_registered_plugins() {
    let mut manager = PluginManager::new();
    manager.register_plugin(DedupPlugin::FullHash(FullHashPlugin));
    manager.register_plugin(DedupPlugin::PieceWise(
        file_deduplicator::piecewise::PieceWisePlugin::new(4),
    ));
    let names = manager.list_plugins();
    assert_eq!(names, vec!["full_hash".to_string(), "piece_wise".to_string()]);
    let files = vec![
        file_deduplicator::benchmark::FileInfo {
            path: "a".to_string(),
            size: 3,
            hash: None,
        },
        file_deduplicator::benchmark::FileInfo {
            path: "b".to_string(),
            size: 3,
            hash: None,
        },
    ];
    let contents = vec![b"dup".to_vec(), b"dup".to_vec()];
    let results = manager.execute_all(&files, &contents, 95);
    assert_eq!(results.len(), 2);
    for r in results {
        let pr = r.unwrap();
        assert_eq!(pr.duplicate_files.len(), 1);
        assert_eq!(pr.duplicate_files[0].len(), 2);
        assert_eq!(pr.unique_files.len(), 0);
    }
}

#[test]
fn scan_stats_and_config() {
    let stats = ScanStats::new();
    assert_eq!(stats.files_scanned, 0);
    assert_eq!(stats.total_size, 0);
    let _elapsed = stats.elapsed();

    let config = Config {
        root_paths: vec!["/data".to_string()],
        min_file_size: Some(10),
        max_file_size: Some(100),
        follow_symlinks: false,
        exclude_patterns: Vec::new(),
        max_depth: None,
        skip_hidden: true,
    };
    assert!(config.size_within_bounds(10));
    assert!(config.size_within_bounds(100));
    assert!(!config.size_within_bounds(9));
    assert!(!config.size_within_bounds(101));

    let dc = DuplicateConfig::default();
    assert_eq!(dc.enabled_plugins, vec!["uppercase".to_string(), "reverse".to_string()]);
    assert!(dc.case_sensitive);
    assert_eq!(dc.min_length, 1);
}

#[test]
fn plugin_manager_removes_by_name() {
    let mut manager = PluginManager::new();
    manager.register_plugin(DedupPlugin::FullHash(FullHashPlugin));
    manager.register_plugin(DedupPlugin::PieceWise(
        file_deduplicator::piecewise::PieceWisePlugin::new(4),
    ));
    manager.register_plugin(DedupPlugin::FullHash(FullHashPlugin));
    manager.remove_plugin(&"full_hash".to_string());
    assert_eq!(manager.list_plugins(), vec!["piece_wise".to_string()]);
    manager.remove_plugin(&"nonexistent".to_string());
    assert_eq!(manager.list_plugins(), vec!["piece_wise".to_string()]);
}
