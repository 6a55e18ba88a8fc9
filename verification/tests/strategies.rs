//! The exact-duplicate strategies and the piecewise plugin over concrete
//! file sets.

use file_deduplicator::benchmark::FileInfo;
use file_deduplicator::methods::DeduplicationMethod;
use file_deduplicator::methods::FullHashMethod;
use file_deduplicator::methods::PartialHashMethod;
use file_deduplicator::methods::SizeOnlyMethod;
use file_deduplicator::methods::TwoPassMethod;
use file_deduplicator::plugins::FullHashPlugin;
use file_deduplicator::plugins::IsUnique;
use file_deduplicator::piecewise::PieceWisePlugin;

fn corpus(entries: &[(&str, &[u8])]) -> (Vec<FileInfo>, Vec<Vec<u8>>) {
    let mut files = Vec::new();
    let mut contents = Vec::new();
    for (path, data) in entries {
        files.push(FileInfo { path: path.to_string(), size: data.len() as u64, hash: None });
        contents.push(data.to_vec());
    }
    (files, contents)
}

#[test]
fn full_hash_finds_identical_content() {
    // three byte-identical files and one different file
    let (files, contents) = corpus(&[
        ("a.txt", b"identical content".as_slice()),
        ("b.txt", b"identical content".as_slice()),
        ("c.txt", b"different content".as_slice()),
        ("sub/d.txt", b"identical content".as_slice()),
    ]);
    let groups = FullHashMethod.find_duplicates(&files, &contents);
    assert_eq!(groups.len(), 1);
    assert_eq!(groups[0].len(), 3);
    assert_eq!(groups[0][0].path, "a.txt");
    assert_eq!(groups[0][1].path, "b.txt");
    assert_eq!(groups[0][2].path, "sub/d.txt");
}

#[test]
fn size_only_false_positive_full_hash_exact() {
    // sizes 10, 10, 20 with all-distinct content
    let (files, contents) = corpus(&[
        ("x1", b"aaaaaaaaaa".as_slice()),
        ("x2", b"bbbbbbbbbb".as_slice()),
        ("x3", b"cccccccccccccccccccc".as_slice()),
    ]);
    let size_groups = SizeOnlyMethod.find_duplicates(&files, &contents);
    assert_eq!(size_groups.len(), 1);
    assert_eq!(size_groups[0].len(), 2);
    let full_groups = FullHashMethod.find_duplicates(&files, &contents);
    assert_eq!(full_groups.len(), 0);
}

#[test]
fn partial_hash_groups_shared_prefix() {
    // identical for the first kibibyte, then diverging
    let mut a = vec![7u8; 1024];
    let mut b = vec![7u8; 1024];
    a.extend_from_slice(b"tail one");
    b.extend_from_slice(b"tail two");
    let files = vec![
        FileInfo { path: "p1".to_string(), size: a.len() as u64, hash: None },
        FileInfo { path: "p2".to_string(), size: b.len() as u64, hash: None },
    ];
    let contents = vec![a, b];
    let partial = PartialHashMethod.find_duplicates(&files, &contents);
    assert_eq!(partial.len(), 1);
    assert_eq!(partial[0].len(), 2);
    let full = FullHashMethod.find_duplicates(&files, &contents);
    assert_eq!(full.len(), 0);
}

#[test]
fn two_pass_refines_size_groups() {
    let (files, contents) = corpus(&[
        ("s1", b"same-size-1".as_slice()),
        ("s2", b"same-size-1".as_slice()),
        ("s3", b"same-size-2".as_slice()),
        ("s4", b"short".as_slice()),
    ]);
    let two = TwoPassMethod.find_duplicates(&files, &contents);
    assert_eq!(two.len(), 1);
    assert_eq!(two[0].len(), 2);
    assert_eq!(two[0][0].path, "s1");
    // every two-pass group lies inside some size-only group
    let size = SizeOnlyMethod.find_duplicates(&files, &contents);
    for g in &two {
        let found = size.iter().any(|sg| {
            g.iter().all(|f| sg.iter().any(|h| h.path == f.path))
        });
        assert!(found);
    }
}

#[test]
fn strategy_names() {
    assert_eq!(SizeOnlyMethod.name(), "size_only");
    assert_eq!(PartialHashMethod.name(), "partial_hash");
    assert_eq!(FullHashMethod.name(), "full_hash");
    assert_eq!(TwoPassMethod.name(), "two_pass");
}

#[test]
fn test_full_hash_plugin_name() {
    let full_hash_plugin = FullHashPlugin;
    let result = full_hash_plugin.name();
    assert!(result.starts_with("full_hash"));
}

#[test]
fn test_full_hash_plugin_exec() {
    // unique - 10, full duplicates - 9 (three groups), partial - 5, all - 24
    let mut entries: Vec<(String, Vec<u8>)> = Vec::new();
    for i in 0..10 {
        entries.push((format!("unique_{}.txt", i), format!("unique payload {}", i).into_bytes()));
    }
    for g in 0..3 {
        for m in 0..3 {
            entries.push((
                format!("dup_{}_{}.txt", g, m),
                format!("duplicate payload {}", g).into_bytes(),
            ));
        }
    }
    let base = "This is a base text that will be partially duplicated. ";
    for i in 0..5 {
        entries.push((format!("partial_{}.txt", i), format!("{}{}", base, i).into_bytes()));
    }
    let files: Vec<FileInfo> = entries
        .iter()
        .map(|(p, c)| FileInfo { path: p.clone(), size: c.len() as u64, hash: None })
        .collect();
    let contents: Vec<Vec<u8>> = entries.iter().map(|(_, c)| c.clone()).collect();
    let full_hash_plugin = FullHashPlugin;
    let result = full_hash_plugin.exec(&files, &contents).unwrap();
    assert_eq!(result.unique_files.len(), 10 + 5);
    assert_eq!(result.duplicate_files.len(), 3);
    assert_eq!(
        result
            .duplicate_files
            .iter()
            .map(|group| group.len())
            .fold(0, |acc, e| acc + e),
        9
    );
}

#[test]
fn full_hash_plugin_partition_and_tags() {
    let (files, contents) = corpus(&[
        ("a.txt", b"identical content".as_slice()),
        ("b.txt", b"identical content".as_slice()),
        ("c.txt", b"different content".as_slice()),
    ]);
    let result = FullHashPlugin.exec(&files, &contents).unwrap();
    // the partition covers every input file exactly once
    let total: usize = result.unique_files.len()
        + result.duplicate_files.iter().map(|g| g.len()).sum::<usize>();
    assert_eq!(total, files.len());
    for u in &result.unique_files {
        assert_eq!(u.is_unique, IsUnique::Unique);
        assert_eq!(u.plugin_type, "full_hash");
    }
    for g in &result.duplicate_files {
        assert!(g.len() >= 2);
        for m in g {
            assert_eq!(m.is_unique, IsUnique::Duplicate);
            assert_eq!(g[0].hash, m.hash);
        }
    }
}

#[test]
fn piecewise_clusters_identical_files() {
    let (files, contents) = corpus(&[
        ("p1", b"chunk payload".as_slice()),
        ("p2", b"chunk payload".as_slice()),
        ("p3", b"chunk payload".as_slice()),
        ("q1", b"something else entirely".as_slice()),
    ]);
    let plugin = PieceWisePlugin::new(8);
    assert_eq!(plugin.name(), "piece_wise");
    assert_eq!(plugin.block_size, 8);
    let result = plugin.exec(&files, &contents, 100).unwrap();
    assert_eq!(result.duplicate_files.len(), 1);
    assert_eq!(result.duplicate_files[0].len(), 3);
    assert_eq!(result.unique_files.len(), 1);
    assert_eq!(result.unique_files[0].path, "q1");
    assert_eq!(result.unique_files[0].name, "q1");
}

#[test]
fn piecewise_zero_threshold_groups_everything() {
    let (files, contents) = corpus(&[
        ("p1", b"alpha".as_slice()),
        ("p2", b"beta-different".as_slice()),
    ]);
    // at threshold zero every pair qualifies, so one cluster holds both
    let result = PieceWisePlugin::new(1).exec(&files, &contents, 0).unwrap();
    assert_eq!(result.duplicate_files.len(), 1);
    assert_eq!(result.duplicate_files[0].len(), 2);
    assert_eq!(result.unique_files.len(), 0);
}
