use hokori::paths::path_has_prefix;
use hokori::scan::aggregator::{DirStats, RootResult, ScanResult, StreamingAggregator};
use hokori::scan::config::{ScanConfig, SizeMode};
use hokori::scan::dedup::InodeDedup;
use hokori::scan::names::NameTable;
use hokori::scan::progress::ProgressTracker;
use hokori::scan::scanner::{outcome, ScanState, Scanner};
use hokori::scan::tree::{TreeBuilder, TreeNode};
use hokori::sys::FileType;
use hokori::walk::entry::DirEntry;
use hokori::walk::error::{WalkError, WalkErrorKind};
use std::time::Instant;

const MILLI: u64 = 1_000_000;

fn entry(path: &[u8], file_type: FileType, id: (u64, u64), size: Option<u64>) -> DirEntry {
    let depth = path.iter().filter(|b| **b == b'/').count() as u16;
    DirEntry::from_parts(
        path.to_vec(),
        depth,
        file_type,
        id.1,
        size,
        size.map(|s| 2 * s),
        id.0,
        None,
    )
}

fn file(path: &[u8], ino: u64, size: u64) -> Result<DirEntry, WalkError> {
    Ok(entry(path, FileType::File, (1, ino), Some(size)))
}

fn dir(path: &[u8], ino: u64) -> Result<DirEntry, WalkError> {
    Ok(entry(path, FileType::Directory, (1, ino), None))
}

fn failure() -> Result<DirEntry, WalkError> {
    Err(WalkError { path: None, depth: 0, kind: WalkErrorKind::PermissionDenied })
}

fn config(roots: &[&[u8]]) -> ScanConfig {
    ScanConfig::new(roots.iter().map(|r| r.to_vec()).collect())
}

fn child<'a>(node: &'a TreeNode, name: &[u8]) -> &'a TreeNode {
    node.children.iter().find(|c| c.name == name).unwrap()
}

#[test]
fn test_dedup_sharded() {
    let mut dedup = InodeDedup::new();
    assert!(dedup.check_and_insert(1, 100));
    assert!(!dedup.check_and_insert(1, 100));
    assert!(dedup.check_and_insert(1, 200));
    assert!(dedup.check_and_insert(2, 100));
}

#[test]
fn dedup_can_be_asked() {
    let mut dedup = InodeDedup::new();
    assert!(!dedup.contains(1, 100));
    assert!(dedup.check_and_insert(1, 100));
    assert!(dedup.contains(1, 100));
    assert!(!dedup.contains(100, 1));
}

#[test]
fn test_progress_throttle() {
    let (tx, rx) = crossbeam_channel::bounded(100);
    let clock = Instant::now();
    let mut tracker = ProgressTracker::new(0);
    for _ in 0..10000 {
        let now = clock.elapsed().as_nanos() as u64;
        if let Some(update) = tracker.record_file(100, now) {
            let _ = tx.try_send(update);
        }
    }
    let _ = tx.try_send(tracker.finish(clock.elapsed().as_nanos() as u64));
    let count = rx.try_iter().count();
    assert!(count < 200, "Progress should be throttled, got {count}");
    assert!(count > 0, "Should have at least one progress update");
}

#[test]
fn dedup_counts_its_files() {
    let mut dedup = InodeDedup::default();
    assert!(dedup.is_empty());
    assert_eq!(dedup.len(), 0);
    for ino in 0..1000 {
        assert!(dedup.check_and_insert(3, ino));
    }
    assert!(!dedup.check_and_insert(3, 999));
    assert!(!dedup.is_empty());
    assert_eq!(dedup.len(), 1000);
}

#[test]
fn progress_reports_once_per_interval() {
    let mut tracker = ProgressTracker::new(5 * MILLI);
    assert!(!tracker.should_update(104 * MILLI));
    assert!(tracker.should_update(105 * MILLI));
    assert!(tracker.record_file(10, 104 * MILLI + 999_999).is_none());
    tracker.set_current_path("here".to_string());
    let report = tracker.record_dir(105 * MILLI).unwrap();
    assert_eq!((report.files_scanned, report.dirs_scanned, report.errors), (1, 1, 0));
    assert_eq!(report.bytes_scanned, 10);
    assert_eq!(report.current_path, Some("here".to_string()));
    assert_eq!(report.elapsed_nanos, 100 * MILLI);
    assert!(tracker.record_error(204 * MILLI).is_none());
    let report = tracker.record_error(205 * MILLI).unwrap();
    assert_eq!(report.errors, 2);
    assert_eq!(report.current_path, None);
    tracker.set_current_path("there".to_string());
    let last = tracker.finish(206 * MILLI);
    assert_eq!(last.current_path, None);
    assert_eq!(last.elapsed_nanos, 201 * MILLI);
    assert!(!tracker.should_update(0));
}

#[test]
fn aggregator_adds_up() {
    let mut aggregator = StreamingAggregator::default();
    aggregator.add_entry(10, false);
    aggregator.add_entry(5, true);
    aggregator.add_deduped();
    aggregator.add_error();
    aggregator.add_error();
    aggregator.add_skipped();
    let root = RootResult { path: b"/".to_vec(), total_size: 1, file_count: 2, dir_count: 3 };
    aggregator.add_root_result(root);
    aggregator.set_tree(Some(Vec::new()));
    let result = aggregator.finish();
    assert_eq!(result.total_size, 15);
    assert_eq!((result.file_count, result.dir_count), (1, 1));
    assert_eq!((result.deduped_count, result.error_count, result.skipped_count), (1, 2, 1));
    assert_eq!(result.roots.len(), 1);
    assert_eq!(result.roots[0].path, b"/".to_vec());
    assert!(result.tree.is_some());
    let blank = ScanResult::default();
    assert_eq!((blank.total_size, blank.file_count, blank.roots.len()), (0, 0, 0));
    assert!(blank.tree.is_none());
    let stats = DirStats::default();
    assert_eq!((stats.direct_size, stats.total_size), (0, 0));
    assert_eq!((stats.direct_count, stats.total_count), (0, 0));
}

#[test]
fn scan_configuration() {
    let config = config(&[b"/a"]);
    assert_eq!(config.size_mode, SizeMode::DiskUsage);
    assert!(config.dedup_hardlinks);
    assert!(config.same_filesystem);
    assert!(!config.follow_symlinks);
    assert!(!config.build_tree);
    let walk = ScanConfig { threads: 3, max_depth: 4, follow_symlinks: true, ..config }
        .walk_config();
    assert_eq!(walk.roots, vec![b"/a".to_vec()]);
    assert_eq!((walk.threads, walk.max_depth, walk.channel_capacity), (3, 4, 4096));
    assert!(walk.follow_symlinks);
    assert!(walk.same_filesystem);
    assert!(ScanConfig::default().roots.is_empty());
}

#[test]
fn scan_of_a_small_tree() {
    let scanner = Scanner::new(config(&[b"/t"]));
    let (result, errors) = scanner.scan_blocking(vec![
        file(b"/t/a.txt", 10, 5),
        file(b"/t/b.txt", 11, 6),
        dir(b"/t/sub", 12),
        file(b"/t/sub/c.txt", 13, 4),
    ]);
    assert_eq!(result.file_count, 3);
    assert_eq!(result.dir_count, 1);
    assert_eq!(result.total_size, 30);
    assert!(errors.is_empty());
    assert_eq!(result.roots.len(), 1);
    assert_eq!(result.roots[0].path, b"/t".to_vec());
    assert_eq!((result.roots[0].total_size, result.roots[0].file_count), (30, 3));
    assert_eq!(result.roots[0].dir_count, 1);
    assert!(result.tree.is_none());
}

#[test]
fn every_result_is_counted_once() {
    let scanner = Scanner::new(config(&[b"/t"]));
    let results = vec![
        file(b"/t/a", 1, 100),
        file(b"/t/b", 1, 100),
        dir(b"/t/d", 2),
        Ok(entry(b"/t/l", FileType::Symlink, (1, 3), Some(1))),
        Ok(entry(b"/t/u", FileType::Unknown, (1, 4), None)),
        Ok(entry(b"/t/o", FileType::Other, (1, 5), None)),
        failure(),
    ];
    let count = results.len() as u64;
    let (result, errors) = scanner.scan_blocking(results);
    assert_eq!((result.file_count, result.deduped_count), (1, 1));
    assert_eq!((result.dir_count, result.skipped_count, result.error_count), (1, 3, 1));
    assert_eq!(errors.len(), 1);
    assert!(matches!(errors[0].kind, WalkErrorKind::PermissionDenied));
    let counted = result.file_count
        + result.deduped_count
        + result.dir_count
        + result.skipped_count
        + result.error_count;
    assert_eq!(counted, count);
    assert_eq!(result.total_size, 200);
}

#[test]
fn links_are_counted_each_on_request() {
    let links = || vec![file(b"/t/a", 1, 100), file(b"/t/b", 1, 100)];
    let scanner = Scanner::new(ScanConfig { dedup_hardlinks: false, ..config(&[b"/t"]) });
    let (result, _) = scanner.scan_blocking(links());
    assert_eq!((result.file_count, result.deduped_count, result.total_size), (2, 0, 400));
    let (result, _) = Scanner::new(config(&[b"/t"])).scan_blocking(links());
    assert_eq!((result.file_count, result.deduped_count, result.total_size), (1, 1, 200));
}

fn file_with_links(path: &[u8], ino: u64, size: u64, links: Option<u32>) -> Result<DirEntry, WalkError> {
    let mut entry = entry(path, FileType::File, (1, ino), Some(size));
    entry.nlink = links;
    Ok(entry)
}

#[test]
fn files_with_a_single_link_are_not_looked_up() {
    let scanner = Scanner::new(config(&[b"/t"]));
    let (result, _) = scanner.scan_blocking(vec![
        file_with_links(b"/t/a", 1, 5, Some(1)),
        file_with_links(b"/t/b", 1, 5, Some(1)),
    ]);
    assert_eq!((result.file_count, result.deduped_count, result.total_size), (2, 0, 20));
    let (result, _) = scanner.scan_blocking(vec![
        file_with_links(b"/t/a", 1, 5, Some(2)),
        file_with_links(b"/t/b", 1, 5, Some(2)),
        file_with_links(b"/t/c", 2, 5, Some(1)),
        file_with_links(b"/t/d", 2, 5, None),
        file_with_links(b"/t/e", 2, 5, None),
        file_with_links(b"/t/f", 3, 5, Some(0)),
        file_with_links(b"/t/g", 3, 5, Some(0)),
    ]);
    assert_eq!((result.file_count, result.deduped_count, result.total_size), (5, 2, 50));
}

#[test]
fn dedup_only_leaves_out_files() {
    let results = || {
        vec![
            file(b"/t/a", 1, 7),
            file(b"/t/b", 1, 9),
            file_with_links(b"/t/c", 2, 4, Some(1)),
            dir(b"/t/d", 3),
            Ok(entry(b"/t/l", FileType::Symlink, (1, 4), None)),
            failure(),
        ]
    };
    let (on, _) = Scanner::new(config(&[b"/t"])).scan_blocking(results());
    let off_config = ScanConfig { dedup_hardlinks: false, ..config(&[b"/t"]) };
    let (off, _) = Scanner::new(off_config).scan_blocking(results());
    assert!(on.total_size <= off.total_size);
    assert_eq!((on.total_size, off.total_size), (22, 40));
    assert_eq!(off.deduped_count, 0);
    assert_eq!(off.file_count, on.file_count + on.deduped_count);
    assert_eq!(on.file_count, 2);
    assert_eq!((on.dir_count, on.skipped_count), (off.dir_count, off.skipped_count));
    assert_eq!(on.error_count, off.error_count);
}

#[test]
fn order_of_results_does_not_matter() {
    let forward = vec![file(b"/t/a", 1, 7), dir(b"/t/d", 2), file(b"/t/b", 1, 7), failure()];
    let backward = vec![failure(), file(b"/t/b", 1, 7), dir(b"/t/d", 2), file(b"/t/a", 1, 7)];
    let scanner = Scanner::new(config(&[b"/t"]));
    let (x, _) = scanner.scan_blocking(forward);
    let (y, _) = scanner.scan_blocking(backward);
    assert_eq!((x.file_count, x.deduped_count), (y.file_count, y.deduped_count));
    assert_eq!((x.dir_count, x.error_count), (y.dir_count, y.error_count));
    assert_eq!(x.total_size, y.total_size);
}

#[test]
fn sizes_fall_back_on_each_other() {
    let only_apparent =
        || vec![Ok(DirEntry::from_parts(b"/t/a".to_vec(), 1, FileType::File, 1, Some(5), None, 1, None))];
    let only_disk =
        || vec![Ok(DirEntry::from_parts(b"/t/a".to_vec(), 1, FileType::File, 1, None, Some(8), 1, None))];
    let both =
        || vec![Ok(DirEntry::from_parts(b"/t/a".to_vec(), 1, FileType::File, 1, Some(5), Some(8), 1, None))];
    let none =
        || vec![Ok(DirEntry::from_parts(b"/t/a".to_vec(), 1, FileType::File, 1, None, None, 1, None))];
    let disk = Scanner::new(config(&[b"/t"]));
    assert_eq!(disk.scan_blocking(only_apparent()).0.total_size, 5);
    assert_eq!(disk.scan_blocking(only_disk()).0.total_size, 8);
    assert_eq!(disk.scan_blocking(both()).0.total_size, 8);
    assert_eq!(disk.scan_blocking(none()).0.total_size, 0);
    let apparent =
        Scanner::new(ScanConfig { size_mode: SizeMode::ApparentSize, ..config(&[b"/t"]) });
    assert_eq!(apparent.scan_blocking(only_apparent()).0.total_size, 5);
    assert_eq!(apparent.scan_blocking(only_disk()).0.total_size, 8);
    assert_eq!(apparent.scan_blocking(both()).0.total_size, 5);
}

#[test]
fn roots_share_what_is_found() {
    let scanner = Scanner::new(config(&[b"/t/sub", b"/t"]));
    let (result, _) = scanner.scan_blocking(vec![
        file(b"/t/a", 1, 10),
        dir(b"/t/sub", 2),
        file(b"/t/sub/b", 3, 1),
        file(b"/t/subway", 4, 100),
    ]);
    let (inner, outer) = (&result.roots[0], &result.roots[1]);
    assert_eq!((inner.total_size, inner.file_count, inner.dir_count), (2, 1, 1));
    assert_eq!((outer.total_size, outer.file_count, outer.dir_count), (220, 2, 0));
    assert_eq!(inner.total_size + outer.total_size, result.total_size);
    assert_eq!(inner.file_count + outer.file_count, result.file_count);
    assert_eq!(inner.dir_count + outer.dir_count, result.dir_count);
}

#[test]
fn trees_match_their_roots() {
    let scanner = Scanner::new(ScanConfig { build_tree: true, ..config(&[b"/t", b"/v"]) });
    let (result, _) = scanner.scan_blocking(vec![
        dir(b"/t/d", 1),
        file(b"/t/d/x", 2, 3),
        file(b"/t/y", 3, 4),
        file(b"/v/z", 4, 5),
    ]);
    let trees = result.tree.unwrap();
    assert_eq!(trees.len(), 2);
    for (tree, root) in trees.iter().zip(result.roots.iter()) {
        assert_eq!(tree.name, root.path);
        assert_eq!((tree.file_count, tree.dir_count), (root.file_count, root.dir_count));
    }
    assert_eq!((trees[0].apparent_size, trees[0].disk_usage), (7, 14));
    assert_eq!((trees[1].apparent_size, trees[1].disk_usage), (5, 10));
}

#[test]
fn tree_of_nested_directories() {
    let mut builder = TreeBuilder::new();
    builder.insert(b"/t/d", 1, 2, true, 1);
    builder.insert(b"/t/d/e/x", 10, 20, false, 3);
    builder.insert(b"/t/d/y", 100, 200, false, 2);
    builder.insert(b"/other", 5, 5, false, 1);
    let trees = builder.build(&vec![b"/t".to_vec()]);
    assert_eq!(trees.len(), 1);
    let root = &trees[0];
    assert_eq!(root.name, b"/t".to_vec());
    assert!(root.is_dir);
    assert_eq!((root.apparent_size, root.disk_usage), (111, 222));
    assert_eq!((root.file_count, root.dir_count), (2, 1));
    let d = child(root, b"d");
    assert!(d.is_dir);
    assert_eq!((d.apparent_size, d.depth, d.children.len()), (111, 1, 2));
    let e = child(d, b"e");
    assert!(e.is_dir);
    assert_eq!((e.apparent_size, e.file_count, e.dir_count, e.depth), (10, 1, 0, 2));
    let x = child(e, b"x");
    assert!(!x.is_dir);
    assert_eq!((x.apparent_size, x.disk_usage, x.depth), (10, 20, 3));
    let own: u64 = 1;
    let below: u64 = d.children.iter().map(|c| c.apparent_size).sum();
    assert_eq!(d.apparent_size, own + below);
}

#[test]
fn directory_totals_are_those_of_the_path() {
    let entries: Vec<(&[u8], u64)> = vec![
        (b"/t/a/x", 1),
        (b"/t/a/b/y", 10),
        (b"/t/ab/z", 100),
        (b"/t/a/b/c/w", 1000),
        (b"/t/a", 10000),
    ];
    let mut builder = TreeBuilder::new();
    for (path, size) in &entries {
        builder.insert(path, *size, *size, false, 1);
    }
    let trees = builder.build(&vec![b"/t".to_vec()]);
    let a = child(&trees[0], b"a");
    let b = child(a, b"b");
    let below = |dir: &[u8]| -> u64 {
        entries.iter().filter(|(p, _)| path_has_prefix(p, dir)).map(|(_, size)| size).sum()
    };
    assert_eq!(trees[0].disk_usage, below(b"/t"));
    assert_eq!(a.disk_usage, below(b"/t/a"));
    assert_eq!(a.disk_usage, 11011);
    assert_eq!(b.disk_usage, below(b"/t/a/b"));
    assert_eq!(b.disk_usage, 1010);
    assert_eq!(b.file_count, 2);
}

#[test]
fn reports_do_not_outnumber_the_intervals() {
    let mut tracker = ProgressTracker::new(0);
    let mut reports = 0;
    for step in 0..1000u64 {
        if tracker.record_dir(step * 7 * MILLI).is_some() {
            reports += 1;
        }
    }
    assert!(reports * 100 * MILLI <= tracker.last_update);
    assert_eq!(reports, 66);
}

#[test]
fn tree_builder_knows_its_limits() {
    let mut builder = TreeBuilder::default();
    builder.insert(b"/a", u64::MAX - 1, 0, false, 1);
    assert!(builder.fits(1, u64::MAX));
    assert!(!builder.fits(2, 0));
}

#[test]
fn name_tables() {
    let mut table = NameTable::new();
    assert_eq!(table.find(b"a"), None);
    table.add_name(b"a".to_vec());
    table.add_name(b"b".to_vec());
    assert_eq!(table.find(b"a"), Some(0));
    assert_eq!(table.find(b"b"), Some(1));
    assert_eq!(table.find(b""), None);
}

#[test]
fn states_report_progress() {
    let mut state = ScanState::new(config(&[b"/t"]), 0);
    assert!(state.record(file(b"/t/a", 1, 7), MILLI).is_none());
    let update = state.record(file(b"/t/b", 2, 8), 100 * MILLI).unwrap();
    assert_eq!((update.files_scanned, update.bytes_scanned), (2, 30));
    assert_eq!(update.current_path, Some("/t/b".to_string()));
    assert!(state.record(file(b"/t/c", 2, 8), 300 * MILLI).is_none());
    let update = state.record(failure(), 301 * MILLI).unwrap();
    assert_eq!(update.errors, 1);
    assert_eq!(update.current_path, Some("/t/c".to_string()));
    let (last, result, errors) = state.finish(400 * MILLI);
    assert_eq!(last.files_scanned, result.file_count);
    assert_eq!(last.dirs_scanned, result.dir_count);
    assert_eq!(last.bytes_scanned, result.total_size);
    assert_eq!(last.errors, result.error_count);
    assert_eq!(last.elapsed_nanos, 400 * MILLI);
    assert_eq!(errors.len(), 1);
}

#[test]
fn names_in_progress_are_readable() {
    let mut state = ScanState::new(config(&[b"/t"]), 0);
    let update = state.record(file(b"/t/\xff.txt", 1, 7), 100 * MILLI).unwrap();
    assert_eq!(update.current_path, Some("/t/\u{fffd}.txt".to_string()));
}

#[test]
fn states_know_their_limits() {
    let mut state = ScanState::new(config(&[b"/t"]), 0);
    let huge = || {
        Ok(DirEntry::from_parts(
            b"/t/a".to_vec(),
            1,
            FileType::File,
            1,
            None,
            Some(u64::MAX - 1),
            1,
            None,
        ))
    };
    assert!(state.fits(&huge()));
    assert!(state.record(huge(), 0).is_none());
    assert!(!state.fits(&file(b"/t/b", 2, 1)));
    assert!(state.fits(&file(b"/t/c", 1, 1)));
    assert!(state.record(file(b"/t/c", 1, 1), 0).is_none());
    assert!(state.fits(&dir(b"/t/d", 3)));
    assert!(state.fits(&failure()));
}

#[test]
fn scans_that_ended_without_a_result() {
    let (result, errors) = outcome(None);
    assert_eq!(result.error_count, 1);
    assert_eq!((result.total_size, result.file_count, result.roots.len()), (0, 0, 0));
    assert_eq!(errors.len(), 1);
    assert_eq!(
        errors[0].to_text(),
        "<unknown>: Io(Custom { kind: Other, error: \"scan thread terminated unexpectedly\" })"
    );
    let mut received = ScanResult::default();
    received.file_count = 3;
    let (result, errors) = outcome(Some((received, Vec::new())));
    assert_eq!(result.file_count, 3);
    assert!(errors.is_empty());
}
