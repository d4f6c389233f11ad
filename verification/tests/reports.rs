use hokori::report::human::{
    collect_dirs, list_dirs, render as render_human, rule_line, write_top_line,
};
use hokori::report::json::{render as render_json, tree_to_json_nodes};
use hokori::report::ncdu::{missing_tree_note, render as render_ncdu};
use hokori::report::numbers::{format_count, format_number};
use hokori::report::options::{exit_code, Options, OutputFormat};
use hokori::report::ranking::{rank, top_dirs};
use hokori::scan::aggregator::{RootResult, ScanResult};
use hokori::scan::config::SizeMode;
use hokori::scan::tree::TreeNode;
use hokori::walk::error::{WalkError, WalkErrorKind};

fn node(name: &[u8], size: u64, is_dir: bool, children: Vec<TreeNode>) -> TreeNode {
    TreeNode {
        name: name.to_vec(),
        apparent_size: size,
        disk_usage: 10 * size,
        file_count: 1,
        dir_count: 2,
        children,
        is_dir,
        depth: 3,
    }
}

fn sample() -> TreeNode {
    node(
        b"/r",
        9,
        true,
        vec![
            node(b"b", 2, true, vec![node(b"deep", 2, true, vec![])]),
            node(b"f", 5, false, vec![]),
            node(b"a", 2, true, vec![]),
        ],
    )
}

fn root(path: &[u8], size: u64) -> RootResult {
    RootResult { path: path.to_vec(), total_size: size, file_count: 1, dir_count: 0 }
}

fn result(tree: Option<Vec<TreeNode>>) -> ScanResult {
    let mut result = ScanResult::default();
    result.total_size = 1234;
    result.file_count = 1234567;
    result.dir_count = 12;
    result.error_count = 1;
    result.deduped_count = 2;
    result.roots = vec![root(b"/r", 1234)];
    result.tree = tree;
    result
}

fn errors(n: usize) -> Vec<WalkError> {
    (0..n)
        .map(|i| WalkError {
            path: Some(format!("/e{}", i).into_bytes()),
            depth: 0,
            kind: WalkErrorKind::PermissionDenied,
        })
        .collect()
}

#[test]
fn counts_have_commas() {
    assert_eq!(format_count(0), "0");
    assert_eq!(format_count(7), "7");
    assert_eq!(format_count(42), "42");
    assert_eq!(format_count(999), "999");
    assert_eq!(format_count(1000), "1,000");
    assert_eq!(format_count(10_203), "10,203");
    assert_eq!(format_count(1_234_567), "1,234,567");
    assert_eq!(format_count(u64::MAX), "18,446,744,073,709,551,615");
    let text = format_count(98_765_432_100);
    let digits: String = text.chars().filter(|c| *c != ',').collect();
    assert_eq!(digits, 98_765_432_100u64.to_string());
}

#[test]
fn directories_below_a_root() {
    let tree = sample();
    let mut out = Vec::new();
    collect_dirs(&tree, &"/r".to_string(), false, true, &mut out);
    let found: Vec<(u64, &str)> = out.iter().map(|l| (l.size, l.path.as_str())).collect();
    assert_eq!(found, vec![(90, "/r"), (20, "/r/b"), (20, "/r/b/deep"), (20, "/r/a")]);
    let mut below = Vec::new();
    collect_dirs(&tree, &"/".to_string(), true, false, &mut below);
    let found: Vec<(u64, &str)> = below.iter().map(|l| (l.size, l.path.as_str())).collect();
    assert_eq!(found, vec![(2, "/b"), (2, "/b/deep"), (2, "/a")]);
}

#[test]
fn roots_without_a_name_are_the_root() {
    let lines = list_dirs(&vec![node(b"", 1, true, vec![node(b"x", 1, true, vec![])])], true);
    assert_eq!(lines.len(), 1);
    assert_eq!(lines[0].path, "/x");
    let lines = list_dirs(&vec![node(b"\xff", 1, true, vec![node(b"x", 1, true, vec![])])], true);
    assert_eq!(lines[0].path, "\u{fffd}/x");
}

#[test]
fn largest_directories_come_first() {
    let tree = node(
        b"/r",
        9,
        true,
        vec![
            node(b"small", 1, true, vec![]),
            node(b"z", 7, true, vec![]),
            node(b"y", 7, true, vec![]),
            node(b"yy", 7, true, vec![]),
            node(b"large", 8, true, vec![]),
        ],
    );
    let lines = list_dirs(&vec![tree], true);
    let order = rank(&lines);
    assert_eq!(order, vec![4, 2, 3, 1, 0]);
    let top = top_dirs(&lines, 3);
    let listed: Vec<(u64, &str)> = top.iter().map(|l| (l.size, l.path.as_str())).collect();
    assert_eq!(listed, vec![(8, "/r/large"), (7, "/r/y"), (7, "/r/yy")]);
    assert_eq!(top_dirs(&lines, 100).len(), 5);
    assert!(top_dirs(&lines, 0).is_empty());
    assert!(top.iter().all(|l| l.size >= 7));
}

#[test]
fn human_report() {
    let report = render_human(&result(Some(vec![sample()])), &errors(12), Some(2), false);
    assert!(report.roots.is_empty());
    assert_eq!(report.total_size, 1234);
    assert_eq!(report.files, "1,234,567");
    assert_eq!(report.dirs, "12");
    let top = report.top.as_ref().unwrap();
    let listed: Vec<(u64, &str)> = top.iter().map(|l| (l.size, l.path.as_str())).collect();
    assert_eq!(listed, vec![(20, "/r/a"), (20, "/r/b")]);
    assert_eq!(report.errors.len(), 10);
    assert_eq!(report.errors[0], "/e0: PermissionDenied");
    assert_eq!(report.errors[9], "/e9: PermissionDenied");
    assert_eq!(report.more_errors, 2);
    assert_eq!(report.write_total_line(), "total (1,234,567 files, 12 dirs)");
    let lines = report.write_error_lines();
    assert_eq!(lines.len(), 11);
    assert_eq!(lines[0], "error: /e0: PermissionDenied");
    assert_eq!(lines[10], "... and 2 more errors");
}

#[test]
fn fixed_lines() {
    assert_eq!(rule_line(), "─".repeat(40));
    assert_eq!(write_top_line(25), "Top 25 directories:");
    assert_eq!(format_number(0), "0");
    assert_eq!(format_number(1_002_003), "1002003");
    assert_eq!(format_number(u64::MAX), u64::MAX.to_string());
}

#[test]
fn human_report_without_extras() {
    let mut two = result(None);
    two.roots.push(root(b"/s\xff", 5));
    let report = render_human(&two, &errors(0), Some(2), false);
    let roots: Vec<(u64, &str)> = report.roots.iter().map(|l| (l.size, l.path.as_str())).collect();
    assert_eq!(roots, vec![(1234, "/r"), (5, "/s\u{fffd}")]);
    assert!(report.top.is_none());
    assert!(report.errors.is_empty());
    assert!(report.write_error_lines().is_empty());
    assert_eq!(report.more_errors, 0);
    let tree = || Some(vec![sample()]);
    assert!(render_human(&result(tree()), &errors(0), None, false).top.is_none());
    assert!(render_human(&result(tree()), &errors(0), Some(0), false).top.is_none());
    assert_eq!(render_human(&result(None), &errors(10), None, false).errors.len(), 10);
    assert_eq!(render_human(&result(None), &errors(10), None, false).more_errors, 0);
}

#[test]
fn json_report() {
    let json = render_json(&result(Some(vec![sample()])));
    assert_eq!((json.total_size, json.file_count, json.dir_count), (1234, 1234567, 12));
    assert_eq!((json.error_count, json.deduped_count), (1, 2));
    assert_eq!(json.roots.len(), 1);
    assert_eq!(json.roots[0].path, "/r");
    assert_eq!((json.roots[0].total_size, json.roots[0].file_count), (1234, 1));
    let tree = json.tree.unwrap();
    assert_eq!(tree.len(), 1);
    assert_eq!(tree[0].name, "/r");
    assert_eq!(tree[0].children.len(), 3);
    assert_eq!(tree[0].children[0].children[0].name, "deep");
    assert!(!tree[0].children[1].is_dir);
    assert!(render_json(&result(None)).tree.is_none());
    let odd = tree_to_json_nodes(&node(b"a\xff", 4, false, vec![]));
    assert_eq!(odd.name, "a\u{fffd}");
    assert_eq!((odd.apparent_size, odd.disk_usage), (4, 40));
    assert_eq!((odd.file_count, odd.dir_count, odd.depth), (1, 2, 3));
}

#[test]
fn ncdu_export_of_a_tree() {
    let tree = node(b"/r", 3, true, vec![node(b"f", 1, false, vec![]), node(b"d", 2, true, vec![])]);
    let line = render_ncdu(
        &result(Some(vec![tree])),
        &vec![b"/r".to_vec()],
        "1.2.3".to_string(),
        99,
    );
    assert_eq!(
        line,
        "[1,2,{\"progname\":\"hokori\",\"progver\":\"1.2.3\",\"timestamp\":99},\
         [{\"asize\":3,\"dsize\":30,\"name\":\"/r\"},\
         {\"asize\":1,\"dsize\":10,\"name\":\"f\"},\
         [{\"asize\":2,\"dsize\":20,\"name\":\"d\"}]]]"
    );
}

#[test]
fn ncdu_export_without_a_tree() {
    let line = render_ncdu(
        &result(None),
        &vec![b"/a".to_vec(), b"q\"uote".to_vec()],
        "0".to_string(),
        1,
    );
    assert_eq!(
        line,
        "[1,2,{\"progname\":\"hokori\",\"progver\":\"0\",\"timestamp\":1},\
         [{\"asize\":1234,\"dsize\":1234,\"name\":\"/a\"}],\
         [{\"asize\":1234,\"dsize\":1234,\"name\":\"q\\\"uote\"}]]"
    );
}

#[test]
fn ncdu_export_without_a_tree_is_noted() {
    let note = missing_tree_note(&result(None));
    assert_eq!(note, Some("note: full ncdu tree export requires --build-tree".to_string()));
    assert_eq!(missing_tree_note(&result(Some(vec![sample()]))), None);
}

#[test]
fn options_become_a_scan() {
    let options = Options {
        paths: vec![b".".to_vec()],
        format: OutputFormat::Human,
        apparent_size: false,
        count_links: false,
        one_file_system: true,
        follow_links: false,
        max_depth: 3,
        threads: 2,
        build_tree: false,
        quiet: false,
    };
    let config = options.scan_config();
    assert_eq!(config.roots, vec![b".".to_vec()]);
    assert_eq!(config.size_mode, SizeMode::DiskUsage);
    assert!(config.dedup_hardlinks);
    assert!(config.same_filesystem);
    assert!(!config.follow_symlinks);
    assert_eq!((config.max_depth, config.threads), (3, 2));
    assert!(!config.build_tree);
    assert!(options.shows_progress(true));
    assert!(!options.shows_progress(false));
    let other = Options {
        format: OutputFormat::Ncdu,
        apparent_size: true,
        count_links: true,
        quiet: true,
        ..options
    };
    let config = other.scan_config();
    assert_eq!(config.size_mode, SizeMode::ApparentSize);
    assert!(!config.dedup_hardlinks);
    assert!(config.build_tree);
    assert!(!other.shows_progress(true));
    let tree = Options { format: OutputFormat::Json, build_tree: true, ..other };
    assert!(tree.scan_config().build_tree);
}

#[test]
fn exit_codes() {
    assert_eq!(exit_code(0), 0);
    assert_eq!(exit_code(1), 1);
    assert_eq!(exit_code(50), 1);
}
