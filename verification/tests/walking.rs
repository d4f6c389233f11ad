use hokori::paths::path_has_prefix;
use hokori::sys::{EntryMetadata, FileType, IoError, RawDirEntry, SysError};
use hokori::walk::config::WalkConfig;
use hokori::walk::entry::DirEntry;
use hokori::walk::error::{map_sys_error, WalkError, WalkErrorKind};
use hokori::walk::search::{
    first_source, idle_micros, next_step, run_step, Probe, RunAction, RunEvent, SearchStep, Source,
};
use hokori::walk::steps::{
    begin_directory, dir_step, send_step, DirAction, DirEvent, DirState, SendStep,
};
use hokori::walk::walker::Walker;
use hokori::walk::worker::{
    nul_path_error, seed_root, start_directory, AfterEmit, DirStart, DirTask, Look, WalkRules,
    WorkItem,
};

fn meta(dev: u64, file_type: FileType) -> EntryMetadata {
    EntryMetadata { ino: 50, dev, size: 10, blocks: 8, alloc_size: 4096, file_type, nlink: 3 }
}

fn raw(name: &[u8], file_type: FileType, size: Option<u64>) -> RawDirEntry {
    RawDirEntry {
        name: name.to_vec(),
        file_type,
        ino: 7,
        size,
        alloc_size: None,
        dev: None,
        nlink: None,
    }
}

fn io_error(code: i32) -> SysError {
    SysError::Io(IoError { code: Some(code), text: format!("Os {{ code: {} }}", code) })
}

const RULES: WalkRules = WalkRules { follow_symlinks: false, same_filesystem: true, max_depth: 0 };

fn task(depth: u16, rules: WalkRules) -> DirTask {
    let item = WorkItem { path: b"/r".to_vec(), depth, root_dev: 1 };
    match start_directory(item, rules, Ok(meta(1, FileType::Directory))) {
        DirStart::Read(task) => task,
        _ => panic!("expected a task"),
    }
}

#[test]
fn roots_are_seeded() {
    match seed_root(b"/r".to_vec(), Ok(meta(9, FileType::Directory))) {
        Ok(item) => {
            assert_eq!(item.path, b"/r".to_vec());
            assert_eq!((item.depth, item.root_dev), (0, 9));
        },
        Err(_) => panic!("expected work"),
    }
    match seed_root(b"/r".to_vec(), Err(io_error(2))) {
        Err(e) => {
            assert_eq!(e.path, Some(b"/r".to_vec()));
            assert_eq!(e.depth, 0);
            assert!(matches!(e.kind, WalkErrorKind::Io(io) if io.code == Some(2)));
        },
        Ok(_) => panic!("expected an error"),
    }
}

#[test]
fn error_kinds() {
    assert!(matches!(map_sys_error(io_error(13)), WalkErrorKind::PermissionDenied));
    assert!(matches!(map_sys_error(io_error(1)), WalkErrorKind::PermissionDenied));
    assert!(matches!(map_sys_error(io_error(24)), WalkErrorKind::TooManyOpenFiles));
    assert!(matches!(map_sys_error(io_error(23)), WalkErrorKind::TooManyOpenFiles));
    assert!(matches!(map_sys_error(io_error(2)), WalkErrorKind::Io(io) if io.code == Some(2)));
    for error in [SysError::NeedsStat, SysError::BufferTooSmall] {
        match map_sys_error(error) {
            WalkErrorKind::Io(io) => {
                assert_eq!(io.code, None);
                assert_eq!(io.text, "Custom { kind: Other, error: \"syscall failed\" }");
            },
            _ => panic!("expected an I/O error"),
        }
    }
}

#[test]
fn error_texts() {
    let e = WalkError {
        path: Some(b"/tmp/a b".to_vec()),
        depth: 2,
        kind: WalkErrorKind::PermissionDenied,
    };
    assert_eq!(e.to_text(), "/tmp/a b: PermissionDenied");
    let e = WalkError { path: None, depth: 0, kind: WalkErrorKind::SymlinkLoop };
    assert_eq!(e.to_text(), "<unknown>: SymlinkLoop");
    let e = WalkError { path: None, depth: 0, kind: WalkErrorKind::TooManyOpenFiles };
    assert_eq!(e.to_text(), "<unknown>: TooManyOpenFiles");
    let io = IoError { code: Some(2), text: "Os { code: 2 }".to_string() };
    let e = WalkError { path: Some(vec![b'x', 0xff]), depth: 0, kind: WalkErrorKind::Io(io) };
    assert_eq!(e.to_text(), "x\u{fffd}: Io(Os { code: 2 })");
}

#[test]
fn paths_with_nul_bytes() {
    assert!(nul_path_error(b"/ok", 3).is_none());
    let e = nul_path_error(b"/a\0b", 3).unwrap();
    assert_eq!(e.path, Some(b"/a\0b".to_vec()));
    assert_eq!(e.depth, 3);
    match e.kind {
        WalkErrorKind::Io(io) => assert_eq!(
            io.text,
            "Custom { kind: InvalidInput, error: \"path contains NUL byte\" }"
        ),
        _ => panic!("expected an I/O error"),
    }
}

#[test]
fn directories_start() {
    let item = || WorkItem { path: b"/r".to_vec(), depth: 4, root_dev: 1 };
    match start_directory(item(), RULES, Err(io_error(13))) {
        DirStart::Failed(e) => {
            assert_eq!(e.path, Some(b"/r".to_vec()));
            assert_eq!(e.depth, 4);
            assert!(matches!(e.kind, WalkErrorKind::PermissionDenied));
        },
        _ => panic!("expected a failure"),
    }
    assert!(matches!(
        start_directory(item(), RULES, Ok(meta(2, FileType::Directory))),
        DirStart::OtherFilesystem
    ));
    let anywhere = WalkRules { same_filesystem: false, ..RULES };
    match start_directory(item(), anywhere, Ok(meta(2, FileType::Directory))) {
        DirStart::Read(task) => assert_eq!(task.dev, 2),
        _ => panic!("expected a task"),
    }
}

#[test]
fn listed_directories_are_emitted_and_read() {
    let mut task = task(0, RULES);
    match task.look_at(&raw(b"sub", FileType::Directory, None)) {
        Look::Emit(entry, after) => {
            assert_eq!(entry.path, b"/r/sub".to_vec());
            assert_eq!(entry.depth, 1);
            assert!(entry.is_dir());
            assert!(!entry.is_file());
            assert_eq!((entry.ino, entry.dev), (7, 1));
            assert_eq!(after, AfterEmit::Descend);
        },
        _ => panic!("expected an entry"),
    }
    task.enqueue(b"sub");
    let next = task.finish(false);
    assert_eq!(next.len(), 1);
    assert_eq!(next[0].path, b"/r/sub".to_vec());
    assert_eq!((next[0].depth, next[0].root_dev), (1, 1));
}

#[test]
fn cancelled_tasks_lead_nowhere() {
    let mut task = task(0, RULES);
    task.enqueue(b"sub");
    assert!(task.finish(true).is_empty());
}

#[test]
fn files_without_size_are_stated() {
    let task = task(0, RULES);
    let file = raw(b"f", FileType::File, None);
    assert!(matches!(task.look_at(&file), Look::Stat));
    let (entry, after) = task.after_stat(&file, Ok(meta(5, FileType::Other)));
    assert_eq!(entry.file_type, FileType::File);
    assert_eq!((entry.apparent_size, entry.disk_usage), (Some(10), Some(4096)));
    assert_eq!((entry.dev, entry.nlink, entry.ino), (1, Some(3), 7));
    assert_eq!(after, AfterEmit::Nothing);
    let placed = RawDirEntry { dev: Some(4), ..file.clone() };
    let (entry, _) = task.after_stat(&placed, Ok(meta(5, FileType::File)));
    assert_eq!((entry.dev, entry.ino), (4, 7));
    let (entry, _) = task.after_stat(&file, Err(SysError::NeedsStat));
    assert_eq!(entry.file_type, FileType::File);
    assert_eq!((entry.apparent_size, entry.disk_usage, entry.nlink), (None, None, None));
    assert_eq!((entry.ino, entry.dev), (7, 1));
}

#[test]
fn files_with_size_are_emitted() {
    let task = task(0, RULES);
    match task.look_at(&raw(b"f", FileType::File, Some(512))) {
        Look::Emit(entry, after) => {
            assert_eq!((entry.apparent_size, entry.disk_usage), (Some(512), Some(512)));
            assert_eq!(after, AfterEmit::Nothing);
        },
        _ => panic!("expected an entry"),
    }
}

#[test]
fn unknown_entries_take_their_type_from_the_metadata() {
    let task = task(0, RULES);
    let what = raw(b"w", FileType::Unknown, None);
    assert!(matches!(task.look_at(&what), Look::Stat));
    let (entry, after) = task.after_stat(&what, Ok(meta(1, FileType::Directory)));
    assert!(entry.is_dir());
    assert_eq!((entry.ino, entry.dev), (50, 1));
    assert_eq!(after, AfterEmit::Descend);
    let (elsewhere, _) = task.after_stat(&what, Ok(meta(5, FileType::File)));
    assert_eq!((elsewhere.ino, elsewhere.dev), (50, 5));
    let (entry, after) = task.after_stat(&what, Err(SysError::NeedsStat));
    assert_eq!(entry.file_type, FileType::Unknown);
    assert_eq!(after, AfterEmit::Nothing);
    assert!(matches!(task.look_at(&raw(b"a\0", FileType::Unknown, None)), Look::Skip));
}

#[test]
fn links_are_followed_on_request() {
    let plain = task(0, RULES);
    let link = raw(b"l", FileType::Symlink, None);
    assert!(matches!(plain.look_at(&link), Look::Emit(_, AfterEmit::Nothing)));
    let follow = WalkRules { follow_symlinks: true, ..RULES };
    assert!(matches!(task(0, follow).look_at(&link), Look::Emit(_, AfterEmit::CheckTarget)));
    let shallow = WalkRules { follow_symlinks: true, max_depth: 1, ..RULES };
    assert!(matches!(task(0, shallow).look_at(&link), Look::Emit(_, AfterEmit::Nothing)));
}

#[test]
fn targets_decide_on_links_alone() {
    assert!(AfterEmit::Descend.descends(false));
    assert!(!AfterEmit::Nothing.descends(true));
    assert!(AfterEmit::CheckTarget.descends(true));
    assert!(!AfterEmit::CheckTarget.descends(false));
}

/// A made-up tree in which every directory down to a depth has two children
/// and a file.
fn listing(path: &[u8]) -> Vec<RawDirEntry> {
    let depth = path.iter().filter(|b| **b == b'/').count();
    let mut found = vec![raw(b"file", FileType::File, Some(1))];
    if depth < 4 {
        found.push(raw(b"left", FileType::Directory, None));
        found.push(raw(b"right", FileType::Unknown, None));
    }
    found
}

fn walk_made_up(max_depth: usize, newest_first: bool) -> Vec<(Vec<u8>, u16)> {
    let rules = WalkRules { max_depth, ..RULES };
    let mut queue = match seed_root(b"/r".to_vec(), Ok(meta(1, FileType::Directory))) {
        Ok(item) => vec![item],
        Err(_) => panic!("expected work"),
    };
    let mut sent = Vec::new();
    while !queue.is_empty() {
        let item = if newest_first { queue.pop().unwrap() } else { queue.remove(0) };
        let raws = listing(&item.path);
        let mut task = match start_directory(item, rules, Ok(meta(1, FileType::Directory))) {
            DirStart::Read(task) => task,
            _ => panic!("expected a task"),
        };
        for found in &raws {
            let (entry, after) = match task.look_at(found) {
                Look::Emit(entry, after) => (entry, after),
                Look::Stat => task.after_stat(found, Ok(meta(1, FileType::Directory))),
                Look::Skip => panic!("nothing is skipped"),
            };
            sent.push((entry.path.clone(), entry.depth));
            if after.descends(false) {
                task.enqueue(&found.name);
            }
        }
        queue.extend(task.finish(false));
    }
    sent.sort();
    sent
}

#[test]
fn order_of_work_does_not_change_the_entries() {
    assert_eq!(walk_made_up(0, true), walk_made_up(0, false));
    assert_eq!(walk_made_up(2, true), walk_made_up(2, false));
    assert_eq!(walk_made_up(0, true).len(), 29);
}

#[test]
fn limits_keep_what_is_not_deeper() {
    let all = walk_made_up(0, true);
    for limit in 1..6 {
        let kept: Vec<(Vec<u8>, u16)> =
            all.iter().filter(|(_, depth)| *depth as usize <= limit).cloned().collect();
        assert_eq!(walk_made_up(limit, false), kept);
    }
}

#[test]
fn depth_limit_stops_the_descent() {
    let rules = WalkRules { max_depth: 2, ..RULES };
    let mut top = task(0, rules);
    assert!(top.may_descend());
    top.enqueue(b"a");
    let below = top.finish(false);
    assert_eq!(below.len(), 1);
    assert_eq!(below[0].depth, 1);
    let mut second = task(1, rules);
    assert!(!second.may_descend());
    second.enqueue(b"b");
    match second.look_at(&raw(b"b", FileType::Directory, None)) {
        Look::Emit(entry, _) => assert_eq!(entry.depth, 2),
        _ => panic!("expected an entry"),
    }
    assert!(second.finish(false).is_empty());
    let mut deep = task(u16::MAX, RULES);
    deep.enqueue(b"x");
    assert_eq!(deep.finish(false)[0].depth, u16::MAX);
}

#[test]
fn walks_keep_their_bounds() {
    let rules = WalkRules { max_depth: 3, ..RULES };
    let mut item = match seed_root(b"/r".to_vec(), Ok(meta(1, FileType::Directory))) {
        Ok(item) => item,
        Err(_) => panic!("expected work"),
    };
    let mut depths = vec![item.depth];
    loop {
        let mut task = match start_directory(item, rules, Ok(meta(1, FileType::Directory))) {
            DirStart::Read(task) => task,
            _ => panic!("expected a task"),
        };
        task.enqueue(b"d");
        match task.finish(false).pop() {
            Some(next) => item = next,
            None => break,
        }
        assert!(path_has_prefix(&item.path, b"/r"));
        assert_eq!(item.root_dev, 1);
        depths.push(item.depth);
    }
    assert_eq!(depths, vec![0, 1, 2]);
}

/// What is done with `/r`, given what the system answers.
fn deal_with(
    opened: Result<i32, SysError>,
    probed: Result<EntryMetadata, SysError>,
    read: Result<(), SysError>,
) -> Vec<&'static str> {
    let item = WorkItem { path: b"/r".to_vec(), depth: 0, root_dev: 1 };
    let state = dir_step(begin_directory(item), DirEvent::Opened(opened), RULES);
    let state = match state {
        DirState::Probe(item, fd) => {
            assert_eq!(fd, 9);
            dir_step(DirState::Probe(item, fd), DirEvent::Probed(probed), RULES)
        },
        other => other,
    };
    let state = match state {
        DirState::Read(mut task, fd) => {
            task.enqueue(b"sub");
            dir_step(DirState::Read(task, fd), DirEvent::ReadEnded(read), RULES)
        },
        other => other,
    };
    match state {
        DirState::Finish(actions) => actions
            .into_iter()
            .map(|action| match action {
                DirAction::Report(e) => {
                    assert_eq!(e.path, Some(b"/r".to_vec()));
                    "report"
                },
                DirAction::Close(fd) => {
                    assert_eq!(fd, 9);
                    "close"
                },
                DirAction::Queue(task) => {
                    assert_eq!(task.finish(false).len(), 1);
                    "queue"
                },
            })
            .collect(),
        _ => panic!("expected to be done"),
    }
}

#[test]
fn opened_directories_are_closed_once() {
    let dir = || Ok(meta(1, FileType::Directory));
    assert_eq!(deal_with(Ok(9), dir(), Ok(())), vec!["close", "queue"]);
    assert_eq!(deal_with(Ok(9), dir(), Err(io_error(5))), vec!["report", "close", "queue"]);
    assert_eq!(deal_with(Ok(9), Err(io_error(13)), Ok(())), vec!["close", "report"]);
    assert_eq!(deal_with(Ok(9), Ok(meta(2, FileType::Directory)), Ok(())), vec!["close"]);
    assert_eq!(deal_with(Err(io_error(2)), dir(), Ok(())), vec!["report"]);
    let nul = WorkItem { path: b"/a\0".to_vec(), depth: 0, root_dev: 1 };
    match begin_directory(nul) {
        DirState::Finish(actions) => {
            assert_eq!(actions.len(), 1);
            assert!(matches!(actions[0], DirAction::Report(_)));
        },
        _ => panic!("expected to be done"),
    }
}

#[test]
fn failed_directories_do_not_stop_a_walk() {
    let mut errors = Vec::new();
    let mut entries = Vec::new();
    let mut queue: Vec<WorkItem> = [b"/good", b"/shut", b"/also"]
        .iter()
        .map(|p| WorkItem { path: p.to_vec(), depth: 0, root_dev: 1 })
        .collect();
    while let Some(item) = queue.pop() {
        let probe = if item.path == b"/shut" {
            Err(io_error(13))
        } else {
            Ok(meta(1, FileType::Directory))
        };
        match start_directory(item, RULES, probe) {
            DirStart::Failed(e) => errors.push(e),
            DirStart::Read(task) => match task.look_at(&raw(b"f", FileType::File, Some(1))) {
                Look::Emit(entry, _) => entries.push(entry.path),
                _ => panic!("expected an entry"),
            },
            DirStart::OtherFilesystem => panic!("all lie on one device"),
        }
    }
    assert_eq!(entries, vec![b"/also/f".to_vec(), b"/good/f".to_vec()]);
    assert_eq!(errors.len(), 1);
    assert_eq!(errors[0].to_text(), "/shut: PermissionDenied");
}

#[test]
fn failed_sends_cancel() {
    assert_eq!(send_step(false, AfterEmit::Descend), SendStep::Cancel);
    assert_eq!(
        send_step(true, AfterEmit::CheckTarget),
        SendStep::Follow(AfterEmit::CheckTarget)
    );
}

#[test]
fn read_errors_name_the_directory() {
    let task = task(3, RULES);
    let e = task.read_error(SysError::BufferTooSmall);
    assert_eq!(e.path, Some(b"/r".to_vec()));
    assert_eq!(e.depth, 3);
    assert!(matches!(e.kind, WalkErrorKind::Io(_)));
}

#[test]
fn search_asks_every_source_once() {
    let mut asked = vec![first_source()];
    loop {
        match next_step(asked[asked.len() - 1], Probe::Empty, 1, 4) {
            SearchStep::Ask(source) => asked.push(source),
            SearchStep::GiveUp => break,
            SearchStep::Take => panic!("nothing was found"),
        }
    }
    assert_eq!(
        asked,
        vec![
            Source::Local,
            Source::Injector,
            Source::Peer(0),
            Source::Peer(2),
            Source::Peer(3)
        ]
    );
    assert_eq!(next_step(Source::Peer(2), Probe::Found, 1, 4), SearchStep::Take);
    assert_eq!(
        next_step(Source::Injector, Probe::Retry, 1, 4),
        SearchStep::Ask(Source::Injector)
    );
    assert_eq!(next_step(Source::Injector, Probe::Empty, 0, 1), SearchStep::GiveUp);
}

#[test]
fn workers_stop_when_nothing_is_pending() {
    assert_eq!(run_step(RunEvent::Cancelled(true)), RunAction::Stop);
    assert_eq!(run_step(RunEvent::Cancelled(false)), RunAction::Search);
    assert_eq!(run_step(RunEvent::Searched(true)), RunAction::Process);
    assert_eq!(run_step(RunEvent::Searched(false)), RunAction::CountPending);
    assert_eq!(run_step(RunEvent::Pending(0)), RunAction::Stop);
    assert_eq!(run_step(RunEvent::Pending(2)), RunAction::Wait);
}

#[test]
fn idle_workers_wait_longer_each_time() {
    let waits: Vec<u64> = (0..4).map(idle_micros).collect();
    assert_eq!(waits, vec![50, 100, 200, 400]);
    assert_eq!(idle_micros(7), 6400);
    assert_eq!(idle_micros(u32::MAX), 6400);
}

#[test]
fn walk_configuration() {
    let config = WalkConfig::new(vec![b"/".to_vec()]);
    assert_eq!(config.roots, vec![b"/".to_vec()]);
    assert_eq!((config.threads, config.max_depth, config.channel_capacity), (0, 0, 4096));
    assert!(config.same_filesystem);
    assert!(!config.follow_symlinks);
    assert_eq!(config.resolved_threads(Some(8)), 8);
    assert_eq!(config.resolved_threads(Some(64)), 32);
    assert_eq!(config.resolved_threads(None), 4);
    assert_eq!(config.worker_count(Some(0)), 1);
    assert_eq!(config.queue_length(), 4096);
    let fixed = WalkConfig { threads: 100, channel_capacity: 0, ..config };
    assert_eq!(fixed.resolved_threads(Some(8)), 100);
    assert_eq!(fixed.worker_count(None), 100);
    assert_eq!(fixed.queue_length(), 1);
}

#[test]
fn results_are_sorted_into_entries_and_errors() {
    let entry = |name: &[u8]| {
        DirEntry::from_parts(name.to_vec(), 1, FileType::File, 1, Some(1), None, 1, None)
    };
    let error = || WalkError { path: None, depth: 0, kind: WalkErrorKind::SymlinkLoop };
    let walker = Walker::new(WalkConfig::default());
    let results = vec![Ok(entry(b"a")), Err(error()), Ok(entry(b"b")), Err(error())];
    let (entries, errors) = walker.walk_collect(results);
    assert_eq!(entries.len() + errors.len(), 4);
    assert_eq!(entries[0].path_bytes(), b"a");
    assert_eq!(entries[1].path_bytes(), b"b");
    assert!(matches!(errors[0].kind, WalkErrorKind::SymlinkLoop));
}
