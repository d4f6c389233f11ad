//! How a scan is configured.
use crate::bytes::copy_bytes;
use crate::paths::byte_strings;
use crate::walk::config::WalkConfig;
use crate::walk::entry::Entry;
use vstd::prelude::*;

verus! {

#[derive(Debug, Clone, Copy, PartialEq, Eq, Structural)]
pub enum SizeMode {
    DiskUsage,
    ApparentSize,
}

#[derive(Debug, Clone)]
pub struct ScanConfig {
    pub roots: Vec<Vec<u8>>,
    pub threads: usize,
    pub size_mode: SizeMode,
    pub dedup_hardlinks: bool,
    pub follow_symlinks: bool,
    pub same_filesystem: bool,
    pub max_depth: usize,
    pub build_tree: bool,
}

impl Default for ScanConfig {
    fn default() -> (config: Self)
        ensures
            config == (ScanConfig {
                roots: config.roots,
                threads: 0,
                size_mode: SizeMode::DiskUsage,
                dedup_hardlinks: true,
                follow_symlinks: false,
                same_filesystem: true,
                max_depth: 0,
                build_tree: false,
            }),
            config.roots@.len() == 0,
    {
        ScanConfig {
            roots: Vec::new(),
            threads: 0,
            size_mode: SizeMode::DiskUsage,
            dedup_hardlinks: true,
            follow_symlinks: false,
            same_filesystem: true,
            max_depth: 0,
            build_tree: false,
        }
    }
}

/// A copy of a list of paths.
pub fn copy_paths(paths: &Vec<Vec<u8>>) -> (copies: Vec<Vec<u8>>)
    ensures
        byte_strings(copies@) == byte_strings(paths@),
{
    let mut copies: Vec<Vec<u8>> = Vec::new();
    let ghost all = byte_strings(paths@);
    let mut i: usize = 0;
    while i < paths.len()
        invariant
            i <= paths@.len(),
            all == byte_strings(paths@),
            byte_strings(copies@) == all.take(i as int),
        decreases paths@.len() - i,
    {
        let ghost done = copies@;
        copies.push(copy_bytes(paths[i].as_slice()));
        i = i + 1;
        assert(byte_strings(copies@) =~= byte_strings(done).push(all[i - 1]));
        assert(all.take(i as int) =~= all.take(i - 1).push(all[i - 1]));
    }
    assert(all.take(i as int) =~= all);
    copies
}

impl ScanConfig {
    pub fn new(roots: Vec<Vec<u8>>) -> (config: Self)
        ensures
            config == (ScanConfig {
                roots,
                threads: 0,
                size_mode: SizeMode::DiskUsage,
                dedup_hardlinks: true,
                follow_symlinks: false,
                same_filesystem: true,
                max_depth: 0,
                build_tree: false,
            }),
    {
        let base: ScanConfig = Default::default();
        ScanConfig {
            roots,
            threads: base.threads,
            size_mode: base.size_mode,
            dedup_hardlinks: base.dedup_hardlinks,
            follow_symlinks: base.follow_symlinks,
            same_filesystem: base.same_filesystem,
            max_depth: base.max_depth,
            build_tree: base.build_tree,
        }
    }

    /// A copy of the configuration.
    pub fn duplicate(&self) -> (config: Self)
        ensures
            config == (ScanConfig { roots: config.roots, ..*self }),
            byte_strings(config.roots@) == byte_strings(self.roots@),
    {
        ScanConfig {
            roots: copy_paths(&self.roots),
            threads: self.threads,
            size_mode: self.size_mode,
            dedup_hardlinks: self.dedup_hardlinks,
            follow_symlinks: self.follow_symlinks,
            same_filesystem: self.same_filesystem,
            max_depth: self.max_depth,
            build_tree: self.build_tree,
        }
    }

    /// The configuration of the walk that the scan counts.
    pub fn walk_config(&self) -> (config: WalkConfig)
        ensures
            config == (WalkConfig {
                roots: config.roots,
                threads: self.threads,
                follow_symlinks: self.follow_symlinks,
                same_filesystem: self.same_filesystem,
                max_depth: self.max_depth,
                channel_capacity: 4096,
            }),
            byte_strings(config.roots@) == byte_strings(self.roots@),
    {
        let base: WalkConfig = Default::default();
        WalkConfig {
            roots: copy_paths(&self.roots),
            threads: self.threads,
            follow_symlinks: self.follow_symlinks,
            same_filesystem: self.same_filesystem,
            max_depth: self.max_depth,
            channel_capacity: base.channel_capacity,
        }
    }
}

/// The size that a scan counts for an entry: the one that is asked for, else
/// the other one, else nothing.
pub open spec fn counted_size(mode: SizeMode, entry: Entry) -> u64 {
    let (first, second) = match mode {
        SizeMode::DiskUsage => (entry.disk_usage, entry.apparent_size),
        SizeMode::ApparentSize => (entry.apparent_size, entry.disk_usage),
    };
    match first {
        Some(size) => size,
        None => or_zero(second),
    }
}

pub open spec fn or_zero(size: Option<u64>) -> u64 {
    match size {
        Some(size) => size,
        None => 0,
    }
}

/// A scan that is told nothing but its roots counts disk usage, each file once
/// whatever its links, on the file system of its roots, to any depth and without
/// following links.
pub proof fn law_default_scan(roots: Vec<Vec<u8>>, config: ScanConfig)
    requires
        call_ensures(ScanConfig::new, (roots,), config),
    ensures
        config.roots == roots,
        config.size_mode == SizeMode::DiskUsage,
        config.dedup_hardlinks,
        config.same_filesystem,
        !config.follow_symlinks,
        !config.build_tree,
        config.max_depth == 0,
        config.threads == 0,
{
}

/// The walk of a scan goes over the roots of the scan, by its rules.
pub proof fn law_walk_follows_the_scan(scan: &ScanConfig, walk: WalkConfig)
    requires
        call_ensures(ScanConfig::walk_config, (scan,), walk),
    ensures
        walk.roots@.len() == scan.roots@.len(),
        forall|k: int|
            0 <= k < scan.roots@.len() ==> (#[trigger] walk.roots@[k])@ == scan.roots@[k]@,
        walk.threads == scan.threads,
        walk.follow_symlinks == scan.follow_symlinks,
        walk.same_filesystem == scan.same_filesystem,
        walk.max_depth == scan.max_depth,
        walk.channel_capacity == 4096,
{
    let roots = byte_strings(walk.roots@);
    assert(roots.len() == walk.roots@.len());
    assert forall|k: int| 0 <= k < scan.roots@.len() implies (#[trigger] walk.roots@[k])@
        == scan.roots@[k]@ by {
        assert(roots[k] == walk.roots@[k]@);
        assert(byte_strings(scan.roots@)[k] == scan.roots@[k]@);
    }
}

} // verus!
