//! What is asked for on the command line.
use crate::paths::byte_strings;
use crate::scan::config::{copy_paths, ScanConfig, SizeMode};
use vstd::prelude::*;

verus! {

#[derive(Debug, Clone, Copy, PartialEq, Eq, Structural)]
pub enum OutputFormat {
    Human,
    Json,
    Ncdu,
}

#[derive(Debug, Clone)]
pub struct Options {
    pub paths: Vec<Vec<u8>>,
    pub format: OutputFormat,
    pub apparent_size: bool,
    pub count_links: bool,
    pub one_file_system: bool,
    pub follow_links: bool,
    pub max_depth: usize,
    pub threads: usize,
    pub build_tree: bool,
    pub quiet: bool,
}

impl Options {
    /// The scan that is asked for. The export for ncdu needs the tree.
    pub fn scan_config(&self) -> (config: ScanConfig)
        ensures
            byte_strings(config.roots@) == byte_strings(self.paths@),
            config.threads == self.threads,
            config.size_mode == (if self.apparent_size {
                SizeMode::ApparentSize
            } else {
                SizeMode::DiskUsage
            }),
            config.dedup_hardlinks == !self.count_links,
            config.follow_symlinks == self.follow_links,
            config.same_filesystem == self.one_file_system,
            config.max_depth == self.max_depth,
            config.build_tree == (self.build_tree || self.format == OutputFormat::Ncdu),
    {
        ScanConfig {
            roots: copy_paths(&self.paths),
            threads: self.threads,
            size_mode: if self.apparent_size {
                SizeMode::ApparentSize
            } else {
                SizeMode::DiskUsage
            },
            dedup_hardlinks: !self.count_links,
            follow_symlinks: self.follow_links,
            same_filesystem: self.one_file_system,
            max_depth: self.max_depth,
            build_tree: self.build_tree || self.format == OutputFormat::Ncdu,
        }
    }

    /// Whether progress is shown: only to people, and not if they asked for
    /// quiet.
    pub fn shows_progress(&self, terminal: bool) -> (shows: bool)
        ensures
            shows == (!self.quiet && terminal),
    {
        !self.quiet && terminal
    }
}

/// The exit status of a scan with this many errors.
pub fn exit_code(errors: usize) -> (code: i32)
    ensures
        code == (if errors == 0 {
            0i32
        } else {
            1i32
        }),
{
    if errors == 0 {
        0
    } else {
        1
    }
}

/// What is asked for on the command line reaches the scan.
pub proof fn law_options_reach_the_scan(options: &Options, config: ScanConfig)
    requires
        call_ensures(Options::scan_config, (options,), config),
    ensures
        config.roots@.len() == options.paths@.len(),
        forall|k: int|
            0 <= k < options.paths@.len() ==> (#[trigger] config.roots@[k])@ == options.paths@[k]@,
        config.size_mode == SizeMode::ApparentSize <==> options.apparent_size,
        config.dedup_hardlinks <==> !options.count_links,
        config.same_filesystem <==> options.one_file_system,
        config.follow_symlinks <==> options.follow_links,
        config.max_depth == options.max_depth,
        config.threads == options.threads,
        config.build_tree <==> options.build_tree || options.format == OutputFormat::Ncdu,
{
    let roots = byte_strings(config.roots@);
    assert(roots.len() == config.roots@.len());
    assert forall|k: int| 0 <= k < options.paths@.len() implies (#[trigger] config.roots@[k])@
        == options.paths@[k]@ by {
        assert(roots[k] == config.roots@[k]@);
        assert(byte_strings(options.paths@)[k] == options.paths@[k]@);
    }
}

/// A scan without errors ends with status zero, and no other does.
pub proof fn law_errors_are_a_failure(errors: usize, code: i32)
    requires
        call_ensures(exit_code, (errors,), code),
    ensures
        code == 0 <==> errors == 0,
        errors > 0 ==> code == 1,
{
}

/// Progress is shown on a terminal unless quiet was asked for.
pub proof fn law_quiet_is_kept(options: &Options, terminal: bool, shows: bool)
    requires
        call_ensures(Options::shows_progress, (options, terminal), shows),
    ensures
        shows ==> terminal && !options.quiet,
        terminal && !options.quiet ==> shows,
{
}

} // verus!
