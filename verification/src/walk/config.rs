//! How a walk is configured.
use vstd::prelude::*;

verus! {

/// The number of threads that a walk picks for itself at most.
pub const MAX_DEFAULT_THREADS: usize = 32;

/// The number of threads where the machine does not say how many it can run.
pub const FALLBACK_THREADS: usize = 4;

#[derive(Debug, Clone)]
pub struct WalkConfig {
    pub roots: Vec<Vec<u8>>,
    pub threads: usize,
    pub follow_symlinks: bool,
    pub same_filesystem: bool,
    pub max_depth: usize,
    pub channel_capacity: usize,
}

impl Default for WalkConfig {
    fn default() -> (config: Self)
        ensures
            config == (WalkConfig {
                roots: config.roots,
                threads: 0,
                follow_symlinks: false,
                same_filesystem: true,
                max_depth: 0,
                channel_capacity: 4096,
            }),
            config.roots@.len() == 0,
    {
        WalkConfig {
            roots: Vec::new(),
            threads: 0,
            follow_symlinks: false,
            same_filesystem: true,
            max_depth: 0,
            channel_capacity: 4096,
        }
    }
}

impl WalkConfig {
    pub fn new(roots: Vec<Vec<u8>>) -> (config: Self)
        ensures
            config == (WalkConfig {
                roots,
                threads: 0,
                follow_symlinks: false,
                same_filesystem: true,
                max_depth: 0,
                channel_capacity: 4096,
            }),
    {
        let base: WalkConfig = Default::default();
        WalkConfig {
            roots,
            threads: base.threads,
            follow_symlinks: base.follow_symlinks,
            same_filesystem: base.same_filesystem,
            max_depth: base.max_depth,
            channel_capacity: base.channel_capacity,
        }
    }

    /// The number of threads to walk with, where `available` is what the
    /// machine says it can run at once.
    pub fn resolved_threads(&self, available: Option<usize>) -> (threads: usize)
        ensures
            threads == (if self.threads != 0 {
                self.threads
            } else {
                match available {
                    Some(n) => if n <= MAX_DEFAULT_THREADS {
                        n
                    } else {
                        MAX_DEFAULT_THREADS
                    },
                    None => FALLBACK_THREADS,
                }
            }),
    {
        if self.threads != 0 {
            return self.threads;
        }
        match available {
            Some(n) => {
                if n <= MAX_DEFAULT_THREADS {
                    n
                } else {
                    MAX_DEFAULT_THREADS
                }
            },
            None => FALLBACK_THREADS,
        }
    }

    /// The number of workers to start: never none.
    pub fn worker_count(&self, available: Option<usize>) -> (workers: usize)
        ensures
            workers >= 1,
            self.threads >= 1 ==> workers == self.threads,
            self.threads == 0 ==> workers == (match available {
                Some(n) => if n == 0 {
                    1
                } else if n <= MAX_DEFAULT_THREADS {
                    n
                } else {
                    MAX_DEFAULT_THREADS
                },
                None => FALLBACK_THREADS,
            }),
    {
        let threads: usize = self.resolved_threads(available);
        if threads == 0 {
            1
        } else {
            threads
        }
    }

    /// How many results may wait between the workers and their consumer: at
    /// least one.
    pub fn queue_length(&self) -> (length: usize)
        ensures
            length == (if self.channel_capacity == 0 {
                1
            } else {
                self.channel_capacity
            }),
    {
        if self.channel_capacity == 0 {
            1
        } else {
            self.channel_capacity
        }
    }
}

/// A walk that is told nothing but its roots stays on their file systems, goes to
/// any depth and does not follow links.
pub proof fn law_default_walk(roots: Vec<Vec<u8>>, config: WalkConfig)
    requires
        call_ensures(WalkConfig::new, (roots,), config),
    ensures
        config.roots == roots,
        config.same_filesystem,
        !config.follow_symlinks,
        config.max_depth == 0,
        config.threads == 0,
        config.channel_capacity == 4096,
{
}

/// There is always room for a result between the workers and their consumer, and
/// no more than was asked for otherwise.
pub proof fn law_queue_has_room(config: &WalkConfig, length: usize)
    requires
        call_ensures(WalkConfig::queue_length, (config,), length),
    ensures
        length >= 1,
        config.channel_capacity >= 1 ==> length == config.channel_capacity,
        config.channel_capacity == 0 ==> length == 1,
{
}

} // verus!
