//! The totals of a scan.
use crate::scan::tree::TreeNode;
use vstd::prelude::*;

verus! {

#[derive(Debug, Clone, Copy, PartialEq, Eq, Structural)]
pub struct DirStats {
    pub direct_size: u64,
    pub total_size: u64,
    pub direct_count: u64,
    pub total_count: u64,
}

impl Default for DirStats {
    fn default() -> (stats: Self)
        ensures
            stats == (DirStats {
                direct_size: 0,
                total_size: 0,
                direct_count: 0,
                total_count: 0,
            }),
    {
        DirStats { direct_size: 0, total_size: 0, direct_count: 0, total_count: 0 }
    }
}

#[derive(Debug)]
pub struct ScanResult {
    pub total_size: u64,
    pub file_count: u64,
    pub dir_count: u64,
    pub error_count: u64,
    pub deduped_count: u64,
    pub skipped_count: u64,
    pub roots: Vec<RootResult>,
    pub tree: Option<Vec<TreeNode>>,
}

#[derive(Debug, Clone)]
pub struct RootResult {
    pub path: Vec<u8>,
    pub total_size: u64,
    pub file_count: u64,
    pub dir_count: u64,
}

impl ScanResult {
    /// A result that counts nothing.
    pub open spec fn is_blank(&self) -> bool {
        &&& self.total_size == 0
        &&& self.file_count == 0
        &&& self.dir_count == 0
        &&& self.error_count == 0
        &&& self.deduped_count == 0
        &&& self.skipped_count == 0
        &&& self.roots@.len() == 0
        &&& self.tree is None
    }
}

impl Default for ScanResult {
    fn default() -> (result: Self)
        ensures
            result.is_blank(),
    {
        ScanResult {
            total_size: 0,
            file_count: 0,
            dir_count: 0,
            error_count: 0,
            deduped_count: 0,
            skipped_count: 0,
            roots: Vec::new(),
            tree: None,
        }
    }
}

#[derive(Debug)]
pub struct StreamingAggregator {
    pub result: ScanResult,
}

impl StreamingAggregator {
    pub fn new() -> (aggregator: Self)
        ensures
            aggregator.result.is_blank(),
    {
        StreamingAggregator { result: Default::default() }
    }

    pub fn add_entry(&mut self, size: u64, is_dir: bool)
        requires
            old(self).result.total_size + size <= u64::MAX,
            is_dir ==> old(self).result.dir_count < u64::MAX,
            !is_dir ==> old(self).result.file_count < u64::MAX,
        ensures
            final(self).result == (ScanResult {
                total_size: (old(self).result.total_size + size) as u64,
                dir_count: if is_dir {
                    (old(self).result.dir_count + 1) as u64
                } else {
                    old(self).result.dir_count
                },
                file_count: if is_dir {
                    old(self).result.file_count
                } else {
                    (old(self).result.file_count + 1) as u64
                },
                ..old(self).result
            }),
    {
        self.result.total_size = self.result.total_size + size;
        if is_dir {
            self.result.dir_count = self.result.dir_count + 1;
        } else {
            self.result.file_count = self.result.file_count + 1;
        }
    }

    pub fn add_deduped(&mut self)
        requires
            old(self).result.deduped_count < u64::MAX,
        ensures
            final(self).result == (ScanResult {
                deduped_count: (old(self).result.deduped_count + 1) as u64,
                ..old(self).result
            }),
    {
        self.result.deduped_count = self.result.deduped_count + 1;
    }

    pub fn add_error(&mut self)
        requires
            old(self).result.error_count < u64::MAX,
        ensures
            final(self).result == (ScanResult {
                error_count: (old(self).result.error_count + 1) as u64,
                ..old(self).result
            }),
    {
        self.result.error_count = self.result.error_count + 1;
    }

    pub fn add_skipped(&mut self)
        requires
            old(self).result.skipped_count < u64::MAX,
        ensures
            final(self).result == (ScanResult {
                skipped_count: (old(self).result.skipped_count + 1) as u64,
                ..old(self).result
            }),
    {
        self.result.skipped_count = self.result.skipped_count + 1;
    }

    pub fn add_root_result(&mut self, root: RootResult)
        ensures
            final(self).result == (ScanResult {
                roots: final(self).result.roots,
                ..old(self).result
            }),
            final(self).result.roots@ == old(self).result.roots@.push(root),
    {
        self.result.roots.push(root);
    }

    pub fn set_tree(&mut self, tree: Option<Vec<TreeNode>>)
        ensures
            final(self).result == (ScanResult { tree, ..old(self).result }),
    {
        self.result.tree = tree;
    }

    pub fn finish(self) -> (result: ScanResult)
        ensures
            result == self.result,
    {
        self.result
    }
}

impl Default for StreamingAggregator {
    fn default() -> (aggregator: Self)
        ensures
            aggregator.result.is_blank(),
    {
        StreamingAggregator::new()
    }
}

} // verus!
