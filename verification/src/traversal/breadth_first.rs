//! The breadth-first strategy.

use vstd::prelude::*;
use crate::collector::ResultCollector;
use crate::config::AnalyzerConfig;
use crate::fs::{FsReply, FsRequest};
use crate::link_handler::LinkHandler;
use crate::traversal::{TraversalStrategy, Walk};
use crate::walker::DirectoryWalker;

verus! {

/// Visits the nodes level by level.
pub struct BreadthFirstTraversal;

impl BreadthFirstTraversal {
    pub fn new() -> (strategy: Self) {
        BreadthFirstTraversal
    }
}

impl Default for BreadthFirstTraversal {
    fn default() -> (strategy: Self) {
        Self::new()
    }
}

impl TraversalStrategy for BreadthFirstTraversal {
    open spec fn depth_first(&self) -> bool {
        false
    }

    fn begin(
        &self,
        root: &str,
        config: &AnalyzerConfig,
        link_handler: &LinkHandler,
        collector: &mut ResultCollector,
    ) -> (started: (Walk, FsRequest)) {
        Walk::begin(root, config, link_handler, collector)
    }

    fn resume(
        &self,
        walk: &mut Walk,
        config: &AnalyzerConfig,
        walker: &DirectoryWalker,
        link_handler: &mut LinkHandler,
        collector: &mut ResultCollector,
        reply: FsReply,
    ) -> (request: FsRequest) {
        walk.step(false, config, walker, link_handler, collector, reply)
    }
}

} // verus!
