//! The depth-first strategy.

use vstd::prelude::*;
use crate::collector::ResultCollector;
use crate::config::AnalyzerConfig;
use crate::fs::{FsReply, FsRequest};
use crate::link_handler::LinkHandler;
use crate::traversal::{TraversalStrategy, Walk};
use crate::walker::DirectoryWalker;

verus! {

/// Visits each child with all below it before the child's next sibling.
pub struct DepthFirstTraversal;

impl DepthFirstTraversal {
    pub fn new() -> (strategy: Self) {
        DepthFirstTraversal
    }
}

impl Default for DepthFirstTraversal {
    fn default() -> (strategy: Self) {
        Self::new()
    }
}

impl TraversalStrategy for DepthFirstTraversal {
    open spec fn depth_first(&self) -> bool {
        true
    }

    fn begin(
        &self,
        root: &str,
        config: &AnalyzerConfig,
        link_handler: &LinkHandler,
        collector: &mut ResultCollector,
    ) -> (started: (Walk, FsRequest)) {
        Walk::begin(root, config, link_handler, collector)
    }

    fn resume(
        &self,
        walk: &mut Walk,
        config: &AnalyzerConfig,
        walker: &DirectoryWalker,
        link_handler: &mut LinkHandler,
        collector: &mut ResultCollector,
        reply: FsReply,
    ) -> (request: FsRequest) {
        walk.step(true, config, walker, link_handler, collector, reply)
    }
}

} // verus!
