//! The settings a node is built from.

use vstd::prelude::*;

verus! {

/// The settings of a node: the port it listens on and the version of the
/// rule that derives its identifier.
#[derive(Clone, Copy, Debug)]
pub struct NodeBuilder {
    version: usize,
    listenning_port: u16,
}

impl NodeBuilder {
    /// The version of the identifier rule.
    pub closed spec fn spec_version(&self) -> usize {
        self.version
    }

    /// The port the node listens on.
    pub closed spec fn spec_port(&self) -> u16 {
        self.listenning_port
    }

    /// Settings for a node that listens on `listenning_port`, with the
    /// first version of the identifier rule.
    pub fn new(listenning_port: u16) -> (builder: NodeBuilder)
        ensures
            builder.spec_port() == listenning_port,
            builder.spec_version() == 1,
    {
        NodeBuilder { listenning_port, version: 1 }
    }

    /// The version of the identifier rule.
    pub fn version(&self) -> (v: usize)
        ensures
            v == self.spec_version(),
    {
        self.version
    }

    /// The port the node listens on.
    pub fn listenning_port(&self) -> (port: u16)
        ensures
            port == self.spec_port(),
    {
        self.listenning_port
    }
}

} // verus!
