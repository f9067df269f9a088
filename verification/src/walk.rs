//! Links of the pedestrian network, which can be walked both ways.

use vstd::prelude::*;

verus! {

/// A node of the pedestrian network: its number within its mesh.
#[derive(Clone, Copy, Debug, PartialEq, Eq, Structural, PartialOrd, Ord, Hash)]
pub struct NodeKey {
    pub mesh_id: u32,
    pub node_id: u32,
}

impl NodeKey {
    /// The key of node `node_id` in mesh `mesh_id`.
    pub fn new(mesh_id: u32, node_id: u32) -> (key: Self)
        ensures
            key.mesh_id == mesh_id,
            key.node_id == node_id,
    {
        Self { mesh_id, node_id }
    }
}

/// A link of the pedestrian network.
#[derive(Clone, Copy, Debug, PartialEq, Eq, Structural)]
pub struct Link {
    pub mid: u64,
    pub mesh_id: u32,
    pub link_id: u32,
    pub snode_id: u32,
    pub enode_id: u32,
    pub length: u32,
}

impl Link {
    /// The link the other way round.
    pub fn reverse(&self) -> (r: Self)
        ensures
            r == (Link { snode_id: self.enode_id, enode_id: self.snode_id, ..*self }),
    {
        Self {
            mid: self.mid,
            mesh_id: self.mesh_id,
            link_id: self.link_id,
            snode_id: self.enode_id,
            enode_id: self.snode_id,
            length: self.length,
        }
    }

    /// The node the link starts at.
    pub fn node_key(&self) -> (key: NodeKey)
        ensures
            key == (NodeKey { mesh_id: self.mesh_id, node_id: self.snode_id }),
    {
        NodeKey::new(self.mesh_id, self.snode_id)
    }
}

} // verus!
