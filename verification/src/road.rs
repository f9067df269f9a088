//! Road links: the rules by which a link of the road network is passable,
//! and in which direction.

use vstd::prelude::*;

verus! {

/// A node of the road network: its number within its mesh.
#[derive(Clone, Copy, Debug, PartialEq, Eq, Structural, PartialOrd, Ord, Hash)]
pub struct NodeKey {
    pub mesh_id: u32,
    pub node_id: u32,
}

impl NodeKey {
    /// The key of node `node_id` in mesh `mesh_id`.
    pub fn new(mesh_id: u32, node_id: u32) -> (key: Self)
        ensures
            key.mesh_id == mesh_id,
            key.node_id == node_id,
    {
        Self { mesh_id, node_id }
    }

    /// Mesh and node number in one word, the mesh in the upper half.
    pub fn code(&self) -> (code: u64)
        ensures
            code == self.mesh_id as u64 * 0x1_0000_0000 + self.node_id as u64,
    {
        self.mesh_id as u64 * 0x1_0000_0000 + self.node_id as u64
    }
}

/// A link of the road network as seen from one of its ends.
#[derive(Clone, Copy, Debug, PartialEq, Eq, Structural, PartialOrd, Ord, Hash)]
pub struct LinkKey {
    pub mesh_id: u32,
    pub link_id: u32,
    pub node_id: u32,
}

impl LinkKey {
    /// The key of link `link_id` in mesh `mesh_id` at node `node_id`.
    pub fn new(mesh_id: u32, link_id: u32, node_id: u32) -> (key: Self)
        ensures
            key.mesh_id == mesh_id,
            key.link_id == link_id,
            key.node_id == node_id,
    {
        Self { mesh_id, link_id, node_id }
    }
}

/// A link of the road network.
#[derive(Clone, Copy, Debug, PartialEq, Eq, Structural)]
pub struct Link {
    pub mid: u64,
    pub mesh_id: u32,
    pub link_id: u32,
    pub snode_id: u32,
    pub enode_id: u32,
    pub length: u32,
    pub max_speed: u8,
    // 1 (allow), 2 (deny)
    pub pass_code: u8,
    // 1(bidirectional), 2(deny), 3(forward), 4(backward)
    // 6(forward?), 7(backward?)
    pub control: u8,
    pub reversed: bool,
}

/// The control code with its direction made forward: 4 becomes 3, 7
/// becomes 6.
pub open spec fn forward_control(control: u8) -> u8 {
    if control == 4 {
        3
    } else if control == 7 {
        6
    } else {
        control
    }
}

impl Link {
    /// A link that runs backward is turned round, so that it runs forward.
    pub fn normalize(&mut self)
        ensures
            final(self).control == forward_control(old(self).control),
            final(self).control == old(self).control ==> *final(self) == *old(self),
            final(self).control != old(self).control ==> *final(self) == (Link {
                control: forward_control(old(self).control),
                reversed: !old(self).reversed,
                snode_id: old(self).enode_id,
                enode_id: old(self).snode_id,
                ..*old(self)
            }),
    {
        let next_control: u8 = if self.control == 4 {
            3
        } else if self.control == 7 {
            6
        } else {
            self.control
        };
        if next_control != self.control {
            self.control = next_control;
            self.reversed = !self.reversed;
            let s = self.snode_id;
            self.snode_id = self.enode_id;
            self.enode_id = s;
        }
    }

    /// The link the other way round, where it can be used both ways.
    pub fn reverse(&self) -> (r: Option<Self>)
        ensures
            r == if self.control == 1 {
                Some(
                    Link {
                        snode_id: self.enode_id,
                        enode_id: self.snode_id,
                        reversed: !self.reversed,
                        ..*self
                    },
                )
            } else {
                None
            },
    {
        // do not generate reversed link for one-way road
        if self.control != 1 {
            return None;
        }
        Some(
            Self {
                mid: self.mid,
                mesh_id: self.mesh_id,
                link_id: self.link_id,
                snode_id: self.enode_id,
                enode_id: self.snode_id,
                length: self.length,
                max_speed: self.max_speed,
                pass_code: self.pass_code,
                control: self.control,
                reversed: !self.reversed,
            },
        )
    }

    /// Whether the link is closed.
    pub fn deny(&self) -> (b: bool)
        ensures
            b == (self.pass_code == 2 || self.control == 2),
    {
        self.pass_code == 2 || self.control == 2
    }

    /// Whether the link can be used from its start to its end.
    pub fn passable(&self) -> (b: bool)
        ensures
            b == (self.pass_code == 1 && (self.control == 1 || self.control == 3 || self.control
                == 6)),
    {
        self.pass_code == 1 && (self.control == 1 || self.control == 3 || self.control == 6)
    }

    /// The node the link starts at.
    pub fn node_key(&self) -> (key: NodeKey)
        ensures
            key == (NodeKey { mesh_id: self.mesh_id, node_id: self.snode_id }),
    {
        NodeKey::new(self.mesh_id, self.snode_id)
    }

    /// The link as seen from its start.
    pub fn link_key(&self) -> (key: LinkKey)
        ensures
            key == (LinkKey {
                mesh_id: self.mesh_id,
                node_id: self.snode_id,
                link_id: self.link_id,
            }),
    {
        LinkKey { mesh_id: self.mesh_id, node_id: self.snode_id, link_id: self.link_id }
    }
}

} // verus!
