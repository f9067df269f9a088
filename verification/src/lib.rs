//! Contraction hierarchies over a directed graph with costs of 30 bits.
//!
//! A [`Graph`] holds every arc at both its ends; [`Graph::search`] finds the
//! cheapest way between two nodes. A [`CH`] is built over a graph by
//! contracting its nodes one after the other: each contraction adds the
//! shortcuts that keep the cheapest ways between the nodes that are left.
//! [`CH::search`] then climbs from both ends along links that lead to nodes
//! contracted later, and unpacks the cheapest meeting into a way of the
//! graph.
//!
//! The modules `paths`, `shortest` and `search` hold the theory of ways and
//! of the search; `faithful`, `updown`, `upkeep`, `course`, `retrace` and
//! `agreement` hold what makes a hierarchy answer like its graph, and the
//! proof that a build which does not prune its working links makes such a
//! hierarchy. `narrow` and `ceiling` say of which graphs the build is known
//! beforehand not to prune, and not to meet links that cost too much;
//! `lookup` says which shortcuts a contraction makes while the ways round
//! are looked up.

pub mod adjacency;
pub mod agreement;
pub mod arcs;
pub mod builder;
pub mod ceiling;
pub mod ch;
pub mod contraction;
pub mod course;
pub mod dijkstra;
pub mod faithful;
pub mod graph;
pub mod heap;
pub mod hierarchy;
pub mod lookup;
pub mod narrow;
pub mod network;
pub mod ordered;
pub mod pairing;
pub mod partition;
pub mod paths;
pub mod query;
pub mod retrace;
pub mod road;
pub mod scoring;
pub mod search;
pub mod shortcut;
pub mod shortest;
pub mod shp;
pub mod tables;
pub mod unpack;
pub mod upkeep;
pub mod updown;
pub mod upward;
pub mod walk;
pub mod witness;

pub use crate::builder::BuildReport;
pub use crate::ch::CH;
pub use crate::graph::{map_rev, Graph};
pub use crate::network::{IdxLink, IdxLinkDir, IdxNodeKey};
pub use crate::query::ArtifactError;
pub use crate::shortcut::CHContraction;
pub use crate::upward::filter_order;
