//! A network of multi-homed nodes and an interface-aware search for
//! loop-free routes between two endpoints.
pub mod ids;
pub mod interface;
pub mod node;
pub mod path;
pub mod search;
pub mod topology;

pub use ids::{IfaceIndex, InterfaceType, NodeId};
pub use interface::Interface;
pub use node::TopologyNode;
pub use path::{Path, PathNode};
pub use topology::Topology;
