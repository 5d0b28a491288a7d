//! Arena-indexed containers and grid path finding.
//!
//! Every structure keeps its nodes in one flat vector and refers to them by
//! integer handle, so that parent/child and previous/next relations need no
//! references between nodes.

pub mod astar;
pub mod frontier;
pub mod grid;
pub mod linked;
pub mod search;
pub mod tree;

pub use crate::astar::{find_path, manhattan_distance, PathNode, Point};
pub use crate::grid::{RowGrid, UniformGrid};
pub use crate::linked::{ArenaLinkedList, LinkedListNode};
pub use crate::tree::{ArenaTree, TreeNode};
