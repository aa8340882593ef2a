//! An adaptive radix tree: an ordered index from byte strings to values, with
//! inner nodes that change representation (4, 16, 48 or 256 children) as their
//! fan-out grows.
mod leaf;
pub use leaf::Leaf;

mod node;
pub use node::{BoxNode, Node, Seek};

mod node4;
pub use node4::{Node4, Node4IntoIter, Node4Iter};

mod node16;
pub use node16::{Node16, Node16Iter};

mod node48;
pub use node48::{Node48, Node48IntoIter, Node48Iter};

mod node256;
pub use node256::{Node256, Node256IntoIter, Node256Iter};

mod util;
pub use util::swap_unchecked;

mod tree;
pub use tree::Tree;

pub mod laws;

mod key;
pub use key::Key;

mod branch;
pub use branch::Branch;

mod describe;
pub use describe::{Describe, Describer};
