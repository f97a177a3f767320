//! A singly-linked list with constant-time access to both ends, whose nodes live
//! in an arena and are linked by slot index.

pub mod node;
pub mod singly;

pub use node::SinglyNode;
pub use singly::SinglyList;
