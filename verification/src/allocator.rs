//! The kernel heap: size classes, block headers and the buddy allocator.

pub mod buddy;
pub mod layout;
pub mod laws;
pub mod node;
