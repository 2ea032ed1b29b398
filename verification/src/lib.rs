//! A buddy-system heap allocator over a modelled arena, with the size-class
//! arithmetic, the free-list table and the allocation adapter all verified,
//! and beside it the page arithmetic and the device-tree cell decoding of
//! the kernel bring-up.

pub mod allocator;
pub mod device_tree;
pub mod page;
