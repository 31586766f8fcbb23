//! The managed heap: pluggable allocators and garbage collectors.
pub mod allocator;
pub mod gc;
pub mod bump;
pub mod native;
