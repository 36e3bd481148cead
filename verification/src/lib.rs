pub mod block;
pub mod mapping;
pub mod page;
pub mod ssd_basic;
