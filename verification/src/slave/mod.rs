pub mod dll;
pub mod cache;
pub mod redundancy;
pub mod endpoints;
