pub mod record;
pub mod digits;
pub mod tree;
pub mod render;
pub mod proc_status;
pub mod color;
pub mod config;
