pub mod buffer_manager;
pub mod bytes;
pub mod config;
pub mod error;
pub mod freelist;
pub mod meta;
pub mod pagedata;
pub mod transaction;
pub mod tree;
pub mod wal;
