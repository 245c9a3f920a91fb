//! A content-addressed, signed file system kept on append-only capsules:
//! the records, the capsule, the client-side inode cache and the file view.

pub mod block;
pub mod search;
pub mod wire;
pub mod parse;
pub mod crypto;
pub mod server;
pub mod genesis;
pub mod client;
pub mod middleware;
pub mod inode;
pub mod cache;
pub mod fs;
