//! A Git repository served as a WebDAV tree: packfiles, tree objects, the
//! smart transport's lines, and the decisions of the WebDAV handler.

pub mod answers;
pub mod bytes;
pub mod store;
pub mod oid;
pub mod outside;
pub mod path;
pub mod path_map;
pub mod git;
pub mod handler;
pub mod headers;
pub mod multistatus;
pub mod fs;
pub mod git_bridge;
pub mod plain_files;
pub mod layout;
pub mod cli;
