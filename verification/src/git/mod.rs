//! Git's own formats: tree entries, packs, tree rewriting.

pub mod deltas;
pub mod entry;
pub mod history;
pub mod listing;
pub mod lists;
pub mod lookups;
pub mod objects;
pub mod packfile;
pub mod packs;
pub mod transport;
pub mod url;
pub mod session;
pub mod reach;
pub mod readiness;
pub mod repo;
pub mod success;
pub mod undo;
pub mod walk;
pub mod wire;
