//! A small content-addressed version control engine.
//!
//! The engine works on a [`repo::Repository`]: a value that holds what the
//! repository directory and the working directory hold, file by file. Each
//! command takes the repository from one state to the next and says in its
//! contract what the next state is; reading the directory into such a value
//! and writing it back is left to the caller.
//!
//! Objects are blobs, trees and commits. An object is stored under the
//! SHA-1 digest of its header and payload, as a zlib stream. Branches name
//! commits, `HEAD` names a branch, the index names the blob of each tracked
//! path, and the staging delta records what the next commit will take up.

pub mod bytes;
pub mod text;
pub mod render;
pub mod error;
pub mod bytemap;
pub mod codec;
pub mod object;
pub mod repo;
pub mod index;
pub mod staging;
pub mod staging_file;
pub mod tree;
pub mod commit;
pub mod refs;
pub mod materialize;
pub mod add;
pub mod snapshot;
pub mod history;
pub mod branch;
pub mod merge;
pub mod stash;
pub mod diff;
pub mod status;
pub mod text_laws;
pub mod staging_laws;
pub mod round_trip;
pub mod refs_laws;
