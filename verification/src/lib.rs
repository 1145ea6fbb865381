//! Point-in-time snapshots of file metadata and the comparison of two of them.
//!
//! A capture run records, for every regular file that a directory traversal
//! yields, the file's path, modification time and size under one shared
//! capture timestamp. Paths are interned: each distinct path is given a
//! permanent positive identifier, and snapshot rows refer to paths by that
//! identifier. Two captures can then be reconciled into a status per path.

pub mod bytes;
pub mod capture;
pub mod clock;
pub mod compare;
pub mod diff;
pub mod error;
pub mod index;
pub mod laws;
pub mod model;
pub mod numeric;
pub mod path_cache;
pub mod path_table;
pub mod recency;
pub mod store;
