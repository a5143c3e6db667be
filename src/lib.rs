//! Search over the media files of one directory.
//!
//! The library decides which directory entries are media files and which of
//! those match a user's query: names and queries are brought to a common
//! normal form, matched by substring, and, when nothing matches, either the
//! nearest name by edit distance or the whole listing stands in.

pub mod distance;
pub mod links;
pub mod lister;
pub mod matcher;
pub mod normalize;
