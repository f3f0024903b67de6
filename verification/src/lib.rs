//! An index of media files laid out as a read-only directory tree: each file
//! appears under its date, and once more under each of its tags.

pub mod text;
pub mod time;
pub mod tag;
pub mod media;
pub mod path;
pub mod item;
pub mod cache;
pub mod cache_laws;
pub mod errors;
pub mod fs;
pub mod source;
pub mod mount_point;
pub mod collection;
pub mod locator;
pub mod locate;
