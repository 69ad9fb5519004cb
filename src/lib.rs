//! Look up Unicode characters by substrings of their names and by ranges of
//! code points.
//!
//! The character table is a stream of entries, each a length byte followed by
//! the UTF-8 bytes of the character and of its name, compressed with zlib.
//! [`builder`] writes such a table from a listing of code points and names,
//! [`table`] reads it back one entry at a time, and [`filters`] decides which
//! entries a query selects.
pub mod builder;
pub mod filters;
pub mod format;
pub mod table;
pub mod text;
pub mod zlib;
