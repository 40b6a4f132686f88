//! Point cloud formats for the web, with every rule stated as a contract.
//!
//! The library holds the data model, the parsers and writers, the octree, and
//! the decisions behind each command. Bytes come in and bytes go out as plain
//! values; files, sockets and terminals are the business of the program around
//! it.
//!
//! Two conventions hold throughout. A floating point number is carried as its
//! bits (see [`double`]), because nothing here computes with one. And a sum over
//! numbers that a file supplies wraps at the width of its type, so that no file
//! can stop a walk with an overflow.

pub mod attribute;
pub mod bounds;
pub mod build;
pub mod built_cloud;
pub mod bytes;
pub mod cli;
pub mod cloud;
pub mod codec;
pub mod convert;
pub mod crs;
pub mod double;
pub mod e57;
pub mod error;
pub mod format;
pub mod json;
pub mod las;
pub mod laws;
pub mod octree;
pub mod optimize;
pub mod read;
pub mod record;
pub mod round_trip;
pub mod source;
pub mod text;
pub mod warning;
pub mod write;
