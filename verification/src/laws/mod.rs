//! What the library promises of its operations, put in terms of what goes in and
//! what comes out.
//!
//! Offsets, sizes and words stand here as the formats and the protocols publish
//! them.

pub mod copc;
pub mod doctor;
pub mod documents;
pub mod http;
pub mod indexes;
pub mod las;
pub mod pages;
pub mod points;
pub mod record;
pub mod repack;
pub mod reports;
pub mod scan;
pub mod serve;
pub mod text;
pub mod tiles;
pub mod tilesets;
pub mod tree;
