//! What the commands decide, apart from reading and printing.

pub mod convert;
pub mod doctor;
pub mod http;
pub mod inspect;
pub mod optimize;
pub mod order;
pub mod out;
pub mod serve;
pub mod snapshot;
