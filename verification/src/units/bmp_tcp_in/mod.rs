//! Reception of BMP streams.
pub mod io;
