//! The core of a BGP routing information base with BMP re-streaming.
//!
//! Everything in this crate is verified: each function states what it returns
//! or changes, and the properties that span functions are stated as public
//! proof functions next to the code they are about.
pub mod ingress;
pub mod mem_stats;
pub mod net;
pub mod payload;
pub mod text;
pub mod units;
pub mod wire;
