//! The routing information base and its queries.
pub mod attributes;
pub mod filter;
pub mod http_ng;
pub mod line_laws;
pub mod lines;
pub mod records;
pub mod rib;
pub mod rib_laws;
pub mod rpki;
pub mod store;
pub mod table;
