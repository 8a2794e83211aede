//! The units of the pipeline.
pub mod bmp_tcp_in;
pub mod bmp_tcp_out;
pub mod rib_unit;
