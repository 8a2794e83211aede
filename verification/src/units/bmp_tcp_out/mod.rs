//! Re-streaming of the routing information base to BMP consumers.
pub mod aggregator;
pub mod bmp_builder;
pub mod client_handler;
pub mod client_laws;
pub mod client_state;
pub mod drain_laws;
pub mod drain_run;
pub mod dump;
pub mod dump_laws;
pub mod dump_walk;
pub mod packing_laws;
pub mod readback;
pub mod update_run;
