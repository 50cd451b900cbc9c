//! Keeps a local-network name advertisement bound to the host's current
//! network interfaces: interface filters, normalized interface snapshots,
//! and the decisions that restart the advertisement when they change.
pub mod cli;
pub mod filter;
pub mod monitor;
pub mod snapshot;
pub mod text;
