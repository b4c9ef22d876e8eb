//! Replication: Raft consensus, message transport, read routing and WAL
//! shipping.

pub mod cluster;
pub mod laws;
pub mod node;
pub mod tcp_transport;
pub mod wal_laws;
pub mod wal_shipping;
