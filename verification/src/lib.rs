//! Protocol engine for master/slave cluster connections.
//!
//! The engine never touches a socket. A [`Connection`] holds the bytes that
//! have arrived from the peer, the bytes that are waiting to go out, and the
//! magic bytes both ends agreed on. Every operation consumes the connection
//! and gives a new one back, so two operations can never work on the same
//! state. Whoever owns the transport feeds arriving bytes in and carries
//! outgoing bytes away between the operations.

pub mod buffered;
pub mod connection;
pub mod errors;
pub mod flag;
pub mod master;
pub mod transfer;

pub use connection::Connection;
pub use connection::ConnectionParts;
pub use connection::Progress;
pub use connection::StreamingConnection;
pub use connection::MAGIC_LENGTH;
pub use errors::ClusterError;
pub use flag::ConnectionFlag;
pub use flag::Dispatch;
pub use master::Cluster;
pub use master::PingReply;
pub use master::Sweep;
pub use transfer::FileStep;
pub use transfer::TransferPhase;
