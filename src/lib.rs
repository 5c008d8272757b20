//! A line-oriented chat server core: the wire protocol, the registry of
//! admitted users, the event dispatcher that alone mutates it, and the
//! decisions of the acceptor and the poller that feed it.
pub mod client;
pub mod dispatch;
pub mod error;
pub mod framing;
pub mod intake;
pub mod poller;
pub mod protocol;
pub mod registry;
