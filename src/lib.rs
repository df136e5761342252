//! Core of a reverse proxy: restartable HTTP/1.x head parsers that record byte ranges into the
//! caller's buffer, the routing table with round-robin backend picking, the decisions of the
//! TLS handshake phase, the answers the proxy writes itself, command-channel framing, and the
//! command lines of the processes a master starts.
pub mod grammar;
pub mod tokens;
pub mod parser;
pub mod response;
pub mod request;
pub mod routing;
pub mod tls;
pub mod answers;
pub mod process;
pub mod channel;
pub mod master;
