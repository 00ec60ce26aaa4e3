//! A MASQUE (CONNECT-UDP over HTTP/3) proxy: the datagram framing, the
//! fragmentation and reassembly of payloads that exceed the datagram size, the
//! parsing of the proxy request path, and the decisions of the client and server
//! forwarding loops.
pub mod varint;
pub mod framing;
pub mod fragment;
pub mod target;
pub mod session;
pub mod server;
pub mod vm_config;
