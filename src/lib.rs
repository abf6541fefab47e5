//! An embeddable HTTP/2 server framework: a routing trie keyed by path
//! segment and method, typed request bodies, a response builder, and the
//! decisions of the per-connection dispatch pipeline.

pub mod body;
pub mod config;
pub mod dispatch;
pub mod error;
pub mod method;
pub mod path;
pub mod request;
pub mod response;
pub mod router;
pub mod routing_table;
