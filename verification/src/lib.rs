//! The logic of a small peer-to-peer file store: the request header format
//! of its nodes, the routing decisions of its bootstrap server, and the user
//! configuration of its file system, each with its specification.

pub mod config;
pub mod decimal;
pub mod keys;
pub mod protocol;
pub mod routing;
pub mod table;
pub mod text;
