//! A restricted HTTP CONNECT forward proxy library.
//!
//! The verified core: a streaming, bounded parser for the CONNECT request
//! head, the per-connection head-accumulation state machine, the allowlist
//! backend policy, and the per-chunk relay decision.  The asynchronous I/O
//! that drives these lives outside the library.

pub mod backend;
pub mod connection;
pub mod http;
