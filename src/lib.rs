//! A userspace TCP endpoint over a layer-3 tunnel: wrapping sequence
//! arithmetic, the IPv4/TCP segment codec, the per-connection state machine
//! and the connection table that the packet worker and the streams share.
//!
//! Beside it stand a few small utilities of the same repository: the lexer,
//! term rewriting and command processor of a shaping language, a tiny
//! regular-expression state machine, and a recurrence helper.

pub mod seq;
pub mod codec;
pub mod tcp;
pub mod manager;
pub mod lexer;
pub mod rewrite;
pub mod recurrence;
pub mod shaping;
pub mod regex;
