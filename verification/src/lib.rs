//! Lanyard: a resilient SSH-agent switching proxy.
//!
//! This crate is the functional core: registry ordering and signer promotion,
//! SSH-agent message classification and framing, identity-answer merging, the
//! per-connection routing and failover state machine, and the control-protocol
//! decisions. Socket I/O lives in the application shell.
pub mod backend;
pub mod bytes;
pub mod shared;
pub mod proxy;
pub mod paths;
pub mod identities;
pub mod session;
pub mod control;
pub mod cli;
pub mod discovery;
