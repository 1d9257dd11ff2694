//! A process substrate for a shared virtual-space runtime: a reference-counted
//! process store with kill/link signalling, capabilities as the unit of
//! authority, a service registry, a process factory, a content-addressed lump
//! store with its guest-facing handle table, and the frame protocol that
//! extends capability passing across a peer connection.

pub mod abi;
pub mod builder;
pub mod connection;
pub mod factory;
pub mod laws;
pub mod lump;
pub mod model;
pub mod peer;
pub mod registry;
pub mod release;
pub mod rpc_types;
pub mod runtime;
pub mod signal;
pub mod store;
pub mod types;
pub mod window;
pub mod wire;
