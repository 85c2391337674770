//! A pluggable block-driver framework: a registry of driver capability
//! descriptors, a graph of device nodes joined by permission-carrying edges,
//! the permission negotiation protocol, draining, and the reopen transaction.

pub mod types;
pub mod driver;
pub mod drivers;
pub mod graph;
pub mod node;
pub mod perm;
pub mod registry;
