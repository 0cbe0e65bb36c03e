//! An indexed, queryable model of a contract interface description.
//!
//! An interface description is an ordered list of tagged entries. The
//! [`Contract`] built from it keeps the last constructor, groups functions
//! and events by name in the order in which they were presented, and records
//! the two capability flags.

pub mod contract;
pub mod errors;
pub mod groups;
pub mod laws;
pub mod name_order;
pub mod operation;

pub use contract::{Contract, ContractView, Events, Functions};
pub use errors::AbiError;
pub use operation::{Constructor, Event, EventParam, Function, Operation, Param};
