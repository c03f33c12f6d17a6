//! Process compartments: the decisions behind forking a compartment,
//! reaching it by address, and setting up a channel between two processes,
//! each with its contract.

pub mod address;
pub mod chan;
pub mod compartment;
pub mod service;
pub mod text;

pub use compartment::CompartmentMode;
