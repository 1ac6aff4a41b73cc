//! Execution core of a blockchain node: ledger state with a final and a
//! candidate view, the log of output events, the execution of slots, and the
//! worker that follows the blockclique.
//!
//! The virtual machine that runs contracts is not part of this crate. Where an
//! execution reaches the call of a contract, it hands the call out and waits
//! for the answer; [`worker::ExecutionWorker::advance`] and
//! [`worker::ExecutionWorker::resume`] are the two halves of that exchange.

pub mod blockclique;
pub mod bytes;
pub mod controller;
pub mod datastore;
pub mod event;
pub mod execution;
pub mod guarantees;
pub mod ledger;
pub mod models;
pub mod once;
pub mod operation;
pub mod order;
pub mod replay;
pub mod worker;

pub use controller::{ExecutionController, ExecutionManager, ReadOnlyExecutionRequest};
pub use execution::{ExecutionError, ExecutionOutput};
