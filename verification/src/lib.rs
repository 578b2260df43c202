//! Deadlock-free acquisition of several named read/write locks.
//!
//! A set of lock requests is put into one canonical order, by name, and the
//! locks are then taken one after the other in that order. Two callers whose
//! requests overlap therefore always take the shared locks in the same
//! relative order, so no cycle of waiting callers can form.

pub mod canonical;
pub mod chain;
pub mod name;
pub mod request;
pub mod resolve;
pub mod sections;
