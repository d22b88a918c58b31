//! Packages of the machine.
pub mod brew;
