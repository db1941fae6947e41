//! Programs built into the terminal.
pub mod dufetch;
