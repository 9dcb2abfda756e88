//! Higher protocols composed from the group capabilities.
pub mod polynomial_comm;
