//! Storage of the SSH private key used for cloning: the decisions taken
//! around the system keyring, and the weakly encrypted fallback copy kept
//! in the configuration.

pub mod fallback;
pub mod keyring;
pub mod agent;
