//! Resolution of a process environment from a declarative `.env`-style file
//! whose entries may be literal values, references to entries in an OS-level
//! secret store, or aliased references, together with a facade that manages
//! the lifecycle of those secrets (add, list, delete, retrieve).
//!
//! The line-classification grammar, the merge policy for duplicate keys, the
//! partial-failure policy for missing secrets, and the key-name validation
//! rule are all verified. Calls into the platform credential store go through
//! a small set of trusted declarations over `keyring_core`.

pub mod classify;
pub mod resolve;
pub mod store;
pub mod text;
pub mod validate;
