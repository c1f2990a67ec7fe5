//! A size-bounded cache of the strongest node identities found so far, the
//! rules by which one round of key generation fills and consumes it, and the
//! form in which it is persisted between rounds.

pub mod keys;
pub mod cache;
pub mod order;
pub mod persist;
pub mod protocol;
pub mod round;

pub use cache::{Cache, CacheError, Entry};
pub use keys::{Candidate, Output};
pub use persist::CacheFile;
pub use round::{generate_identities, keep_if_stronger, receive_keys};
