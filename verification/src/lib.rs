//! Fixed-capacity open-addressing hash maps with machine-checked contracts.

pub mod basic_hash_map;
pub mod hashing;
pub mod key;
pub mod probe;
pub mod robin_hood_hash_map;
pub mod robin_hood_laws;
pub mod robin_hood_lemmas;
pub mod robin_hood_model;

pub use basic_hash_map::{OpenHashMap, Slot};
pub use key::Key;
pub use robin_hood_hash_map::{Bucket, MapError, RobinHashMap};
