//! Encrypted, per-app isolated persistence: the verified core.

pub mod assoc;
pub mod context;
pub mod crypto;
pub mod entity;
pub mod error;
pub mod fetch;
pub mod fico_store;
pub mod hex;
pub mod paths;
pub mod perms;
pub mod store;
pub mod text;
pub mod value;
