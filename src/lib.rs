//! Access control, sync aggregation, update validation and attachment
//! quota rules for the encrypted vault items ("ciphers") of a credential
//! manager server.

pub mod model;
pub mod error;
pub mod access;
pub mod quota;
pub mod payload;
pub mod update;
pub mod collections;
pub mod sync;
pub mod operations;
pub mod attachments;
pub mod vault_sync;
