//! Building blocks of an encrypted block store: a byte buffer with
//! prefix/suffix reservations, authenticated ciphers, and a write-back block
//! cache over an abstract base store.
pub mod cache;
pub mod cipher;
pub mod data;
pub mod encrypted;
pub mod entry;
pub mod store;
