//! Verified address-book storage.
//!
//! The crate keeps a collection of contact records, converts them to and
//! from vCard 4.0 text, and offers three interchangeable storage backends
//! behind one contract: a volatile in-memory store, a durable store that
//! keeps encoded vCard text per identifier, and a read-mostly columnar
//! store.

pub mod codec;
pub mod columnar;
pub mod contact;
pub mod durable;
pub mod ident;
pub mod manager;
pub mod store;
pub mod volatile;
