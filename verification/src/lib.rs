//! A verified facade for object-storage bucket lifecycle operations.
//!
//! The crate models the five operations of a small bucket-management tool
//! (create bucket, delete bucket, list bucket and objects, put object,
//! delete object): it resolves the client's target region, builds the
//! request payloads, performs the bucket-existence scan, and proves how a
//! model of the remote store evolves under each operation.  The network
//! calls themselves are left to the surrounding binary.

pub mod errors;
pub mod facade;
pub mod laws;
pub mod order;
pub mod store;
