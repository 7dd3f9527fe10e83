//! Plumbing of a content-addressed object store: typed objects, their
//! canonical byte encoding, digests, compression, tree payloads, ignore
//! rules and repository discovery.

pub mod bytes;
pub mod digest;
pub mod error;
pub mod ignore;
pub mod kind;
pub mod listing;
pub mod locate;
pub mod number;
pub mod object;
pub mod order;
pub mod sorting;
pub mod store;
pub mod tree;
pub mod zlib;
