//! Storage and access-control core of a multi-tenant mail server: binary key
//! layout, dense document-id bitmaps, a transactional batch writer over an
//! ordered key-value store, the document-id allocator, blob compression
//! framing and the ACL engine.

pub mod codec;
pub mod keys;
pub mod store;
pub mod hashed;
pub mod bitmap;
pub mod write;
pub mod assign;
pub mod blob;
pub mod acl;
pub mod acl_update;
pub mod members;
