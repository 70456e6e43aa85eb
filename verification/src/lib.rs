//! A verified model of a content-addressable loose-object store: the
//! codec that frames, addresses, compresses and decompresses blob, tree
//! and commit objects; the canonical tree entry ordering; the recursive
//! tree builder and the tree reader; the address-derived store paths;
//! and the commit payload renderer.

pub mod addr;
pub mod bytes;
pub mod codec;
pub mod commit;
pub mod kind;
pub mod num;
pub mod store;
pub mod tree;
pub mod zip;
