//! An embedded single-file datastore: named, chunked byte streams ("pages")
//! stored in one random-access container, together with the on-disk format,
//! the chunk allocator and the range-lock mediator that guards container I/O.

pub mod array;
pub mod error;
pub mod access;
pub mod codec;
pub mod strtab;
pub mod inode;
pub mod backing;
pub mod mediator;
pub mod allocator;
pub mod database;
pub mod page;
