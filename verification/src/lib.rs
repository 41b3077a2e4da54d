//! A filesystem-listing core: a storage-backend abstraction resolves paths
//! to metadata, a data access layer recursively lists directory contents to
//! a bounded depth while applying ignore-glob and display-mode filters, and
//! a sort engine orders the resulting forest under a chain of comparison
//! keys with a canonical identity tie-break.

pub mod backend;
pub mod dal;
pub mod driver;
pub mod flags;
pub mod fs_backend;
pub mod glob;
pub mod mem_backend;
pub mod meta;
pub mod sort;
