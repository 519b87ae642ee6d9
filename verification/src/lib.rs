//! Archive builder core: packages a filesystem tree (directories, regular
//! files, symbolic links) into the entry layout of a multi-pack container.
//!
//! The builder ingests entry descriptors in arbitrary order, merges them into
//! a directory tree, and at finalize time lays the entries out so that the
//! children of every directory are contiguous and sorted by name, with every
//! directory record carrying the index of its first child and its child
//! count.  All file and pack I/O stays outside this crate; the library hands
//! its caller a fully resolved plan of the archive to write out.
//!
//! Every plan that [`creator::Creator::finalize`] returns is verified to
//! satisfy the store's layout invariants: strict `(parent, name)` order
//! (so a re-sort is a no-op, see [`plan::lemma_resort_is_noop`]), sibling
//! contiguity, parent validity, a one-to-one correspondence between the
//! ingested records and the finalized entries, and parent values and
//! child counts that follow exactly the ingested tree's edges.  The builder itself
//! keeps a tie-off invariant between its tree and its record table
//! ([`creator::Creator::reachable`]) that [`creator::Creator::new`]
//! establishes and [`creator::Creator::add_entry`] preserves.

pub mod checks;
pub mod content;
pub mod creator;
pub mod entry;
pub mod error;
pub mod layout;
pub mod lex;
pub mod plan;
pub mod tree;

pub use entry::{Attrs, Compression, ConcatMode, ContentAddress, EntryDesc, EntryKind,
    EntryPayload, EntryRecord};
pub use error::ArxError;
