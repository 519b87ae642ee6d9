//! The data model of the archive: entry kinds, common attributes, resolved
//! entry records, and the builder's configuration choices.

use vstd::prelude::*;

verus! {

/// How the finished archive is split over output files: everything in one
/// file, a content-pack sidecar beside the manifest, or both the directory
/// pack and the content pack as sidecar files.
#[derive(Clone, Copy, Debug, PartialEq, Eq, Structural)]
pub enum ConcatMode {
    OneFile,
    TwoFiles,
    NoConcat,
}

/// The compression algorithm configured for the content pack.  `Off`
/// disables compression globally (the command line calls it `none`); the
/// codec itself, and any per-algorithm level, live outside this crate.
#[derive(Clone, Copy, Debug, PartialEq, Eq, Structural)]
pub enum Compression {
    Off,
    Lz4,
    Lzma,
    Zstd,
}

/// The attributes every entry carries besides its name.
#[derive(Clone, Copy, Debug, PartialEq, Eq, Structural)]
pub struct Attrs {
    pub owner: u64,
    pub group: u64,
    pub rights: u64,
    pub mtime: u64,
}

/// The attributes given to a directory that is synthesized because a deeper
/// path was added before the directory itself was listed.
pub open spec fn synthesized_dir_attrs() -> Attrs {
    Attrs { owner: 1000, group: 1000, rights: 0o755, mtime: 0 }
}

/// Builds the attributes used for synthesized ancestor directories.
pub fn make_synthesized_dir_attrs() -> (a: Attrs)
    ensures
        a == synthesized_dir_attrs(),
{
    Attrs { owner: 1000, group: 1000, rights: 0o755, mtime: 0 }
}

/// Where a file's bytes live: a pack and the cluster identifier the content
/// pack writer issued for them.
#[derive(Clone, Copy, Debug, PartialEq, Eq, Structural)]
pub struct ContentAddress {
    pub pack_id: u32,
    pub content_id: u32,
}

/// The pack id under which every file content is stored.
pub const CONTENT_PACK_ID: u32 = 1;

/// What kind of entry a descriptor adds, with the kind-specific input.
/// For a file, the caller reports its size and the estimated Shannon entropy
/// of a bounded prefix of its bytes, in thousandths of a bit per byte; the
/// builder turns that estimate into the compression decision.
#[derive(Clone, Debug, PartialEq)]
pub enum EntryKind {
    Dir,
    File { size: u64, entropy_millibits: u64 },
    Link { target: Vec<u8> },
}

/// One entry to add: the path of the entry inside the archive, split into
/// name components (raw bytes), its attributes, and its kind.
#[derive(Clone, Debug, PartialEq)]
pub struct EntryDesc {
    pub path: Vec<Vec<u8>>,
    pub attrs: Attrs,
    pub kind: EntryKind,
}

/// The kind-specific part of a finalized entry record.  For a directory,
/// `first_child` is the index of its first child in the finalized store
/// (0 when it has no children) and `child_count` the number of children.
#[derive(Clone, Debug, PartialEq)]
pub enum EntryPayload {
    File { content: ContentAddress, size: u64 },
    Dir { first_child: u64, child_count: u64 },
    Link { target: Vec<u8> },
}

/// One finalized entry of the store.  `parent` is 1 + the index of the
/// parent directory's record, and 0 for entries directly under the root.
#[derive(Clone, Debug, PartialEq)]
pub struct EntryRecord {
    pub name: Vec<u8>,
    pub parent: u64,
    pub attrs: Attrs,
    pub payload: EntryPayload,
}

/// Strict order on the store's sort key `(parent, name)`.
pub open spec fn entry_key_lt(a: EntryRecord, b: EntryRecord) -> bool {
    a.parent < b.parent || (a.parent == b.parent && crate::lex::lex_lt(a.name@, b.name@))
}

} // verus!
