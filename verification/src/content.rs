//! The content pack writer's plan: one cluster per file payload, with the
//! entropy-guided decision whether the cluster is stored compressed.

use vstd::prelude::*;
use crate::entry::Compression;

verus! {

/// A payload is stored uncompressed when the estimated Shannon entropy of a
/// bounded prefix of its bytes reaches this many thousandths of a bit per
/// byte; below it, the configured algorithm compresses it.  The threshold is
/// fixed here as part of the builder's contract.
pub const ENTROPY_THRESHOLD_MILLIBITS: u64 = 7500;

/// Whether a payload with the given entropy estimate is compressed under the
/// given configuration.
pub open spec fn spec_should_compress(c: Compression, entropy_millibits: u64) -> bool {
    !(c is Off) && entropy_millibits < ENTROPY_THRESHOLD_MILLIBITS
}

/// With compression switched off, no payload is ever compressed, whatever
/// its entropy estimate.
pub proof fn lemma_no_compression_ceiling(entropy_millibits: u64)
    ensures
        !spec_should_compress(Compression::Off, entropy_millibits),
{
}

/// Decides whether to compress a payload.
pub fn should_compress(c: &Compression, entropy_millibits: u64) -> (r: bool)
    ensures
        r == spec_should_compress(*c, entropy_millibits),
{
    match c {
        Compression::Off => false,
        _ => entropy_millibits < ENTROPY_THRESHOLD_MILLIBITS,
    }
}

/// One cluster of the content pack: the payload size it holds and whether
/// it is stored compressed.
#[derive(Clone, Copy, Debug, PartialEq, Eq, Structural)]
pub struct ClusterPlan {
    pub size: u64,
    pub compressed: bool,
}

/// The accumulating plan of the content pack: cluster `i` holds the payload
/// whose content identifier is `i`.
#[derive(Clone, Debug, PartialEq)]
pub struct ContentPackPlan {
    pub clusters: Vec<ClusterPlan>,
}

impl ContentPackPlan {
    /// An empty content pack.
    pub fn new() -> (r: ContentPackPlan)
        ensures
            r.clusters@ =~= Seq::<ClusterPlan>::empty(),
    {
        ContentPackPlan { clusters: Vec::new() }
    }

    /// Commits one payload and issues its content identifier: the index of
    /// the new cluster.
    pub fn add_content(&mut self, size: u64, entropy_millibits: u64, c: &Compression) -> (idx: u32)
        requires
            old(self).clusters.len() < u32::MAX as usize,
        ensures
            idx as int == old(self).clusters@.len(),
            final(self).clusters@ == old(self).clusters@.push(
                ClusterPlan { size, compressed: spec_should_compress(*c, entropy_millibits) },
            ),
    {
        let idx = self.clusters.len() as u32;
        let compressed = should_compress(c, entropy_millibits);
        self.clusters.push(ClusterPlan { size, compressed });
        idx
    }
}

/// Counts the bytes whose storage was elided because the payload was served
/// from the content cache.
#[derive(Clone, Copy, Debug, PartialEq, Eq, Structural)]
pub struct CachedSize(pub u64);

impl CachedSize {
    /// A counter that has seen nothing yet.
    pub fn new() -> (r: CachedSize)
        ensures
            r.0 == 0,
    {
        CachedSize(0)
    }

    /// Records that `size` bytes were served from the cache.
    pub fn cached_data(&mut self, size: u64)
        requires
            old(self).0 + size <= u64::MAX,
        ensures
            final(self).0 == old(self).0 + size,
    {
        self.0 = self.0 + size;
    }
}

} // verus!
