//! The board: the cache of region blobs, and the application of one
//! bucket of a draw event to its region.

use crate::bucket::RegionBucket;
use crate::cache::{
    after_get, after_put, cache_entries, cache_get, cache_limit, cache_new, cache_put,
    distinct_keys, holds, lemma_after_get_distinct, lemma_after_put_distinct,
    lemma_put_then_get, position,
};
use crate::canvas::{after_bucket, faithful_snapshot};
use crate::pipeline::{region_commands, region_pipeline};
use crate::region::REGION_BLOB_SIZE;
use crate::store::{pipeline_view, Command, CommandView, Store};
use crate::tally::{applied_pixels, applied_tally, apply_pixels};
use lru::LruCache;
use vstd::prelude::*;

verus! {

/// A pixel as it was applied to the canvas, in world coordinates.
#[derive(Debug, Clone, Copy, PartialEq, Eq, Structural)]
pub struct AppliedPixel {
    pub x: i32,
    pub y: i32,
    pub r: u8,
    pub g: u8,
    pub b: u8,
    pub owner_id: u32,
}

/// The number of region blobs that the board keeps in memory at most.
pub const CACHE_CAPACITY: usize = 256;

/// The board: a bounded cache of region blobs, least recently used out
/// first. It is a performance layer; the key-value store holds the truth.
pub struct Board {
    cache: LruCache<(i32, i32), Vec<u8>>,
}

/// What the caller read of a region before its bucket is applied.
#[derive(Debug, PartialEq, Eq)]
pub enum RegionSnapshot {
    /// The region is not in the set of open regions.
    Closed,
    /// The region is open: its blob, and for each pixel of the bucket, in
    /// order, the score of its member in the region's timestamp index.
    Open { blob: Vec<u8>, scores: Vec<Option<u64>> },
}

/// The result of applying one bucket.
#[derive(Debug, PartialEq, Eq)]
pub struct BucketResult {
    /// The pixels that were written, in world coordinates.
    pub applied: Vec<AppliedPixel>,
    /// The writes to issue as one atomic pipeline; none for a closed region.
    pub commands: Vec<Command>,
    /// How many undrawn pixels were claimed. When positive, the region's
    /// claimed count is to be read after the pipeline, for the expansion
    /// check.
    pub claimed: i64,
}

/// The blob that a region has once loaded: what the store held, or an
/// all-zero blob where it held nothing.
pub open spec fn loaded_blob(stored: Seq<u8>) -> Seq<u8> {
    if stored.len() == 0 {
        Seq::new(REGION_BLOB_SIZE as nat, |i: int| 0u8)
    } else {
        stored
    }
}

impl Board {
    /// The cached regions with their blobs, most recently used first.
    pub closed spec fn entries(&self) -> Seq<((i32, i32), Seq<u8>)> {
        cache_entries(self.cache)
    }

    /// The number of regions that the cache holds at most.
    pub closed spec fn limit(&self) -> nat {
        cache_limit(self.cache)
    }

    /// The cache holds at most `CACHE_CAPACITY` regions, each once.
    pub open spec fn wf(&self) -> bool {
        &&& self.limit() == 256
        &&& self.entries().len() <= 256
        &&& distinct_keys(self.entries())
    }

    /// The blob that the cache holds for a region, if any.
    pub open spec fn cached(&self, rx: i32, ry: i32) -> Option<Seq<u8>> {
        if holds(self.entries(), (rx, ry)) {
            Some(self.entries()[position(self.entries(), (rx, ry))].1)
        } else {
            None
        }
    }

    /// A board with an empty cache.
    pub fn new() -> (board: Board)
        ensures
            board.entries() == Seq::<((i32, i32), Seq<u8>)>::empty(),
            board.wf(),
    {
        Board { cache: cache_new(CACHE_CAPACITY) }
    }

    /// Look a region up in the cache. A hit returns a copy of the blob and
    /// makes the region the most recently used; on a miss the caller reads
    /// the blob from the store and hands it to `load_region`.
    pub fn get_region(&mut self, rx: i32, ry: i32) -> (blob: Option<Vec<u8>>)
        requires
            old(self).wf(),
        ensures
            final(self).wf(),
            final(self).entries() == after_get(old(self).entries(), (rx, ry)),
            match blob {
                Some(b) => old(self).cached(rx, ry) == Some(b@),
                None => old(self).cached(rx, ry) is None,
            },
    {
        proof {
            lemma_after_get_distinct(self.entries(), (rx, ry));
        }
        cache_get(&mut self.cache, (rx, ry))
    }

    /// Take in what the store held for a region after a cache miss: an
    /// absent or empty value stands for an all-zero blob. The blob is
    /// cached and returned.
    pub fn load_region(&mut self, rx: i32, ry: i32, stored: Vec<u8>) -> (blob: Vec<u8>)
        requires
            old(self).wf(),
        ensures
            final(self).wf(),
            blob@ == loaded_blob(stored@),
            final(self).entries() == after_put(old(self).entries(), 256, (rx, ry), blob@),
            final(self).cached(rx, ry) == Some(blob@),
    {
        let blob = if stored.len() == 0 {
            zeroed_blob()
        } else {
            stored
        };
        proof {
            lemma_after_put_distinct(self.entries(), 256, (rx, ry), blob@);
            lemma_put_then_get(self.entries(), 256, (rx, ry), blob@);
        }
        let copy = copy_bytes(&blob);
        cache_put(&mut self.cache, (rx, ry), copy);
        blob
    }

    /// Apply one bucket of a draw event to its region. For a closed region
    /// nothing is applied and nothing is to be written. For an open region
    /// the pixels are applied under the ownership rules, the changed blob
    /// is cached, and the result holds the applied pixels and the pipeline
    /// that persists them.
    pub fn apply_bucket(
        &mut self,
        bucket: &RegionBucket,
        snapshot: RegionSnapshot,
        owner_id: u32,
        now: u64,
    ) -> (result: BucketResult)
        requires
            old(self).wf(),
            bucket.wf(),
            bucket.pixels@.len() <= i64::MAX,
            snapshot matches RegionSnapshot::Open { blob, scores } ==> blob@.len()
                == REGION_BLOB_SIZE && scores@.len() == bucket.pixels@.len(),
        ensures
            final(self).wf(),
            match snapshot {
                RegionSnapshot::Closed => {
                    &&& result.applied@.len() == 0
                    &&& result.commands@.len() == 0
                    &&& result.claimed == 0
                    &&& final(self).entries() == old(self).entries()
                },
                RegionSnapshot::Open { blob, scores } => {
                    let t = applied_tally(blob@, bucket.pixels@, scores@, owner_id, now);
                    &&& result.applied@ == applied_pixels(
                        t.written,
                        bucket.rx as int,
                        bucket.ry as int,
                        owner_id,
                    )
                    &&& pipeline_view(result.commands@) == region_pipeline(
                        bucket.rx as int,
                        bucket.ry as int,
                        t,
                        owner_id,
                        now,
                    )
                    &&& result.claimed == t.claimed
                    &&& final(self).entries() == after_put(
                        old(self).entries(),
                        256,
                        (bucket.rx, bucket.ry),
                        t.blob,
                    )
                    &&& final(self).cached(bucket.rx, bucket.ry) == Some(t.blob)
                },
            },
            forall|s: Store| #[trigger]
                faithful_snapshot(s, *bucket, snapshot) ==> s.run(pipeline_view(result.commands@))
                    == after_bucket(
                    s,
                    bucket.rx as int,
                    bucket.ry as int,
                    bucket.pixels@,
                    owner_id,
                    now,
                ),
    {
        match snapshot {
            RegionSnapshot::Closed => {
                let commands: Vec<Command> = Vec::new();
                proof {
                    assert(pipeline_view(commands@) =~= Seq::<CommandView>::empty());
                }
                BucketResult { applied: Vec::new(), commands, claimed: 0 }
            },
            RegionSnapshot::Open { blob, scores } => {
                let mut blob = blob;
                let outcome = apply_pixels(&mut blob, bucket, &scores, owner_id, now);
                proof {
                    lemma_after_put_distinct(self.entries(), 256, (bucket.rx, bucket.ry), blob@);
                    lemma_put_then_get(self.entries(), 256, (bucket.rx, bucket.ry), blob@);
                }
                let copy = copy_bytes(&blob);
                cache_put(&mut self.cache, (bucket.rx, bucket.ry), copy);
                let commands = region_commands(bucket.rx, bucket.ry, &outcome, blob, owner_id, now);
                BucketResult { applied: outcome.applied, commands, claimed: outcome.claimed }
            },
        }
    }
}

/// An all-zero region blob: every pixel undrawn.
pub fn zeroed_blob() -> (blob: Vec<u8>)
    ensures
        blob@ == Seq::new(REGION_BLOB_SIZE as nat, |i: int| 0u8),
{
    let mut blob: Vec<u8> = Vec::new();
    let mut i: usize = 0;
    while i < REGION_BLOB_SIZE
        invariant
            i <= REGION_BLOB_SIZE,
            blob@.len() == i,
            forall|k: int| 0 <= k < i ==> blob@[k] == 0u8,
        decreases REGION_BLOB_SIZE - i,
    {
        blob.push(0u8);
        i = i + 1;
    }
    proof {
        assert(blob@ =~= Seq::new(REGION_BLOB_SIZE as nat, |i: int| 0u8));
    }
    blob
}

/// A copy of a byte vector.
fn copy_bytes(bytes: &Vec<u8>) -> (copy: Vec<u8>)
    ensures
        copy@ == bytes@,
{
    let copy = bytes.clone();
    proof {
        assert(copy@ =~= bytes@);
    }
    copy
}

} // verus!
