//! Applying the pixels of one bucket to a region blob under the ownership
//! rules, and keeping count of what was claimed and what was taken.

use crate::board::AppliedPixel;
use crate::bucket::{RegionBucket, RegionPixel};
use crate::region::{
    encoded, is_local, offset_of, pixel_at, pixel_offset, Pixel, REGION_BLOB_SIZE,
};
use vstd::prelude::*;
use vstd::slice::slice_subrange;

verus! {

/// How long a pixel can be overwritten after its last write: one hour, in
/// milliseconds.
pub const OWNERSHIP_DURATION_MS: u64 = 3_600_000;

/// How many pixels an event took from one previous owner.
#[derive(Debug, Clone, Copy, PartialEq, Eq, Structural)]
pub struct Steal {
    pub owner_id: u32,
    pub count: i64,
}

/// What applying the pixels of one bucket did, besides changing the blob.
#[derive(Debug, PartialEq, Eq)]
pub struct RegionOutcome {
    /// The pixels that were written, in input order.
    pub written: Vec<RegionPixel>,
    /// The same pixels in world coordinates, with their new owner.
    pub applied: Vec<AppliedPixel>,
    /// How many of them were undrawn before.
    pub claimed: i64,
    /// How many of them were taken from each other owner, in the order in
    /// which the owners were first taken from.
    pub stolen: Vec<Steal>,
}

/// The running result of applying pixels to one region.
pub struct Tally {
    /// The region blob.
    pub blob: Seq<u8>,
    /// The pixels written so far.
    pub written: Seq<RegionPixel>,
    /// How many of them were undrawn before.
    pub claimed: int,
    /// How many of them were taken from each other owner.
    pub stolen: Seq<(u32, int)>,
}

/// The age of a write made at `ts`, seen at `now`; zero for a write from
/// the future.
pub open spec fn age(now: u64, ts: u64) -> int {
    if now >= ts {
        now - ts
    } else {
        0
    }
}

/// Whether a pixel may be written at `now`: it is undrawn, or its last
/// write is on record and younger than the ownership window. A drawn pixel
/// without a recorded write is permanent.
pub open spec fn is_writable(existing_owner: u32, score: Option<u64>, now: u64) -> bool {
    existing_owner == 0 || match score {
        Some(ts) => age(now, ts) < OWNERSHIP_DURATION_MS,
        None => false,
    }
}

/// A blob with the record at local `(lx, ly)` replaced by that of `p`.
pub open spec fn blob_with(blob: Seq<u8>, lx: int, ly: int, p: Pixel) -> Seq<u8> {
    blob.subrange(0, offset_of(lx, ly)) + encoded(p) + blob.subrange(
        offset_of(lx, ly) + 6,
        blob.len() as int,
    )
}

/// A position at which the steals hold `owner`, if they hold it.
pub open spec fn steal_index(stolen: Seq<(u32, int)>, owner: u32) -> int {
    choose|i: int| 0 <= i < stolen.len() && stolen[i].0 == owner
}

/// The steal counts with one more pixel taken from `owner`: the owner's
/// count is raised, or the owner is added with a count of one.
pub open spec fn steal_added(stolen: Seq<(u32, int)>, owner: u32) -> Seq<(u32, int)> {
    if exists|i: int| 0 <= i < stolen.len() && stolen[i].0 == owner {
        let i = steal_index(stolen, owner);
        stolen.update(i, (owner, stolen[i].1 + 1))
    } else {
        stolen.push((owner, 1))
    }
}

/// The tally after one more pixel: skipped when the pixel under it is not
/// writable; otherwise written, counted as claimed when the pixel was
/// undrawn, and as stolen when it belonged to another owner.
pub open spec fn tally_step(
    t: Tally,
    px: RegionPixel,
    score: Option<u64>,
    owner_id: u32,
    now: u64,
) -> Tally {
    let existing = pixel_at(t.blob, px.lx as int, px.ly as int);
    if is_writable(existing.owner_id, score, now) {
        Tally {
            blob: blob_with(
                t.blob,
                px.lx as int,
                px.ly as int,
                Pixel { r: px.r, g: px.g, b: px.b, owner_id },
            ),
            written: t.written.push(px),
            claimed: if existing.owner_id == 0 {
                t.claimed + 1
            } else {
                t.claimed
            },
            stolen: if existing.owner_id != 0 && existing.owner_id != owner_id {
                steal_added(t.stolen, existing.owner_id)
            } else {
                t.stolen
            },
        }
    } else {
        t
    }
}

/// The tally after applying `pixels` in order to `blob`, where `scores[i]`
/// is the recorded time of the last write to the place of `pixels[i]`.
pub open spec fn applied_tally(
    blob: Seq<u8>,
    pixels: Seq<RegionPixel>,
    scores: Seq<Option<u64>>,
    owner_id: u32,
    now: u64,
) -> Tally
    decreases pixels.len(),
{
    if pixels.len() == 0 {
        Tally { blob, written: Seq::empty(), claimed: 0, stolen: Seq::empty() }
    } else {
        tally_step(
            applied_tally(blob, pixels.drop_last(), scores.drop_last(), owner_id, now),
            pixels.last(),
            scores.last(),
            owner_id,
            now,
        )
    }
}

/// Whether no owner occurs twice among the steals.
pub open spec fn distinct_owners(stolen: Seq<(u32, int)>) -> bool {
    forall|i: int, j: int| 0 <= i < j < stolen.len() ==> stolen[i].0 != stolen[j].0
}

/// The sum of the steal counts.
pub open spec fn stolen_total(stolen: Seq<(u32, int)>) -> int
    decreases stolen.len(),
{
    if stolen.len() == 0 {
        0
    } else {
        stolen_total(stolen.drop_last()) + stolen.last().1
    }
}

/// The steal counts as mathematical values.
pub open spec fn steals_view(stolen: Seq<Steal>) -> Seq<(u32, int)> {
    Seq::new(stolen.len(), |i: int| (stolen[i].owner_id, stolen[i].count as int))
}

/// A written pixel in world coordinates, with its owner.
pub open spec fn applied_pixel(px: RegionPixel, rx: int, ry: int, owner_id: u32) -> AppliedPixel {
    AppliedPixel {
        x: (rx * 128 + px.lx) as i32,
        y: (ry * 128 + px.ly) as i32,
        r: px.r,
        g: px.g,
        b: px.b,
        owner_id,
    }
}

/// The written pixels in world coordinates, with their owner.
pub open spec fn applied_pixels(
    written: Seq<RegionPixel>,
    rx: int,
    ry: int,
    owner_id: u32,
) -> Seq<AppliedPixel> {
    Seq::new(written.len(), |i: int| applied_pixel(written[i], rx, ry, owner_id))
}

/// The pixel stored at local `(lx, ly)` of a region blob.
pub fn read_pixel(blob: &Vec<u8>, lx: usize, ly: usize) -> (p: Pixel)
    requires
        blob@.len() == REGION_BLOB_SIZE,
        is_local(lx as int, ly as int),
    ensures
        p == pixel_at(blob@, lx as int, ly as int),
{
    let offset = pixel_offset(lx, ly);
    Pixel::decode(slice_subrange(blob.as_slice(), offset, offset + 6))
}

/// Store a pixel at local `(lx, ly)` of a region blob.
pub fn write_pixel(blob: &mut Vec<u8>, lx: usize, ly: usize, p: &Pixel)
    requires
        old(blob)@.len() == REGION_BLOB_SIZE,
        is_local(lx as int, ly as int),
    ensures
        final(blob)@ == blob_with(old(blob)@, lx as int, ly as int, *p),
        final(blob)@.len() == REGION_BLOB_SIZE,
{
    let offset = pixel_offset(lx, ly);
    let parts = blob.as_mut_slice().split_at_mut(offset);
    p.encode(parts.1);
    proof {
        let tail = old(blob)@.subrange(offset as int, old(blob)@.len() as int);
        assert(parts.1@.subrange(6, tail.len() as int) =~= old(blob)@.subrange(
            offset + 6,
            old(blob)@.len() as int,
        ));
        assert(parts.1@ =~= parts.1@.subrange(0, 6) + parts.1@.subrange(6, tail.len() as int));
        assert(blob@ =~= blob_with(old(blob)@, lx as int, ly as int, *p));
    }
}

impl RegionOutcome {
    /// The counts are those of the written pixels: every steal count is
    /// positive, and claimed and stolen pixels together are no more than
    /// were written.
    pub open spec fn wf(&self) -> bool {
        &&& 0 <= self.claimed
        &&& forall|k: int| 0 <= k < self.stolen@.len() ==> (#[trigger] self.stolen@[k]).count >= 1
        &&& distinct_owners(steals_view(self.stolen@))
        &&& self.claimed + stolen_total(steals_view(self.stolen@)) <= self.written@.len()
        &&& self.written@.len() <= i64::MAX
        &&& self.applied@.len() == self.written@.len()
        &&& forall|k: int|
            0 <= k < self.written@.len() ==> is_local(
                (#[trigger] self.written@[k]).lx as int,
                self.written@[k].ly as int,
            )
    }
}

/// Raising one count raises the total by one.
pub proof fn lemma_stolen_total_update(stolen: Seq<(u32, int)>, i: int)
    requires
        0 <= i < stolen.len(),
    ensures
        stolen_total(stolen.update(i, (stolen[i].0, stolen[i].1 + 1))) == stolen_total(stolen) + 1,
    decreases stolen.len(),
{
    let after = stolen.update(i, (stolen[i].0, stolen[i].1 + 1));
    if i == stolen.len() - 1 {
        assert(after.drop_last() =~= stolen.drop_last());
    } else {
        lemma_stolen_total_update(stolen.drop_last(), i);
        assert(after.drop_last() =~= stolen.drop_last().update(
            i,
            (stolen[i].0, stolen[i].1 + 1),
        ));
    }
}

/// A count among non-negative counts is no more than the total.
pub proof fn lemma_stolen_count_le_total(stolen: Seq<(u32, int)>, i: int)
    requires
        0 <= i < stolen.len(),
        forall|k: int| 0 <= k < stolen.len() ==> (#[trigger] stolen[k]).1 >= 0,
    ensures
        stolen[i].1 <= stolen_total(stolen),
        0 <= stolen_total(stolen),
    decreases stolen.len(),
{
    lemma_stolen_total_nonnegative(stolen.drop_last());
    if i < stolen.len() - 1 {
        lemma_stolen_count_le_total(stolen.drop_last(), i);
    }
}

/// The total of non-negative counts is non-negative.
pub proof fn lemma_stolen_total_nonnegative(stolen: Seq<(u32, int)>)
    requires
        forall|k: int| 0 <= k < stolen.len() ==> (#[trigger] stolen[k]).1 >= 0,
    ensures
        0 <= stolen_total(stolen),
    decreases stolen.len(),
{
    if stolen.len() > 0 {
        lemma_stolen_total_nonnegative(stolen.drop_last());
    }
}

/// Whether every steal count is positive.
pub open spec fn positive_counts(stolen: Seq<(u32, int)>) -> bool {
    forall|k: int| 0 <= k < stolen.len() ==> (#[trigger] stolen[k]).1 >= 1
}

/// Raising one count keeps every count positive.
pub proof fn lemma_raised_count_positive(stolen: Seq<(u32, int)>, i: int)
    requires
        positive_counts(stolen),
        0 <= i < stolen.len(),
    ensures
        positive_counts(stolen.update(i, (stolen[i].0, stolen[i].1 + 1))),
{
    let after = stolen.update(i, (stolen[i].0, stolen[i].1 + 1));
    assert forall|k: int| 0 <= k < after.len() implies (#[trigger] after[k]).1 >= 1 by {
        if k != i {
            assert(after[k] == stolen[k]);
        }
    }
}

/// A first steal from an owner keeps every count positive and raises the
/// total by one.
pub proof fn lemma_first_steal(stolen: Seq<(u32, int)>, owner: u32)
    requires
        positive_counts(stolen),
    ensures
        positive_counts(stolen.push((owner, 1int))),
        stolen_total(stolen.push((owner, 1int))) == stolen_total(stolen) + 1,
{
    let after = stolen.push((owner, 1int));
    assert(after.drop_last() =~= stolen);
    assert forall|k: int| 0 <= k < after.len() implies (#[trigger] after[k]).1 >= 1 by {
        if k < stolen.len() {
            assert(after[k] == stolen[k]);
        }
    }
}

/// Counting one more steal keeps every count positive and raises the total
/// by one.
pub proof fn lemma_steal_added_total(stolen: Seq<(u32, int)>, owner: u32)
    requires
        positive_counts(stolen),
    ensures
        positive_counts(steal_added(stolen, owner)),
        stolen_total(steal_added(stolen, owner)) == stolen_total(stolen) + 1,
{
    if exists|i: int| 0 <= i < stolen.len() && stolen[i].0 == owner {
        let i = steal_index(stolen, owner);
        lemma_stolen_total_update(stolen, i);
        lemma_raised_count_positive(stolen, i);
        assert(steal_added(stolen, owner) == stolen.update(i, (stolen[i].0, stolen[i].1 + 1)));
    } else {
        lemma_first_steal(stolen, owner);
    }
}

/// Counting one more steal keeps the owners distinct.
pub proof fn lemma_steal_added_distinct(stolen: Seq<(u32, int)>, owner: u32)
    requires
        distinct_owners(stolen),
    ensures
        distinct_owners(steal_added(stolen, owner)),
{
    let after = steal_added(stolen, owner);
    if exists|i: int| 0 <= i < stolen.len() && stolen[i].0 == owner {
        assert forall|i: int, j: int| 0 <= i < j < after.len() implies after[i].0 != after[j].0 by {
            assert(after[i].0 == stolen[i].0);
            assert(after[j].0 == stolen[j].0);
        }
    } else {
        assert forall|i: int, j: int| 0 <= i < j < after.len() implies after[i].0 != after[j].0 by {
            if j < stolen.len() {
                assert(after[i] == stolen[i] && after[j] == stolen[j]);
            } else {
                assert(after[i] == stolen[i]);
            }
        }
    }
}

/// Count one more pixel taken from `owner`.
fn add_steal(stolen: &mut Vec<Steal>, owner: u32)
    requires
        forall|k: int| 0 <= k < old(stolen)@.len() ==> (#[trigger] old(stolen)@[k]).count >= 1,
        stolen_total(steals_view(old(stolen)@)) < i64::MAX,
        distinct_owners(steals_view(old(stolen)@)),
    ensures
        distinct_owners(steals_view(final(stolen)@)),
        steals_view(final(stolen)@) == steal_added(steals_view(old(stolen)@), owner),
        forall|k: int| 0 <= k < final(stolen)@.len() ==> (#[trigger] final(stolen)@[k]).count >= 1,
        stolen_total(steals_view(final(stolen)@)) == stolen_total(steals_view(old(stolen)@)) + 1,
{
    let ghost before = steals_view(stolen@);
    proof {
        lemma_steal_added_distinct(before, owner);
    }
    let mut j: usize = 0;
    while j < stolen.len() && stolen[j].owner_id != owner
        invariant
            j <= stolen@.len(),
            stolen@ == old(stolen)@,
            forall|k: int| 0 <= k < j ==> (#[trigger] stolen@[k]).owner_id != owner,
        decreases stolen@.len() - j,
    {
        j = j + 1;
    }
    if j < stolen.len() {
        proof {
            assert(before[j as int].0 == owner);
            let i = steal_index(before, owner);
            assert(i == j);
            assert forall|k: int| 0 <= k < before.len() implies (#[trigger] before[k]).1 >= 0 by {
                assert(stolen@[k].count >= 1);
            }
            lemma_stolen_count_le_total(before, j as int);
            lemma_stolen_total_update(before, j as int);
        }
        let count = stolen[j].count;
        stolen[j] = Steal { owner_id: owner, count: count + 1 };
        proof {
            assert(steals_view(stolen@) =~= before.update(
                j as int,
                (owner, before[j as int].1 + 1),
            ));
        }
    } else {
        proof {
            assert forall|i: int| 0 <= i < before.len() implies before[i].0 != owner by {
                assert(stolen@[i].owner_id != owner);
            }
        }
        stolen.push(Steal { owner_id: owner, count: 1 });
        proof {
            assert(steals_view(stolen@) =~= before.push((owner, 1)));
            assert(before.push((owner, 1)).drop_last() =~= before);
        }
    }
}

/// Apply the pixels of one bucket to its region blob under the ownership
/// rules. `scores[i]` is the time of the last recorded write to the place of
/// the bucket's `i`-th pixel, as the timestamp index held it before the
/// event. Pixels are applied in order; a pixel is skipped when the pixel
/// under it is drawn and its last write is not on record or at least one
/// ownership window old.
pub fn apply_pixels(
    blob: &mut Vec<u8>,
    bucket: &RegionBucket,
    scores: &Vec<Option<u64>>,
    owner_id: u32,
    now: u64,
) -> (out: RegionOutcome)
    requires
        old(blob)@.len() == REGION_BLOB_SIZE,
        bucket.wf(),
        scores@.len() == bucket.pixels@.len(),
        bucket.pixels@.len() <= i64::MAX,
    ensures
        final(blob)@ == applied_tally(old(blob)@, bucket.pixels@, scores@, owner_id, now).blob,
        out.written@ == applied_tally(old(blob)@, bucket.pixels@, scores@, owner_id, now).written,
        out.claimed == applied_tally(old(blob)@, bucket.pixels@, scores@, owner_id, now).claimed,
        steals_view(out.stolen@) == applied_tally(
            old(blob)@,
            bucket.pixels@,
            scores@,
            owner_id,
            now,
        ).stolen,
        out.applied@ == applied_pixels(out.written@, bucket.rx as int, bucket.ry as int, owner_id),
        final(blob)@.len() == REGION_BLOB_SIZE,
        out.written@.len() <= bucket.pixels@.len(),
        out.wf(),
{
    let mut written: Vec<RegionPixel> = Vec::new();
    let mut applied: Vec<AppliedPixel> = Vec::new();
    let mut claimed: i64 = 0;
    let mut stolen: Vec<Steal> = Vec::new();
    let ghost pixels = bucket.pixels@;
    let ghost start = blob@;
    let mut i: usize = 0;
    proof {
        assert(steals_view(stolen@) =~= Seq::empty());
        assert(applied@ =~= applied_pixels(written@, bucket.rx as int, bucket.ry as int, owner_id));
    }
    while i < bucket.pixels.len()
        invariant
            i <= pixels.len(),
            pixels == bucket.pixels@,
            pixels.len() <= i64::MAX,
            scores@.len() == pixels.len(),
            bucket.wf(),
            blob@.len() == REGION_BLOB_SIZE,
            blob@ == applied_tally(
                start,
                pixels.take(i as int),
                scores@.take(i as int),
                owner_id,
                now,
            ).blob,
            written@ == applied_tally(
                start,
                pixels.take(i as int),
                scores@.take(i as int),
                owner_id,
                now,
            ).written,
            claimed == applied_tally(
                start,
                pixels.take(i as int),
                scores@.take(i as int),
                owner_id,
                now,
            ).claimed,
            steals_view(stolen@) == applied_tally(
                start,
                pixels.take(i as int),
                scores@.take(i as int),
                owner_id,
                now,
            ).stolen,
            applied@ == applied_pixels(written@, bucket.rx as int, bucket.ry as int, owner_id),
            0 <= claimed,
            forall|k: int| 0 <= k < stolen@.len() ==> (#[trigger] stolen@[k]).count >= 1,
            distinct_owners(steals_view(stolen@)),
            claimed + stolen_total(steals_view(stolen@)) <= written@.len() <= i,
            forall|k: int|
                0 <= k < written@.len() ==> is_local(
                    (#[trigger] written@[k]).lx as int,
                    written@[k].ly as int,
                ),
        decreases pixels.len() - i,
    {
        proof {
            assert(pixels.take(i + 1).drop_last() =~= pixels.take(i as int));
            assert(scores@.take(i + 1).drop_last() =~= scores@.take(i as int));
            assert(pixels.take(i + 1).last() == pixels[i as int]);
            assert(scores@.take(i + 1).last() == scores@[i as int]);
            assert forall|k: int| 0 <= k < stolen@.len() implies (#[trigger] steals_view(
                stolen@,
            )[k]).1 >= 0 by {
                assert(stolen@[k].count >= 1);
            }
            lemma_stolen_total_nonnegative(steals_view(stolen@));
        }
        let px = bucket.pixels[i];
        let score = scores[i];
        let existing = read_pixel(blob, px.lx, px.ly);
        let writable = existing.owner_id == 0 || match score {
            Some(ts) => now.saturating_sub(ts) < OWNERSHIP_DURATION_MS,
            None => false,
        };
        if writable {
            if existing.owner_id == 0 {
                claimed = claimed + 1;
            } else if existing.owner_id != owner_id {
                add_steal(&mut stolen, existing.owner_id);
            }
            let new_pixel = Pixel { r: px.r, g: px.g, b: px.b, owner_id };
            write_pixel(blob, px.lx, px.ly, &new_pixel);
            let ghost written_before = written@;
            written.push(px);
            applied.push(
                AppliedPixel {
                    x: bucket.rx * 128 + px.lx as i32,
                    y: bucket.ry * 128 + px.ly as i32,
                    r: px.r,
                    g: px.g,
                    b: px.b,
                    owner_id,
                },
            );
            proof {
                assert(applied@ =~= applied_pixels(
                    written@,
                    bucket.rx as int,
                    bucket.ry as int,
                    owner_id,
                ));
            }
        }
        i = i + 1;
    }
    proof {
        assert(pixels.take(pixels.len() as int) =~= pixels);
        assert(scores@.take(pixels.len() as int) =~= scores@);
    }
    RegionOutcome { written, applied, claimed, stolen }
}

/// The total of a prefix of positive counts is no more than the total.
pub proof fn lemma_stolen_total_take(stolen: Seq<(u32, int)>, k: int)
    requires
        0 <= k <= stolen.len(),
        forall|j: int| 0 <= j < stolen.len() ==> (#[trigger] stolen[j]).1 >= 0,
    ensures
        stolen_total(stolen.take(k)) <= stolen_total(stolen),
    decreases stolen.len() - k,
{
    if k == stolen.len() {
        assert(stolen.take(k) =~= stolen);
    } else {
        lemma_stolen_total_take(stolen, k + 1);
        assert(stolen.take(k + 1).drop_last() =~= stolen.take(k));
    }
}

/// Add up the steal counts.
pub fn total_stolen(stolen: &Vec<Steal>) -> (total: i64)
    requires
        forall|k: int| 0 <= k < stolen@.len() ==> (#[trigger] stolen@[k]).count >= 1,
        stolen_total(steals_view(stolen@)) <= i64::MAX,
    ensures
        total == stolen_total(steals_view(stolen@)),
        0 <= total,
{
    let mut total: i64 = 0;
    let mut i: usize = 0;
    let ghost all = steals_view(stolen@);
    proof {
        assert(all.take(0) =~= Seq::empty());
    }
    while i < stolen.len()
        invariant
            i <= stolen@.len(),
            all == steals_view(stolen@),
            forall|k: int| 0 <= k < stolen@.len() ==> (#[trigger] stolen@[k]).count >= 1,
            total == stolen_total(all.take(i as int)),
            0 <= total,
            stolen_total(all) <= i64::MAX,
        decreases stolen@.len() - i,
    {
        proof {
            assert(all.take(i + 1).drop_last() =~= all.take(i as int));
            assert(all.take(i + 1).last() == all[i as int]);
            assert(all[i as int].1 == stolen@[i as int].count);
            lemma_stolen_total_take(all, i + 1);
        }
        total = total + stolen[i].count;
        i = i + 1;
    }
    proof {
        assert(all.take(stolen@.len() as int) =~= all);
    }
    total
}

} // verus!
