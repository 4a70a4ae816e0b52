//! The application of a whole draw event, as the server carries it out
//! region by region: what it writes to the store and which pixels it
//! applies. The reads of each region see the writes of the regions before
//! it, so a region that an earlier bucket of the same event opened is open
//! for a later one.

use crate::board::AppliedPixel;
use crate::bucket::RegionBucket;
use crate::canvas::{
    after_bucket, all_local, distinct_places, is_open, lemma_opened_are_open,
    lemma_undrawn_respect, open_commands, region_blob, region_tally,
};
use crate::consumer::{lemma_lists_unchanged, leaves_lists};
use crate::pipeline::{neighbors, region_pipeline};
use crate::region::{pixel_at, REGION_BLOB_SIZE};
use crate::store::{
    lemma_counter_after_run, lemma_run_concat, total_increment, CommandView, Store,
};
use crate::tally::applied_pixels;
use crate::valkey::{owner_name, region_name, ACCOUNT_PIXEL_COUNT, REGION_PIXEL_COUNT};
use vstd::prelude::*;

verus! {

/// What the server writes for one bucket, given the store as it is when the
/// bucket's turn comes: nothing for a closed region; for an open region the
/// region pipeline and, when the bucket claimed a pixel and the region's
/// count of claimed pixels stands at the threshold or above after the
/// pipeline, the opening of the four neighbors.
pub open spec fn region_writes(s: Store, bucket: RegionBucket, owner_id: u32, now: u64) -> Seq<
    CommandView,
> {
    let rx = bucket.rx as int;
    let ry = bucket.ry as int;
    if is_open(s, rx, ry) {
        let t = region_tally(s, rx, ry, bucket.pixels@, owner_id, now);
        let pipeline = region_pipeline(rx, ry, t, owner_id, now);
        if t.claimed > 0 && s.run(pipeline).counter(REGION_PIXEL_COUNT@, region_name(rx, ry))
            >= 3_276 {
            pipeline + open_commands(neighbors(rx, ry))
        } else {
            pipeline
        }
    } else {
        Seq::empty()
    }
}

/// The pixels that the server applies for one bucket.
pub open spec fn region_applied(s: Store, bucket: RegionBucket, owner_id: u32, now: u64) -> Seq<
    AppliedPixel,
> {
    let rx = bucket.rx as int;
    let ry = bucket.ry as int;
    if is_open(s, rx, ry) {
        applied_pixels(
            region_tally(s, rx, ry, bucket.pixels@, owner_id, now).written,
            rx,
            ry,
            owner_id,
        )
    } else {
        Seq::empty()
    }
}

/// What the server writes for the buckets of an event, in order.
pub open spec fn event_writes(
    s: Store,
    buckets: Seq<RegionBucket>,
    owner_id: u32,
    now: u64,
) -> Seq<CommandView>
    decreases buckets.len(),
{
    if buckets.len() == 0 {
        Seq::empty()
    } else {
        let before = event_writes(s, buckets.drop_last(), owner_id, now);
        before + region_writes(s.run(before), buckets.last(), owner_id, now)
    }
}

/// The pixels that the server applies for the buckets of an event.
pub open spec fn event_applied(
    s: Store,
    buckets: Seq<RegionBucket>,
    owner_id: u32,
    now: u64,
) -> Seq<AppliedPixel>
    decreases buckets.len(),
{
    if buckets.len() == 0 {
        Seq::empty()
    } else {
        let before = event_writes(s, buckets.drop_last(), owner_id, now);
        event_applied(s, buckets.drop_last(), owner_id, now) + region_applied(
            s.run(before),
            buckets.last(),
            owner_id,
            now,
        )
    }
}

/// An event whose regions are all closed applies nothing and writes
/// nothing: pixels outside the open regions are dropped without a trace.
pub proof fn lemma_closed_event(s: Store, buckets: Seq<RegionBucket>, owner_id: u32, now: u64)
    requires
        forall|k: int|
            0 <= k < buckets.len() ==> !is_open(
                s,
                (#[trigger] buckets[k]).rx as int,
                buckets[k].ry as int,
            ),
    ensures
        event_writes(s, buckets, owner_id, now) == Seq::<CommandView>::empty(),
        event_applied(s, buckets, owner_id, now) == Seq::<AppliedPixel>::empty(),
        s.run(event_writes(s, buckets, owner_id, now)) == s,
    decreases buckets.len(),
{
    if buckets.len() > 0 {
        let rest = buckets.drop_last();
        assert forall|k: int| 0 <= k < rest.len() implies !is_open(
            s,
            (#[trigger] rest[k]).rx as int,
            rest[k].ry as int,
        ) by {
            assert(rest[k] == buckets[k]);
        }
        lemma_closed_event(s, rest, owner_id, now);
        let last = buckets[buckets.len() - 1];
        assert(!is_open(s, last.rx as int, last.ry as int));
        assert(event_writes(s, buckets, owner_id, now) =~= Seq::<CommandView>::empty());
        assert(event_applied(s, buckets, owner_id, now) =~= Seq::<AppliedPixel>::empty());
    }
}

/// The writes of an event touch no list: the queues are the consumer's.
pub proof fn lemma_event_leaves_lists(
    s: Store,
    buckets: Seq<RegionBucket>,
    owner_id: u32,
    now: u64,
)
    ensures
        leaves_lists(event_writes(s, buckets, owner_id, now)),
        s.run(event_writes(s, buckets, owner_id, now)).lists == s.lists,
    decreases buckets.len(),
{
    if buckets.len() > 0 {
        lemma_event_leaves_lists(s, buckets.drop_last(), owner_id, now);
        let before = event_writes(s, buckets.drop_last(), owner_id, now);
        let last = region_writes(s.run(before), buckets.last(), owner_id, now);
        assert(leaves_lists(last));
        assert(leaves_lists(before + last)) by {
            assert forall|i: int| 0 <= i < (before + last).len() implies !((#[trigger] (before
                + last)[i]) is LPush) && !((before + last)[i] is LRem) by {
                if i < before.len() {
                    assert((before + last)[i] == before[i]);
                } else {
                    assert((before + last)[i] == last[i - before.len()]);
                }
            }
        }
    }
    lemma_lists_unchanged(s, event_writes(s, buckets, owner_id, now));
}

/// An event that targets only undrawn pixels of one open region, each place
/// once, applies every pixel, and the drawing owner's pixel count grows by
/// exactly their number.
pub proof fn lemma_undrawn_event(s: Store, bucket: RegionBucket, owner_id: u32, now: u64)
    requires
        is_open(s, bucket.rx as int, bucket.ry as int),
        region_blob(s, bucket.rx as int, bucket.ry as int).len() == REGION_BLOB_SIZE,
        all_local(bucket.pixels@),
        distinct_places(bucket.pixels@),
        bucket.pixels@.len() <= i64::MAX,
        forall|i: int|
            0 <= i < bucket.pixels@.len() ==> pixel_at(
                region_blob(s, bucket.rx as int, bucket.ry as int),
                (#[trigger] bucket.pixels@[i]).lx as int,
                bucket.pixels@[i].ly as int,
            ).owner_id == 0,
    ensures
        event_applied(s, seq![bucket], owner_id, now).len() == bucket.pixels@.len(),
        s.run(event_writes(s, seq![bucket], owner_id, now)).counter(
            ACCOUNT_PIXEL_COUNT@,
            owner_name(owner_id),
        ) == s.counter(ACCOUNT_PIXEL_COUNT@, owner_name(owner_id)) + bucket.pixels@.len(),
{
    let rx = bucket.rx as int;
    let ry = bucket.ry as int;
    let buckets = seq![bucket];
    assert(buckets.drop_last() =~= Seq::<RegionBucket>::empty());
    assert(buckets.last() == bucket);
    let none = event_writes(s, buckets.drop_last(), owner_id, now);
    assert(none =~= Seq::<CommandView>::empty());
    assert(s.run(none) == s);
    assert(event_writes(s, buckets, owner_id, now) =~= region_writes(s, bucket, owner_id, now));
    assert(event_applied(s, buckets.drop_last(), owner_id, now) =~= Seq::<AppliedPixel>::empty());
    assert(event_applied(s, buckets, owner_id, now) =~= region_applied(s, bucket, owner_id, now));
    lemma_undrawn_respect(s, rx, ry, bucket.pixels@, owner_id, now);
    let t = region_tally(s, rx, ry, bucket.pixels@, owner_id, now);
    let pipeline = region_pipeline(rx, ry, t, owner_id, now);
    assert(s.run(pipeline) == after_bucket(s, rx, ry, bucket.pixels@, owner_id, now));
    let opening = open_commands(neighbors(rx, ry));
    lemma_run_concat(s, pipeline, opening);
    lemma_counter_after_run(
        s.run(pipeline),
        opening,
        ACCOUNT_PIXEL_COUNT@,
        owner_name(owner_id),
    );
    lemma_no_increment_in_opening(neighbors(rx, ry), ACCOUNT_PIXEL_COUNT@, owner_name(owner_id));
}

/// The commands that open regions add nothing to any counter.
pub proof fn lemma_no_increment_in_opening(
    regions: Seq<(i32, i32)>,
    key: Seq<char>,
    field: Seq<char>,
)
    ensures
        total_increment(open_commands(regions), key, field) == 0,
    decreases regions.len(),
{
    if regions.len() > 0 {
        lemma_no_increment_in_opening(regions.drop_last(), key, field);
        assert(open_commands(regions).drop_last() =~= open_commands(regions.drop_last()));
    }
}

/// When the writes of a bucket raise its region's count of claimed pixels
/// from below the threshold to the threshold or above, the four cardinal
/// neighbors of the region are open afterwards.
pub proof fn lemma_expansion_in_event(s: Store, bucket: RegionBucket, owner_id: u32, now: u64)
    requires
        bucket.wf(),
        bucket.pixels@.len() <= i64::MAX,
        is_open(s, bucket.rx as int, bucket.ry as int),
        region_blob(s, bucket.rx as int, bucket.ry as int).len() == REGION_BLOB_SIZE,
        s.counter(REGION_PIXEL_COUNT@, region_name(bucket.rx as int, bucket.ry as int)) < 3_276,
        s.run(region_writes(s, bucket, owner_id, now)).counter(
            REGION_PIXEL_COUNT@,
            region_name(bucket.rx as int, bucket.ry as int),
        ) >= 3_276,
    ensures
        ({
            let after = s.run(region_writes(s, bucket, owner_id, now));
            &&& is_open(after, bucket.rx - 1, bucket.ry as int)
            &&& is_open(after, bucket.rx + 1, bucket.ry as int)
            &&& is_open(after, bucket.rx as int, bucket.ry - 1)
            &&& is_open(after, bucket.rx as int, bucket.ry + 1)
            &&& is_open(after, bucket.rx as int, bucket.ry as int)
        }),
{
    let rx = bucket.rx as int;
    let ry = bucket.ry as int;
    let t = region_tally(s, rx, ry, bucket.pixels@, owner_id, now);
    let pipeline = region_pipeline(rx, ry, t, owner_id, now);
    let opening = open_commands(neighbors(rx, ry));
    crate::canvas::lemma_tally_counts_fit(
        region_blob(s, rx, ry),
        bucket.pixels@,
        crate::canvas::scores_of(s, rx, ry, bucket.pixels@),
        owner_id,
        now,
    );
    crate::canvas::lemma_pipeline_statistics(rx, ry, t, owner_id, now, owner_id);
    lemma_counter_after_run(s, pipeline, REGION_PIXEL_COUNT@, region_name(rx, ry));
    lemma_no_increment_in_opening(neighbors(rx, ry), REGION_PIXEL_COUNT@, region_name(rx, ry));
    lemma_run_concat(s, pipeline, opening);
    lemma_counter_after_run(s.run(pipeline), opening, REGION_PIXEL_COUNT@, region_name(rx, ry));
    crate::canvas::lemma_pipeline_region_state(s, rx, ry, t, owner_id, now);
    assert(is_open(s.run(pipeline), rx, ry));
    crate::canvas::lemma_expansion_trigger(s, rx, ry, t, owner_id, now);
    lemma_opened_are_open(s.run(pipeline), neighbors(rx, ry));
}

} // verus!
