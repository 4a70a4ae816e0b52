//! What applying pixels does to a region, stated over blobs and tallies:
//! which pixels a write leaves alone, when a write is refused, and how the
//! counts come out.

use crate::board::{loaded_blob, RegionSnapshot};
use crate::bucket::{RegionBucket, RegionPixel};
use crate::pipeline::{neighbors, region_pipeline, steal_decrements, trim_bound, upserts};
use crate::tally::{
    applied_tally, blob_with, is_writable, lemma_stolen_total_nonnegative, positive_counts,
    stolen_total, tally_step, Tally,
};
use crate::store::{
    is_hash_write, lemma_counter_after_run, lemma_hash_writes_frame, lemma_run_concat,
    lemma_run_one, lemma_total_increment_concat, lemma_total_increment_one,
    lemma_upserted_members, total_increment, upserted, CommandView, Store,
};
use crate::text::decimal;
use crate::valkey::{
    lemma_member_name_injective, lemma_owner_name_injective, member_name, owner_name,
    pixel_ts_key_text, region_key_text, region_meta_key_text, region_name, ACCOUNT_PIXEL_COUNT,
    LAST_UPDATED, OPEN_REGIONS, REGION_PIXEL_COUNT,
};
use crate::region::{
    encoded, is_local, is_owner_id, is_region_coord, lemma_codec_round_trip, offset_of, pixel_at,
    Pixel, REGION_BLOB_SIZE,
};
use vstd::prelude::*;

verus! {

/// Whether every pixel lies inside a region.
pub open spec fn all_local(pixels: Seq<RegionPixel>) -> bool {
    forall|i: int|
        0 <= i < pixels.len() ==> is_local((#[trigger] pixels[i]).lx as int, pixels[i].ly as int)
}

/// Whether a pixel of `pixels` lies at local `(x, y)`.
pub open spec fn targets(pixels: Seq<RegionPixel>, x: int, y: int) -> bool {
    exists|i: int| 0 <= i < pixels.len() && (#[trigger] pixels[i]).lx == x && pixels[i].ly == y
}

/// Whether no two pixels lie at the same place.
pub open spec fn distinct_places(pixels: Seq<RegionPixel>) -> bool {
    forall|i: int, j: int|
        0 <= i < j < pixels.len() ==> !((#[trigger] pixels[i]).lx == (#[trigger] pixels[j]).lx
            && pixels[i].ly == pixels[j].ly)
}

/// Whether less than one ownership window lies between a write at `t0` and
/// an event at `now`.
pub open spec fn within_window(t0: u64, now: u64) -> bool {
    now - t0 < 3_600_000
}

/// The six bytes of the record at local `(x, y)`.
pub open spec fn record_at(blob: Seq<u8>, x: int, y: int) -> Seq<u8> {
    blob.subrange(offset_of(x, y), offset_of(x, y) + 6)
}

/// Writing a record changes the six bytes of its place to the record and
/// no byte of any other place.
pub proof fn lemma_write_is_local(blob: Seq<u8>, lx: int, ly: int, p: Pixel, x: int, y: int)
    requires
        blob.len() == REGION_BLOB_SIZE,
        is_local(lx, ly),
        is_local(x, y),
    ensures
        blob_with(blob, lx, ly, p).len() == REGION_BLOB_SIZE,
        (x == lx && y == ly) ==> record_at(blob_with(blob, lx, ly, p), x, y) == encoded(p),
        !(x == lx && y == ly) ==> record_at(blob_with(blob, lx, ly, p), x, y) == record_at(
            blob,
            x,
            y,
        ),
{
    let after = blob_with(blob, lx, ly, p);
    let off = offset_of(lx, ly);
    let at = offset_of(x, y);
    assert(0 <= off <= REGION_BLOB_SIZE - 6);
    assert(0 <= at <= REGION_BLOB_SIZE - 6);
    assert(encoded(p).len() == 6);
    assert(after.len() == REGION_BLOB_SIZE);
    if x == lx && y == ly {
        assert(record_at(after, x, y) =~= encoded(p));
    } else {
        assert(at + 6 <= off || off + 6 <= at);
        assert(record_at(after, x, y) =~= record_at(blob, x, y));
    }
}

/// One step of a tally keeps the blob a region blob, and leaves alone every
/// place but that of its pixel.
pub proof fn lemma_step_frame(
    t: Tally,
    px: RegionPixel,
    score: Option<u64>,
    owner_id: u32,
    now: u64,
    x: int,
    y: int,
)
    requires
        t.blob.len() == REGION_BLOB_SIZE,
        is_local(px.lx as int, px.ly as int),
        is_local(x, y),
        !(px.lx == x && px.ly == y),
    ensures
        tally_step(t, px, score, owner_id, now).blob.len() == REGION_BLOB_SIZE,
        record_at(tally_step(t, px, score, owner_id, now).blob, x, y) == record_at(t.blob, x, y),
{
    lemma_write_is_local(
        t.blob,
        px.lx as int,
        px.ly as int,
        Pixel { r: px.r, g: px.g, b: px.b, owner_id },
        x,
        y,
    );
}

/// Applying pixels keeps the blob a region blob and writes no more pixels
/// than it was given.
pub proof fn lemma_tally_shape(
    blob: Seq<u8>,
    pixels: Seq<RegionPixel>,
    scores: Seq<Option<u64>>,
    owner_id: u32,
    now: u64,
)
    requires
        blob.len() == REGION_BLOB_SIZE,
        scores.len() == pixels.len(),
        all_local(pixels),
    ensures
        applied_tally(blob, pixels, scores, owner_id, now).blob.len() == REGION_BLOB_SIZE,
        applied_tally(blob, pixels, scores, owner_id, now).written.len() <= pixels.len(),
        all_local(applied_tally(blob, pixels, scores, owner_id, now).written),
    decreases pixels.len(),
{
    if pixels.len() > 0 {
        let before = applied_tally(blob, pixels.drop_last(), scores.drop_last(), owner_id, now);
        let px = pixels.last();
        assert(all_local(pixels.drop_last())) by {
            assert forall|i: int| 0 <= i < pixels.drop_last().len() implies is_local(
                (#[trigger] pixels.drop_last()[i]).lx as int,
                pixels.drop_last()[i].ly as int,
            ) by {
                assert(pixels.drop_last()[i] == pixels[i]);
            }
        }
        lemma_tally_shape(blob, pixels.drop_last(), scores.drop_last(), owner_id, now);
        lemma_write_is_local(
            before.blob,
            px.lx as int,
            px.ly as int,
            Pixel { r: px.r, g: px.g, b: px.b, owner_id },
            px.lx as int,
            px.ly as int,
        );
        let after = applied_tally(blob, pixels, scores, owner_id, now);
        assert forall|i: int| 0 <= i < after.written.len() implies is_local(
            (#[trigger] after.written[i]).lx as int,
            after.written[i].ly as int,
        ) by {
            if i < before.written.len() {
                assert(after.written[i] == before.written[i]);
            }
        }
    }
}

/// A place that no pixel targets keeps its record, and no written pixel
/// lies there.
pub proof fn lemma_untargeted_unchanged(
    blob: Seq<u8>,
    pixels: Seq<RegionPixel>,
    scores: Seq<Option<u64>>,
    owner_id: u32,
    now: u64,
    x: int,
    y: int,
)
    requires
        blob.len() == REGION_BLOB_SIZE,
        scores.len() == pixels.len(),
        all_local(pixels),
        is_local(x, y),
        !targets(pixels, x, y),
    ensures
        record_at(applied_tally(blob, pixels, scores, owner_id, now).blob, x, y) == record_at(
            blob,
            x,
            y,
        ),
        !targets(applied_tally(blob, pixels, scores, owner_id, now).written, x, y),
    decreases pixels.len(),
{
    if pixels.len() > 0 {
        let rest = pixels.drop_last();
        let before = applied_tally(blob, rest, scores.drop_last(), owner_id, now);
        let px = pixels.last();
        assert(pixels[pixels.len() - 1] == px);
        assert(all_local(rest)) by {
            assert forall|i: int| 0 <= i < rest.len() implies is_local(
                (#[trigger] rest[i]).lx as int,
                rest[i].ly as int,
            ) by {
                assert(rest[i] == pixels[i]);
            }
        }
        assert(!targets(rest, x, y)) by {
            if targets(rest, x, y) {
                let i = choose|i: int|
                    0 <= i < rest.len() && (#[trigger] rest[i]).lx == x && rest[i].ly == y;
                assert(pixels[i] == rest[i]);
            }
        }
        lemma_untargeted_unchanged(blob, rest, scores.drop_last(), owner_id, now, x, y);
        lemma_tally_shape(blob, rest, scores.drop_last(), owner_id, now);
        lemma_step_frame(before, px, scores.last(), owner_id, now, x, y);
        let after = applied_tally(blob, pixels, scores, owner_id, now);
        if targets(after.written, x, y) {
            let i = choose|i: int|
                0 <= i < after.written.len() && (#[trigger] after.written[i]).lx == x
                    && after.written[i].ly == y;
            if i < before.written.len() {
                assert(before.written[i] == after.written[i]);
            }
        }
    }
}

/// A drawn pixel that is not writable at the time of the event keeps its
/// record whatever the event targets: a pixel whose timestamp entry is gone,
/// or is at least one ownership window old, cannot be overwritten. Here
/// `scores[i]` must be the score of the place of `pixels[i]`, so that every
/// pixel at `(x, y)` comes with `score`.
pub proof fn lemma_permanent_pixel_unchanged(
    blob: Seq<u8>,
    pixels: Seq<RegionPixel>,
    scores: Seq<Option<u64>>,
    owner_id: u32,
    now: u64,
    x: int,
    y: int,
    score: Option<u64>,
)
    requires
        blob.len() == REGION_BLOB_SIZE,
        scores.len() == pixels.len(),
        all_local(pixels),
        is_local(x, y),
        pixel_at(blob, x, y).owner_id != 0,
        !is_writable(pixel_at(blob, x, y).owner_id, score, now),
        forall|i: int|
            0 <= i < pixels.len() && (#[trigger] pixels[i]).lx == x && pixels[i].ly == y
                ==> scores[i] == score,
    ensures
        record_at(applied_tally(blob, pixels, scores, owner_id, now).blob, x, y) == record_at(
            blob,
            x,
            y,
        ),
        !targets(applied_tally(blob, pixels, scores, owner_id, now).written, x, y),
    decreases pixels.len(),
{
    if pixels.len() > 0 {
        let rest = pixels.drop_last();
        let before = applied_tally(blob, rest, scores.drop_last(), owner_id, now);
        let px = pixels.last();
        assert(pixels[pixels.len() - 1] == px);
        assert(all_local(rest)) by {
            assert forall|i: int| 0 <= i < rest.len() implies is_local(
                (#[trigger] rest[i]).lx as int,
                rest[i].ly as int,
            ) by {
                assert(rest[i] == pixels[i]);
            }
        }
        assert forall|i: int|
            0 <= i < rest.len() && (#[trigger] rest[i]).lx == x && rest[i].ly
                == y implies scores.drop_last()[i] == score by {
            assert(rest[i] == pixels[i]);
        }
        lemma_permanent_pixel_unchanged(blob, rest, scores.drop_last(), owner_id, now, x, y, score);
        lemma_tally_shape(blob, rest, scores.drop_last(), owner_id, now);
        let after = applied_tally(blob, pixels, scores, owner_id, now);
        if px.lx == x && px.ly == y {
            assert(scores.last() == score);
            assert(pixel_at(before.blob, x, y) == pixel_at(blob, x, y));
            assert(after == before);
        } else {
            lemma_step_frame(before, px, scores.last(), owner_id, now, x, y);
            if targets(after.written, x, y) {
                let i = choose|i: int|
                    0 <= i < after.written.len() && (#[trigger] after.written[i]).lx == x
                        && after.written[i].ly == y;
                if i < before.written.len() {
                    assert(before.written[i] == after.written[i]);
                }
            }
        }
    }
}

/// Pixels that all target drawn places that are not writable at the time
/// of the event change nothing: the blob stays byte for byte as it is,
/// nothing is written, claimed or taken.
pub proof fn lemma_all_refused(
    blob: Seq<u8>,
    pixels: Seq<RegionPixel>,
    scores: Seq<Option<u64>>,
    owner_id: u32,
    now: u64,
)
    requires
        scores.len() == pixels.len(),
        forall|i: int|
            0 <= i < pixels.len() ==> !is_writable(
                pixel_at(blob, (#[trigger] pixels[i]).lx as int, pixels[i].ly as int).owner_id,
                scores[i],
                now,
            ),
    ensures
        applied_tally(blob, pixels, scores, owner_id, now) == (Tally {
            blob,
            written: Seq::empty(),
            claimed: 0,
            stolen: Seq::empty(),
        }),
    decreases pixels.len(),
{
    if pixels.len() > 0 {
        let rest = pixels.drop_last();
        assert forall|i: int| 0 <= i < rest.len() implies !is_writable(
            pixel_at(blob, (#[trigger] rest[i]).lx as int, rest[i].ly as int).owner_id,
            scores.drop_last()[i],
            now,
        ) by {
            assert(rest[i] == pixels[i]);
        }
        lemma_all_refused(blob, rest, scores.drop_last(), owner_id, now);
        assert(pixels[pixels.len() - 1] == pixels.last());
    }
}

/// Pixels that target only undrawn places, each place once, are all
/// written, all count as claimed, and take nothing from anyone.
pub proof fn lemma_undrawn_all_written(
    blob: Seq<u8>,
    pixels: Seq<RegionPixel>,
    scores: Seq<Option<u64>>,
    owner_id: u32,
    now: u64,
)
    requires
        blob.len() == REGION_BLOB_SIZE,
        scores.len() == pixels.len(),
        all_local(pixels),
        distinct_places(pixels),
        forall|i: int|
            0 <= i < pixels.len() ==> pixel_at(
                blob,
                (#[trigger] pixels[i]).lx as int,
                pixels[i].ly as int,
            ).owner_id == 0,
    ensures
        applied_tally(blob, pixels, scores, owner_id, now).written == pixels,
        applied_tally(blob, pixels, scores, owner_id, now).claimed == pixels.len(),
        applied_tally(blob, pixels, scores, owner_id, now).stolen == Seq::<(u32, int)>::empty(),
    decreases pixels.len(),
{
    if pixels.len() == 0 {
        assert(applied_tally(blob, pixels, scores, owner_id, now).written =~= pixels);
    } else {
        let rest = pixels.drop_last();
        let before = applied_tally(blob, rest, scores.drop_last(), owner_id, now);
        let px = pixels.last();
        assert(pixels[pixels.len() - 1] == px);
        assert(all_local(rest)) by {
            assert forall|i: int| 0 <= i < rest.len() implies is_local(
                (#[trigger] rest[i]).lx as int,
                rest[i].ly as int,
            ) by {
                assert(rest[i] == pixels[i]);
            }
        }
        assert(distinct_places(rest)) by {
            assert forall|i: int, j: int| 0 <= i < j < rest.len() implies !((
            #[trigger] rest[i]).lx == (#[trigger] rest[j]).lx && rest[i].ly == rest[j].ly) by {
                assert(rest[i] == pixels[i]);
                assert(rest[j] == pixels[j]);
            }
        }
        assert forall|i: int| 0 <= i < rest.len() implies pixel_at(
            blob,
            (#[trigger] rest[i]).lx as int,
            rest[i].ly as int,
        ).owner_id == 0 by {
            assert(rest[i] == pixels[i]);
        }
        lemma_undrawn_all_written(blob, rest, scores.drop_last(), owner_id, now);
        assert(!targets(rest, px.lx as int, px.ly as int)) by {
            if targets(rest, px.lx as int, px.ly as int) {
                let i = choose|i: int|
                    0 <= i < rest.len() && (#[trigger] rest[i]).lx == px.lx as int && rest[i].ly
                        == px.ly as int;
                assert(rest[i] == pixels[i]);
            }
        }
        lemma_untargeted_unchanged(
            blob,
            rest,
            scores.drop_last(),
            owner_id,
            now,
            px.lx as int,
            px.ly as int,
        );
        assert(pixel_at(before.blob, px.lx as int, px.ly as int) == pixel_at(
            blob,
            px.lx as int,
            px.ly as int,
        ));
        assert(applied_tally(blob, pixels, scores, owner_id, now).written =~= pixels);
    }
}

/// A single write to a pixel that `previous` drew at `t0`, made by another
/// owner at `now`, goes through exactly if less than one ownership window
/// lies between the two; it then leaves the pixel with the new owner,
/// claims nothing, and takes one pixel from `previous`.
pub proof fn lemma_ownership_window(
    blob: Seq<u8>,
    px: RegionPixel,
    t0: u64,
    previous: u32,
    owner_id: u32,
    now: u64,
)
    requires
        blob.len() == REGION_BLOB_SIZE,
        is_local(px.lx as int, px.ly as int),
        pixel_at(blob, px.lx as int, px.ly as int).owner_id == previous,
        is_owner_id(previous),
        is_owner_id(owner_id),
        previous != owner_id,
    ensures
        ({
            let t = applied_tally(blob, seq![px], seq![Some(t0)], owner_id, now);
            let written = within_window(t0, now);
            &&& written <==> t.written == seq![px]
            &&& !written <==> t.written == Seq::<RegionPixel>::empty()
            &&& !written ==> t.blob == blob && t.stolen == Seq::<(u32, int)>::empty()
            &&& written ==> pixel_at(t.blob, px.lx as int, px.ly as int) == (Pixel {
                r: px.r,
                g: px.g,
                b: px.b,
                owner_id,
            })
            &&& written ==> t.stolen == seq![(previous, 1int)]
            &&& t.claimed == 0
        }),
{
    let pixels = seq![px];
    let scores = seq![Some(t0)];
    let start = applied_tally(blob, pixels.drop_last(), scores.drop_last(), owner_id, now);
    assert(pixels.drop_last() =~= Seq::<RegionPixel>::empty());
    assert(start.blob == blob);
    assert(start.written =~= Seq::<RegionPixel>::empty());
    assert(start.stolen =~= Seq::<(u32, int)>::empty());
    let t = applied_tally(blob, pixels, scores, owner_id, now);
    assert(t == tally_step(start, px, Some(t0), owner_id, now));
    let new_pixel = Pixel { r: px.r, g: px.g, b: px.b, owner_id };
    if within_window(t0, now) {
        assert(is_writable(previous, Some(t0), now));
        assert(t.written =~= seq![px]);
        assert(t.stolen =~= seq![(previous, 1int)]);
        lemma_write_is_local(blob, px.lx as int, px.ly as int, new_pixel, px.lx as int, px.ly as int);
        lemma_codec_round_trip(new_pixel);
        assert(seq![px].len() == 1);
    } else {
        assert(!is_writable(previous, Some(t0), now));
        assert(seq![px].len() == 1);
    }
}

/// The blob of a region as the store holds it: all-zero where the store
/// holds nothing.
pub open spec fn region_blob(s: Store, rx: int, ry: int) -> Seq<u8> {
    loaded_blob(s.blob(region_key_text(rx, ry)))
}

/// Whether a region is in the set of open regions.
pub open spec fn is_open(s: Store, rx: int, ry: int) -> bool {
    s.set(OPEN_REGIONS@).contains(region_name(rx, ry))
}

/// The recorded time of the last write to local `(x, y)` of a region.
pub open spec fn last_write(s: Store, rx: int, ry: int, x: int, y: int) -> Option<u64> {
    s.score(pixel_ts_key_text(rx, ry), member_name(x, y))
}

/// For each pixel the recorded time of the last write to its place.
pub open spec fn scores_of(s: Store, rx: int, ry: int, pixels: Seq<RegionPixel>) -> Seq<
    Option<u64>,
> {
    Seq::new(pixels.len(), |i: int| last_write(s, rx, ry, pixels[i].lx as int, pixels[i].ly as int))
}

/// The tally of applying a bucket to an open region as the store holds it.
pub open spec fn region_tally(
    s: Store,
    rx: int,
    ry: int,
    pixels: Seq<RegionPixel>,
    owner_id: u32,
    now: u64,
) -> Tally {
    applied_tally(region_blob(s, rx, ry), pixels, scores_of(s, rx, ry, pixels), owner_id, now)
}

/// The store after a bucket was applied and its pipeline issued: unchanged
/// for a region that is not open.
pub open spec fn after_bucket(
    s: Store,
    rx: int,
    ry: int,
    pixels: Seq<RegionPixel>,
    owner_id: u32,
    now: u64,
) -> Store {
    if is_open(s, rx, ry) {
        s.run(region_pipeline(rx, ry, region_tally(s, rx, ry, pixels, owner_id, now), owner_id, now))
    } else {
        s
    }
}

/// Whether a snapshot is what the store holds for the region of a bucket:
/// closed for a region that is not open; for an open region its blob and,
/// for each pixel of the bucket, the recorded time of the last write to its
/// place.
pub open spec fn faithful_snapshot(s: Store, bucket: RegionBucket, snapshot: RegionSnapshot) -> bool {
    match snapshot {
        RegionSnapshot::Closed => !is_open(s, bucket.rx as int, bucket.ry as int),
        RegionSnapshot::Open { blob, scores } => {
            &&& is_open(s, bucket.rx as int, bucket.ry as int)
            &&& blob@ == region_blob(s, bucket.rx as int, bucket.ry as int)
            &&& scores@ == scores_of(s, bucket.rx as int, bucket.ry as int, bucket.pixels@)
        },
    }
}

/// How many pixels a list of steals takes from `account`.
pub open spec fn stolen_from(stolen: Seq<(u32, int)>, account: u32) -> int
    decreases stolen.len(),
{
    if stolen.len() == 0 {
        0
    } else {
        stolen_from(stolen.drop_last(), account) + if stolen.last().0 == account {
            stolen.last().1
        } else {
            0
        }
    }
}

/// Whether the counts of a tally fit the pipeline's 64-bit increments.
pub open spec fn counts_fit(t: Tally) -> bool {
    &&& 0 <= t.claimed
    &&& forall|k: int| 0 <= k < t.stolen.len() ==> 0 <= (#[trigger] t.stolen[k]).1 <= i64::MAX
    &&& t.claimed + stolen_total(t.stolen) <= i64::MAX
}

/// The counts of a tally of at most 2^63 - 1 pixels fit the pipeline's
/// increments: no count is negative, and together they are no more than
/// the pixels written.
pub proof fn lemma_tally_counts_fit(
    blob: Seq<u8>,
    pixels: Seq<RegionPixel>,
    scores: Seq<Option<u64>>,
    owner_id: u32,
    now: u64,
)
    requires
        pixels.len() <= i64::MAX,
        scores.len() == pixels.len(),
    ensures
        counts_fit(applied_tally(blob, pixels, scores, owner_id, now)),
        positive_counts(applied_tally(blob, pixels, scores, owner_id, now).stolen),
        applied_tally(blob, pixels, scores, owner_id, now).claimed + stolen_total(
            applied_tally(blob, pixels, scores, owner_id, now).stolen,
        ) <= applied_tally(blob, pixels, scores, owner_id, now).written.len() <= pixels.len(),
    decreases pixels.len(),
{
    let t = applied_tally(blob, pixels, scores, owner_id, now);
    if pixels.len() > 0 {
        let before = applied_tally(blob, pixels.drop_last(), scores.drop_last(), owner_id, now);
        lemma_tally_counts_fit(blob, pixels.drop_last(), scores.drop_last(), owner_id, now);
        let existing = pixel_at(before.blob, pixels.last().lx as int, pixels.last().ly as int);
        if is_writable(existing.owner_id, scores.last(), now) && existing.owner_id != 0
            && existing.owner_id != owner_id {
            crate::tally::lemma_steal_added_total(before.stolen, existing.owner_id);
        }
    }
    assert forall|k: int| 0 <= k < t.stolen.len() implies 0 <= (#[trigger] t.stolen[k]).1
        <= i64::MAX by {
        lemma_stolen_total_nonnegative(t.stolen);
        crate::tally::lemma_stolen_count_le_total(t.stolen, k);
    }
}

/// The two statistics hashes have different keys.
pub proof fn lemma_statistics_keys_differ()
    ensures
        ACCOUNT_PIXEL_COUNT@ != REGION_PIXEL_COUNT@,
{
    reveal_strlit("account_pixel_count");
    reveal_strlit("region_pixel_count");
    assert(ACCOUNT_PIXEL_COUNT@[0] == 'a');
    assert(REGION_PIXEL_COUNT@[0] == 'r');
}

/// The decrements of the owners taken from take from an account's counter
/// what was taken from the account, and leave the region counters alone.
pub proof fn lemma_steal_decrements_total(
    stolen: Seq<(u32, int)>,
    account: u32,
    field: Seq<char>,
)
    requires
        forall|k: int| 0 <= k < stolen.len() ==> 0 <= (#[trigger] stolen[k]).1 <= i64::MAX,
    ensures
        total_increment(steal_decrements(stolen), ACCOUNT_PIXEL_COUNT@, owner_name(account))
            == -stolen_from(stolen, account),
        total_increment(steal_decrements(stolen), REGION_PIXEL_COUNT@, field) == 0,
    decreases stolen.len(),
{
    lemma_statistics_keys_differ();
    if stolen.len() > 0 {
        let rest = stolen.drop_last();
        assert forall|k: int| 0 <= k < rest.len() implies 0 <= (#[trigger] rest[k]).1
            <= i64::MAX by {
            assert(rest[k] == stolen[k]);
        }
        lemma_steal_decrements_total(rest, account, field);
        assert(steal_decrements(stolen).drop_last() =~= steal_decrements(rest));
        let last = stolen[stolen.len() - 1];
        assert(steal_decrements(stolen).last() == CommandView::HIncrBy {
            key: ACCOUNT_PIXEL_COUNT@,
            field: owner_name(last.0),
            delta: (-last.1) as i64,
        });
        if owner_name(last.0) == owner_name(account) {
            lemma_owner_name_injective(last.0, account);
        }
    }
}

/// The parts of a region pipeline: the timestamp upserts, if any.
pub open spec fn pipeline_upserts(rx: int, ry: int, t: Tally, now: u64) -> Seq<CommandView> {
    if t.written.len() > 0 {
        seq![CommandView::ZAdd { key: pixel_ts_key_text(rx, ry), entries: upserts(t.written, now) }]
    } else {
        Seq::<CommandView>::empty()
    }
}

/// The parts of a region pipeline: the statistics and metadata writes that
/// follow the blob.
pub open spec fn pipeline_hash_writes(
    rx: int,
    ry: int,
    t: Tally,
    owner_id: u32,
    now: u64,
) -> Seq<CommandView> {
    seq![
        CommandView::HSet {
            key: region_meta_key_text(rx, ry),
            field: LAST_UPDATED@,
            value: decimal(now as int),
        },
    ] + seq![
        CommandView::HIncrBy {
            key: ACCOUNT_PIXEL_COUNT@,
            field: owner_name(owner_id),
            delta: (t.claimed + stolen_total(t.stolen)) as i64,
        },
    ] + steal_decrements(t.stolen) + (if t.claimed > 0 {
        seq![
            CommandView::HIncrBy {
                key: REGION_PIXEL_COUNT@,
                field: region_name(rx, ry),
                delta: t.claimed as i64,
            },
        ]
    } else {
        Seq::<CommandView>::empty()
    })
}

/// A region pipeline is its upserts, the trim, the blob, and the hash
/// writes, in this order.
pub proof fn lemma_pipeline_parts(rx: int, ry: int, t: Tally, owner_id: u32, now: u64)
    ensures
        region_pipeline(rx, ry, t, owner_id, now) == pipeline_upserts(rx, ry, t, now) + seq![
            CommandView::ZRemRangeByScore {
                key: pixel_ts_key_text(rx, ry),
                min: 0,
                max: trim_bound(now),
            },
        ] + seq![CommandView::SetBlob { key: region_key_text(rx, ry), value: t.blob }]
            + pipeline_hash_writes(rx, ry, t, owner_id, now),
        forall|i: int|
            0 <= i < pipeline_hash_writes(rx, ry, t, owner_id, now).len() ==> is_hash_write(
                #[trigger] pipeline_hash_writes(rx, ry, t, owner_id, now)[i],
            ),
{
    assert(region_pipeline(rx, ry, t, owner_id, now) =~= pipeline_upserts(rx, ry, t, now) + seq![
        CommandView::ZRemRangeByScore {
            key: pixel_ts_key_text(rx, ry),
            min: 0,
            max: trim_bound(now),
        },
    ] + seq![CommandView::SetBlob { key: region_key_text(rx, ry), value: t.blob }]
        + pipeline_hash_writes(rx, ry, t, owner_id, now));
}

/// What a region pipeline does to the statistics: the drawing owner gains
/// the pixels it claimed and took, every owner loses what was taken from
/// it, and the region's count grows by the claimed pixels.
pub proof fn lemma_pipeline_statistics(
    rx: int,
    ry: int,
    t: Tally,
    owner_id: u32,
    now: u64,
    account: u32,
)
    requires
        counts_fit(t),
    ensures
        total_increment(
            region_pipeline(rx, ry, t, owner_id, now),
            ACCOUNT_PIXEL_COUNT@,
            owner_name(account),
        ) == (if account == owner_id {
            t.claimed + stolen_total(t.stolen)
        } else {
            0
        }) - stolen_from(t.stolen, account),
        total_increment(
            region_pipeline(rx, ry, t, owner_id, now),
            REGION_PIXEL_COUNT@,
            region_name(rx, ry),
        ) == t.claimed,
{
    lemma_statistics_keys_differ();
    lemma_pipeline_parts(rx, ry, t, owner_id, now);
    lemma_stolen_total_nonnegative(t.stolen);
    let ups = pipeline_upserts(rx, ry, t, now);
    let trim = CommandView::ZRemRangeByScore {
        key: pixel_ts_key_text(rx, ry),
        min: 0,
        max: trim_bound(now),
    };
    let set_blob = CommandView::SetBlob { key: region_key_text(rx, ry), value: t.blob };
    let meta = CommandView::HSet {
        key: region_meta_key_text(rx, ry),
        field: LAST_UPDATED@,
        value: decimal(now as int),
    };
    let gain = CommandView::HIncrBy {
        key: ACCOUNT_PIXEL_COUNT@,
        field: owner_name(owner_id),
        delta: (t.claimed + stolen_total(t.stolen)) as i64,
    };
    let steals = steal_decrements(t.stolen);
    let count = if t.claimed > 0 {
        seq![
            CommandView::HIncrBy {
                key: REGION_PIXEL_COUNT@,
                field: region_name(rx, ry),
                delta: t.claimed as i64,
            },
        ]
    } else {
        Seq::<CommandView>::empty()
    };
    let whole = region_pipeline(rx, ry, t, owner_id, now);
    assert(whole == ups + seq![trim] + seq![set_blob] + (seq![meta] + seq![gain] + steals + count));
    let keys = seq![ACCOUNT_PIXEL_COUNT@, REGION_PIXEL_COUNT@];
    let fields = seq![owner_name(account), region_name(rx, ry)];
    assert forall|n: int| 0 <= n < 2 implies total_increment(whole, keys[n], fields[n])
        == total_increment(seq![gain], keys[n], fields[n]) + total_increment(
        steals,
        keys[n],
        fields[n],
    ) + total_increment(count, keys[n], fields[n]) by {
        let k = keys[n];
        let f = fields[n];
        lemma_total_increment_concat(
            ups + seq![trim] + seq![set_blob],
            seq![meta] + seq![gain] + steals + count,
            k,
            f,
        );
        lemma_total_increment_concat(ups + seq![trim], seq![set_blob], k, f);
        lemma_total_increment_concat(ups, seq![trim], k, f);
        lemma_total_increment_concat(seq![meta] + seq![gain] + steals, count, k, f);
        lemma_total_increment_concat(seq![meta] + seq![gain], steals, k, f);
        lemma_total_increment_concat(seq![meta], seq![gain], k, f);
        lemma_total_increment_one(trim, k, f);
        lemma_total_increment_one(set_blob, k, f);
        lemma_total_increment_one(meta, k, f);
        if t.written.len() > 0 {
            lemma_total_increment_one(ups[0], k, f);
            assert(ups =~= seq![ups[0]]);
        }
    }
    assert(keys[0] == ACCOUNT_PIXEL_COUNT@ && fields[0] == owner_name(account));
    assert(keys[1] == REGION_PIXEL_COUNT@ && fields[1] == region_name(rx, ry));
    lemma_steal_decrements_total(t.stolen, account, region_name(rx, ry));
    lemma_total_increment_one(gain, ACCOUNT_PIXEL_COUNT@, owner_name(account));
    lemma_total_increment_one(gain, REGION_PIXEL_COUNT@, region_name(rx, ry));
    if t.claimed > 0 {
        lemma_total_increment_one(count[0], ACCOUNT_PIXEL_COUNT@, owner_name(account));
        lemma_total_increment_one(count[0], REGION_PIXEL_COUNT@, region_name(rx, ry));
        assert(count =~= seq![count[0]]);
    }
    if owner_name(account) == owner_name(owner_id) {
        lemma_owner_name_injective(account, owner_id);
    }
}

/// What a region pipeline leaves in the store besides the statistics: the
/// blob of the tally under the region's key, and in the timestamp index the
/// old entries and the upserts, less those that the trim removes.
pub proof fn lemma_pipeline_region_state(
    s: Store,
    rx: int,
    ry: int,
    t: Tally,
    owner_id: u32,
    now: u64,
)
    ensures
        s.run(region_pipeline(rx, ry, t, owner_id, now)).blob(region_key_text(rx, ry)) == t.blob,
        s.run(region_pipeline(rx, ry, t, owner_id, now)).sets == s.sets,
        s.run(region_pipeline(rx, ry, t, owner_id, now)).lists == s.lists,
        forall|m: Seq<char>|
            (#[trigger] s.run(region_pipeline(rx, ry, t, owner_id, now)).score(
                pixel_ts_key_text(rx, ry),
                m,
            )) == ({
                let merged = upserted(
                    s.sorted_set(pixel_ts_key_text(rx, ry)),
                    upserts(t.written, now),
                );
                if merged.contains_key(m) && !(merged[m] <= trim_bound(now)) {
                    Some(merged[m])
                } else {
                    None
                }
            }),
{
    lemma_pipeline_parts(rx, ry, t, owner_id, now);
    let key = pixel_ts_key_text(rx, ry);
    let ups = pipeline_upserts(rx, ry, t, now);
    let trim = CommandView::ZRemRangeByScore {
        key,
        min: 0,
        max: trim_bound(now),
    };
    let set_blob = CommandView::SetBlob { key: region_key_text(rx, ry), value: t.blob };
    let hash_writes = pipeline_hash_writes(rx, ry, t, owner_id, now);
    let upserted_store = s.run(ups);
    let trimmed_store = upserted_store.apply(trim);
    let blob_store = trimmed_store.apply(set_blob);
    let final_store = blob_store.run(hash_writes);
    lemma_run_concat(s, ups + seq![trim] + seq![set_blob], hash_writes);
    lemma_run_concat(s, ups + seq![trim], seq![set_blob]);
    lemma_run_concat(s, ups, seq![trim]);
    lemma_run_one(upserted_store, trim);
    lemma_run_one(trimmed_store, set_blob);
    lemma_hash_writes_frame(blob_store, hash_writes);
    assert(s.run(region_pipeline(rx, ry, t, owner_id, now)) == final_store);
    let merged = upserted(s.sorted_set(key), upserts(t.written, now));
    if t.written.len() > 0 {
        lemma_run_one(s, ups[0]);
        assert(ups =~= seq![ups[0]]);
        assert(upserted_store.sorted_set(key) == merged);
    } else {
        assert(upserts(t.written, now) =~= Seq::<(Seq<char>, u64)>::empty());
        assert(upserted_store == s);
        assert(upserted_store.sorted_set(key) == merged);
    }
    assert(upserted_store.blobs == s.blobs);
    assert(upserted_store.sets == s.sets && upserted_store.lists == s.lists);
    assert forall|m: Seq<char>| (#[trigger] final_store.score(key, m)) == (if merged.contains_key(m) && !(
    merged[m] <= trim_bound(now)) {
        Some(merged[m])
    } else {
        None
    }) by {
        assert(final_store.sorted_set(key) == trimmed_store.sorted_set(key));
    }
}

/// Pixels that target only undrawn places of an open region, each place
/// once, are all applied, and the drawing owner's pixel count grows by
/// exactly their number.
pub proof fn lemma_undrawn_respect(
    s: Store,
    rx: int,
    ry: int,
    pixels: Seq<RegionPixel>,
    owner_id: u32,
    now: u64,
)
    requires
        is_open(s, rx, ry),
        region_blob(s, rx, ry).len() == REGION_BLOB_SIZE,
        all_local(pixels),
        distinct_places(pixels),
        pixels.len() <= i64::MAX,
        forall|i: int|
            0 <= i < pixels.len() ==> pixel_at(
                region_blob(s, rx, ry),
                (#[trigger] pixels[i]).lx as int,
                pixels[i].ly as int,
            ).owner_id == 0,
    ensures
        region_tally(s, rx, ry, pixels, owner_id, now).written == pixels,
        after_bucket(s, rx, ry, pixels, owner_id, now).counter(
            ACCOUNT_PIXEL_COUNT@,
            owner_name(owner_id),
        ) == s.counter(ACCOUNT_PIXEL_COUNT@, owner_name(owner_id)) + pixels.len(),
        after_bucket(s, rx, ry, pixels, owner_id, now).counter(
            REGION_PIXEL_COUNT@,
            region_name(rx, ry),
        ) == s.counter(REGION_PIXEL_COUNT@, region_name(rx, ry)) + pixels.len(),
{
    let t = region_tally(s, rx, ry, pixels, owner_id, now);
    lemma_undrawn_all_written(
        region_blob(s, rx, ry),
        pixels,
        scores_of(s, rx, ry, pixels),
        owner_id,
        now,
    );
    assert(stolen_total(t.stolen) == 0);
    assert(stolen_from(t.stolen, owner_id) == 0);
    lemma_pipeline_statistics(rx, ry, t, owner_id, now, owner_id);
    let pipeline = region_pipeline(rx, ry, t, owner_id, now);
    lemma_counter_after_run(s, pipeline, ACCOUNT_PIXEL_COUNT@, owner_name(owner_id));
    lemma_counter_after_run(s, pipeline, REGION_PIXEL_COUNT@, region_name(rx, ry));
}

/// A pixel of an open region that owner `a` drew at `t0`, written by
/// another owner `b` at `now`: the write is applied exactly if less than
/// one ownership window lies between the two, and then `a` has one pixel
/// less and `b` one more. A refused write changes no pixel count.
pub proof fn lemma_ownership_change(
    s: Store,
    rx: int,
    ry: int,
    px: RegionPixel,
    a: u32,
    b: u32,
    t0: u64,
    now: u64,
)
    requires
        is_open(s, rx, ry),
        region_blob(s, rx, ry).len() == REGION_BLOB_SIZE,
        is_local(px.lx as int, px.ly as int),
        pixel_at(region_blob(s, rx, ry), px.lx as int, px.ly as int).owner_id == a,
        last_write(s, rx, ry, px.lx as int, px.ly as int) == Some(t0),
        is_owner_id(a),
        is_owner_id(b),
        a != b,
    ensures
        within_window(t0, now) <==> region_tally(s, rx, ry, seq![px], b, now).written == seq![px],
        !within_window(t0, now) <==> region_tally(s, rx, ry, seq![px], b, now).written
            == Seq::<RegionPixel>::empty(),
        after_bucket(s, rx, ry, seq![px], b, now).counter(ACCOUNT_PIXEL_COUNT@, owner_name(a))
            == s.counter(ACCOUNT_PIXEL_COUNT@, owner_name(a)) - if within_window(t0, now) {
            1int
        } else {
            0int
        },
        after_bucket(s, rx, ry, seq![px], b, now).counter(ACCOUNT_PIXEL_COUNT@, owner_name(b))
            == s.counter(ACCOUNT_PIXEL_COUNT@, owner_name(b)) + if within_window(t0, now) {
            1int
        } else {
            0int
        },
        within_window(t0, now) ==> pixel_at(
            region_blob(after_bucket(s, rx, ry, seq![px], b, now), rx, ry),
            px.lx as int,
            px.ly as int,
        ).owner_id == b,
{
    let pixels = seq![px];
    assert(scores_of(s, rx, ry, pixels) =~= seq![Some(t0)]);
    let t = region_tally(s, rx, ry, pixels, b, now);
    lemma_ownership_window(region_blob(s, rx, ry), px, t0, a, b, now);
    if within_window(t0, now) {
        let stolen = seq![(a, 1int)];
        assert(t.stolen == stolen);
        assert(stolen.drop_last() =~= Seq::<(u32, int)>::empty());
        assert(stolen.last() == (a, 1int));
        assert(stolen_total(stolen.drop_last()) == 0);
        assert(stolen_from(stolen.drop_last(), a) == 0);
        assert(stolen_from(stolen.drop_last(), b) == 0);
        assert(stolen_total(stolen) == 1);
        assert(stolen_from(stolen, a) == 1);
        assert(stolen_from(stolen, b) == 0);
    } else {
        assert(stolen_total(t.stolen) == 0);
        assert(stolen_from(t.stolen, a) == 0);
        assert(stolen_from(t.stolen, b) == 0);
    }
    lemma_pipeline_statistics(rx, ry, t, b, now, a);
    lemma_pipeline_statistics(rx, ry, t, b, now, b);
    let pipeline = region_pipeline(rx, ry, t, b, now);
    lemma_counter_after_run(s, pipeline, ACCOUNT_PIXEL_COUNT@, owner_name(a));
    lemma_counter_after_run(s, pipeline, ACCOUNT_PIXEL_COUNT@, owner_name(b));
    lemma_pipeline_region_state(s, rx, ry, t, b, now);
    if within_window(t0, now) {
        lemma_write_is_local(
            region_blob(s, rx, ry),
            px.lx as int,
            px.ly as int,
            Pixel { r: px.r, g: px.g, b: px.b, owner_id: b },
            px.lx as int,
            px.ly as int,
        );
    }
}

/// A drawn pixel of an open region whose timestamp entry is gone cannot be
/// overwritten: whatever is applied to the region, by whomever and
/// whenever, the pixel's bytes stay as they are and its entry stays gone,
/// so the same holds of every later event.
pub proof fn lemma_permanence(
    s: Store,
    rx: int,
    ry: int,
    pixels: Seq<RegionPixel>,
    owner_id: u32,
    now: u64,
    x: int,
    y: int,
)
    requires
        is_open(s, rx, ry),
        region_blob(s, rx, ry).len() == REGION_BLOB_SIZE,
        all_local(pixels),
        is_local(x, y),
        pixel_at(region_blob(s, rx, ry), x, y).owner_id != 0,
        last_write(s, rx, ry, x, y) is None,
    ensures
        record_at(region_blob(after_bucket(s, rx, ry, pixels, owner_id, now), rx, ry), x, y)
            == record_at(region_blob(s, rx, ry), x, y),
        last_write(after_bucket(s, rx, ry, pixels, owner_id, now), rx, ry, x, y) is None,
        region_blob(after_bucket(s, rx, ry, pixels, owner_id, now), rx, ry).len()
            == REGION_BLOB_SIZE,
        is_open(after_bucket(s, rx, ry, pixels, owner_id, now), rx, ry),
{
    let blob = region_blob(s, rx, ry);
    let scores = scores_of(s, rx, ry, pixels);
    let t = region_tally(s, rx, ry, pixels, owner_id, now);
    lemma_permanent_pixel_unchanged(blob, pixels, scores, owner_id, now, x, y, None);
    lemma_tally_shape(blob, pixels, scores, owner_id, now);
    lemma_pipeline_region_state(s, rx, ry, t, owner_id, now);
    let entries = upserts(t.written, now);
    let m = member_name(x, y);
    assert forall|i: int| 0 <= i < entries.len() implies (#[trigger] entries[i]).0 != m by {
        let w = t.written[i];
        if entries[i].0 == m {
            lemma_member_name_injective(w.lx as int, w.ly as int, x, y);
            assert(targets(t.written, x, y));
        }
    }
    lemma_upserted_members(s.sorted_set(pixel_ts_key_text(rx, ry)), entries, m);
    let after = after_bucket(s, rx, ry, pixels, owner_id, now);
    assert(after.score(pixel_ts_key_text(rx, ry), m) is None);
}

/// A drawn pixel whose last write is at least one ownership window old at
/// the time of an event is not overwritten by it, and the event's trim
/// removes its timestamp entry: from then on the pixel is permanent.
pub proof fn lemma_expiry(
    s: Store,
    rx: int,
    ry: int,
    pixels: Seq<RegionPixel>,
    owner_id: u32,
    now: u64,
    x: int,
    y: int,
    t0: u64,
)
    requires
        is_open(s, rx, ry),
        region_blob(s, rx, ry).len() == REGION_BLOB_SIZE,
        all_local(pixels),
        is_local(x, y),
        pixel_at(region_blob(s, rx, ry), x, y).owner_id != 0,
        last_write(s, rx, ry, x, y) == Some(t0),
        now - t0 >= 3_600_000,
    ensures
        record_at(region_blob(after_bucket(s, rx, ry, pixels, owner_id, now), rx, ry), x, y)
            == record_at(region_blob(s, rx, ry), x, y),
        last_write(after_bucket(s, rx, ry, pixels, owner_id, now), rx, ry, x, y) is None,
{
    let blob = region_blob(s, rx, ry);
    let scores = scores_of(s, rx, ry, pixels);
    let t = region_tally(s, rx, ry, pixels, owner_id, now);
    lemma_permanent_pixel_unchanged(blob, pixels, scores, owner_id, now, x, y, Some(t0));
    lemma_tally_shape(blob, pixels, scores, owner_id, now);
    lemma_pipeline_region_state(s, rx, ry, t, owner_id, now);
    let entries = upserts(t.written, now);
    let m = member_name(x, y);
    assert forall|i: int| 0 <= i < entries.len() implies (#[trigger] entries[i]).0 != m by {
        let w = t.written[i];
        if entries[i].0 == m {
            lemma_member_name_injective(w.lx as int, w.ly as int, x, y);
            assert(targets(t.written, x, y));
        }
    }
    lemma_upserted_members(s.sorted_set(pixel_ts_key_text(rx, ry)), entries, m);
    let after = after_bucket(s, rx, ry, pixels, owner_id, now);
    assert(after.score(pixel_ts_key_text(rx, ry), m) is None);
}

/// A bucket for a region that is not open changes nothing in the store.
pub proof fn lemma_gate_closure(
    s: Store,
    rx: int,
    ry: int,
    pixels: Seq<RegionPixel>,
    owner_id: u32,
    now: u64,
)
    requires
        !is_open(s, rx, ry),
    ensures
        after_bucket(s, rx, ry, pixels, owner_id, now) == s,
        s.run(Seq::<CommandView>::empty()) == s,
{
}

/// The commands that open the given regions.
pub open spec fn open_commands(regions: Seq<(i32, i32)>) -> Seq<CommandView> {
    Seq::new(
        regions.len(),
        |i: int|
            CommandView::SAdd {
                key: OPEN_REGIONS@,
                member: region_name(regions[i].0 as int, regions[i].1 as int),
            },
    )
}

/// After the commands that open regions, each of them is open, and every
/// region that was open still is.
pub proof fn lemma_opened_are_open(s: Store, regions: Seq<(i32, i32)>)
    ensures
        forall|k: int|
            0 <= k < regions.len() ==> is_open(
                s.run(open_commands(regions)),
                (#[trigger] regions[k]).0 as int,
                regions[k].1 as int,
            ),
        forall|rx: int, ry: int|
            is_open(s, rx, ry) ==> #[trigger] is_open(s.run(open_commands(regions)), rx, ry),
    decreases regions.len(),
{
    if regions.len() > 0 {
        let rest = regions.drop_last();
        lemma_opened_are_open(s, rest);
        assert(open_commands(regions).drop_last() =~= open_commands(rest));
        let mid = s.run(open_commands(rest));
        let after = s.run(open_commands(regions));
        assert(after == mid.apply(open_commands(regions).last()));
        assert forall|k: int| 0 <= k < regions.len() implies is_open(
            after,
            (#[trigger] regions[k]).0 as int,
            regions[k].1 as int,
        ) by {
            if k < rest.len() {
                assert(rest[k] == regions[k]);
                assert(is_open(mid, rest[k].0 as int, rest[k].1 as int));
            }
        }
        assert forall|rx: int, ry: int| is_open(s, rx, ry) implies #[trigger] is_open(
            after,
            rx,
            ry,
        ) by {
            assert(is_open(mid, rx, ry));
        }
    }
}

/// When a pipeline raises a region's count of claimed pixels to the
/// threshold, the bucket claimed a pixel, so the count is read and the
/// neighbors are opened; after the commands that open them, all four
/// cardinal neighbors of the region are open.
pub proof fn lemma_expansion_trigger(
    s: Store,
    rx: int,
    ry: int,
    t: Tally,
    owner_id: u32,
    now: u64,
)
    requires
        counts_fit(t),
        is_region_coord(rx),
        is_region_coord(ry),
        s.counter(REGION_PIXEL_COUNT@, region_name(rx, ry)) < 3_276,
        s.run(region_pipeline(rx, ry, t, owner_id, now)).counter(
            REGION_PIXEL_COUNT@,
            region_name(rx, ry),
        ) >= 3_276,
    ensures
        t.claimed > 0,
        ({
            let opened = s.run(region_pipeline(rx, ry, t, owner_id, now)).run(
                open_commands(neighbors(rx, ry)),
            );
            &&& is_open(opened, rx - 1, ry)
            &&& is_open(opened, rx + 1, ry)
            &&& is_open(opened, rx, ry - 1)
            &&& is_open(opened, rx, ry + 1)
        }),
{
    lemma_pipeline_statistics(rx, ry, t, owner_id, now, owner_id);
    lemma_counter_after_run(
        s,
        region_pipeline(rx, ry, t, owner_id, now),
        REGION_PIXEL_COUNT@,
        region_name(rx, ry),
    );
    let written = s.run(region_pipeline(rx, ry, t, owner_id, now));
    lemma_opened_are_open(written, neighbors(rx, ry));
    let n = neighbors(rx, ry);
    assert(n[0] == ((rx - 1) as i32, ry as i32));
    assert(n[1] == ((rx + 1) as i32, ry as i32));
    assert(n[2] == (rx as i32, (ry - 1) as i32));
    assert(n[3] == (rx as i32, (ry + 1) as i32));
}

/// An event that targets only permanent pixels of an open region, drawn
/// pixels whose timestamp entry is gone, leaves the region's blob byte for
/// byte as it is.
pub proof fn lemma_permanent_pixels_keep_blob(
    s: Store,
    rx: int,
    ry: int,
    pixels: Seq<RegionPixel>,
    owner_id: u32,
    now: u64,
)
    requires
        is_open(s, rx, ry),
        forall|i: int|
            0 <= i < pixels.len() ==> pixel_at(
                region_blob(s, rx, ry),
                (#[trigger] pixels[i]).lx as int,
                pixels[i].ly as int,
            ).owner_id != 0 && last_write(s, rx, ry, pixels[i].lx as int, pixels[i].ly as int)
                is None,
    ensures
        region_tally(s, rx, ry, pixels, owner_id, now).written == Seq::<RegionPixel>::empty(),
        region_blob(after_bucket(s, rx, ry, pixels, owner_id, now), rx, ry) == region_blob(
            s,
            rx,
            ry,
        ),
{
    let blob = region_blob(s, rx, ry);
    let scores = scores_of(s, rx, ry, pixels);
    lemma_all_refused(blob, pixels, scores, owner_id, now);
    let t = region_tally(s, rx, ry, pixels, owner_id, now);
    lemma_pipeline_region_state(s, rx, ry, t, owner_id, now);
    assert(loaded_blob(blob) == blob) by {
        if s.blob(region_key_text(rx, ry)).len() == 0 {
            assert(blob.len() == REGION_BLOB_SIZE);
        }
    }
}

} // verus!
