//! The writes that persist an applied bucket, and the opening of
//! neighboring regions once a region is drawn enough.

use crate::region::{is_region_coord, REGION_OPEN_THRESHOLD};
use crate::store::{
    entries_view, lemma_entries_view_push, lemma_pipeline_view_push, pipeline_view, Command,
    CommandView, ScoredMember,
};
use crate::bucket::RegionPixel;
use crate::tally::{
    lemma_stolen_total_nonnegative, steals_view, stolen_total, total_stolen, RegionOutcome, Steal,
    Tally, OWNERSHIP_DURATION_MS,
};
use crate::text::decimal;
use crate::valkey::{
    decimal_string, member_name, owner_field, owner_name, pixel_ts_key, pixel_ts_key_text,
    region_field, region_key, region_key_text, region_meta_key, region_meta_key_text, region_name,
    ts_member, ACCOUNT_PIXEL_COUNT, LAST_UPDATED, OPEN_REGIONS, REGION_PIXEL_COUNT,
};
use vstd::prelude::*;
use vstd::string::*;

verus! {

/// The timestamp upserts of the written pixels: each under its member
/// name, scored with the time of the event.
pub open spec fn upserts(written: Seq<RegionPixel>, now: u64) -> Seq<(Seq<char>, u64)> {
    Seq::new(written.len(), |i: int| (member_name(written[i].lx as int, written[i].ly as int), now))
}

/// The decrements of the owners that pixels were taken from.
pub open spec fn steal_decrements(stolen: Seq<(u32, int)>) -> Seq<CommandView> {
    Seq::new(
        stolen.len(),
        |i: int|
            CommandView::HIncrBy {
                key: ACCOUNT_PIXEL_COUNT@,
                field: owner_name(stolen[i].0),
                delta: (-stolen[i].1) as i64,
            },
    )
}

/// The upper bound of the timestamp trim: one ownership window before
/// `now`, and zero where that would be negative.
pub open spec fn trim_bound(now: u64) -> u64 {
    if now >= 3_600_000 {
        (now - 3_600_000) as u64
    } else {
        0
    }
}

/// The writes that persist the result of applying one bucket, in the order
/// in which they are issued: the timestamp upserts (when a pixel was
/// written), the trim of expired timestamps, the blob, the time of the
/// update, the gain of the drawing owner, the loss of each owner that was
/// taken from, and the count of claimed pixels of the region (when
/// positive).
pub open spec fn region_pipeline(
    rx: int,
    ry: int,
    t: Tally,
    owner_id: u32,
    now: u64,
) -> Seq<CommandView> {
    (if t.written.len() > 0 {
        seq![CommandView::ZAdd { key: pixel_ts_key_text(rx, ry), entries: upserts(t.written, now) }]
    } else {
        Seq::<CommandView>::empty()
    }) + seq![
        CommandView::ZRemRangeByScore {
            key: pixel_ts_key_text(rx, ry),
            min: 0,
            max: trim_bound(now),
        },
        CommandView::SetBlob { key: region_key_text(rx, ry), value: t.blob },
        CommandView::HSet {
            key: region_meta_key_text(rx, ry),
            field: LAST_UPDATED@,
            value: decimal(now as int),
        },
        CommandView::HIncrBy {
            key: ACCOUNT_PIXEL_COUNT@,
            field: owner_name(owner_id),
            delta: (t.claimed + stolen_total(t.stolen)) as i64,
        },
    ] + steal_decrements(t.stolen) + (if t.claimed > 0 {
        seq![
            CommandView::HIncrBy {
                key: REGION_PIXEL_COUNT@,
                field: region_name(rx, ry),
                delta: t.claimed as i64,
            },
        ]
    } else {
        Seq::<CommandView>::empty()
    })
}

impl RegionOutcome {
    /// The outcome as a tally, with the blob it left.
    pub open spec fn tally(&self, blob: Seq<u8>) -> Tally {
        Tally {
            blob,
            written: self.written@,
            claimed: self.claimed as int,
            stolen: steals_view(self.stolen@),
        }
    }
}

/// Build the timestamp upserts of the written pixels.
fn upsert_entries(written: &Vec<RegionPixel>, now: u64) -> (entries: Vec<ScoredMember>)
    ensures
        entries_view(entries@) == upserts(written@, now),
{
    let mut entries: Vec<ScoredMember> = Vec::new();
    let mut i: usize = 0;
    proof {
        assert(entries_view(entries@) =~= upserts(written@, now).take(0));
    }
    while i < written.len()
        invariant
            i <= written@.len(),
            entries_view(entries@) == upserts(written@, now).take(i as int),
        decreases written@.len() - i,
    {
        let px = written[i];
        let entry = ScoredMember { member: ts_member(px.lx, px.ly), score: now };
        proof {
            lemma_entries_view_push(entries@, entry);
            assert(upserts(written@, now).take(i + 1) =~= upserts(written@, now).take(
                i as int,
            ).push(entry@));
        }
        entries.push(entry);
        i = i + 1;
    }
    proof {
        assert(upserts(written@, now).take(written@.len() as int) =~= upserts(written@, now));
    }
    entries
}

/// Append the decrements of the owners that pixels were taken from.
fn push_steal_decrements(commands: &mut Vec<Command>, stolen: &Vec<Steal>)
    requires
        forall|k: int| 0 <= k < stolen@.len() ==> (#[trigger] stolen@[k]).count >= 1,
    ensures
        pipeline_view(final(commands)@) == pipeline_view(old(commands)@) + steal_decrements(
            steals_view(stolen@),
        ),
{
    let ghost start = pipeline_view(commands@);
    let ghost all = steal_decrements(steals_view(stolen@));
    let mut j: usize = 0;
    proof {
        assert(pipeline_view(commands@) =~= start + all.take(0));
    }
    while j < stolen.len()
        invariant
            j <= stolen@.len(),
            all == steal_decrements(steals_view(stolen@)),
            forall|k: int| 0 <= k < stolen@.len() ==> (#[trigger] stolen@[k]).count >= 1,
            pipeline_view(commands@) == start + all.take(j as int),
        decreases stolen@.len() - j,
    {
        let steal = stolen[j];
        let command = Command::HIncrBy {
            key: String::from_str(ACCOUNT_PIXEL_COUNT),
            field: owner_field(steal.owner_id),
            delta: -steal.count,
        };
        proof {
            lemma_pipeline_view_push(commands@, command);
            assert(command@ == all[j as int]);
            assert(start + all.take(j + 1) =~= (start + all.take(j as int)).push(command@));
        }
        commands.push(command);
        j = j + 1;
    }
    proof {
        assert(all.take(stolen@.len() as int) =~= all);
    }
}

/// Build the pipeline that persists the result of applying one bucket.
/// `blob` is the region blob as the application left it.
pub fn region_commands(
    rx: i32,
    ry: i32,
    outcome: &RegionOutcome,
    blob: Vec<u8>,
    owner_id: u32,
    now: u64,
) -> (commands: Vec<Command>)
    requires
        outcome.wf(),
    ensures
        pipeline_view(commands@) == region_pipeline(
            rx as int,
            ry as int,
            outcome.tally(blob@),
            owner_id,
            now,
        ),
{
    let ghost t = outcome.tally(blob@);
    proof {
        assert forall|k: int| 0 <= k < t.stolen.len() implies (#[trigger] t.stolen[k]).1 >= 0 by {
            assert(outcome.stolen@[k].count >= 1);
        }
        lemma_stolen_total_nonnegative(t.stolen);
    }
    let total = total_stolen(&outcome.stolen);
    let mut commands: Vec<Command> = Vec::new();
    if outcome.written.len() > 0 {
        commands.push(
            Command::ZAdd {
                key: pixel_ts_key(rx, ry),
                entries: upsert_entries(&outcome.written, now),
            },
        );
    }
    commands.push(
        Command::ZRemRangeByScore {
            key: pixel_ts_key(rx, ry),
            min: 0,
            max: now.saturating_sub(OWNERSHIP_DURATION_MS),
        },
    );
    commands.push(Command::SetBlob { key: region_key(rx, ry), value: blob });
    commands.push(
        Command::HSet {
            key: region_meta_key(rx, ry),
            field: String::from_str(LAST_UPDATED),
            value: decimal_string(now),
        },
    );
    commands.push(
        Command::HIncrBy {
            key: String::from_str(ACCOUNT_PIXEL_COUNT),
            field: owner_field(owner_id),
            delta: outcome.claimed + total,
        },
    );
    push_steal_decrements(&mut commands, &outcome.stolen);
    if outcome.claimed > 0 {
        let count = Command::HIncrBy {
            key: String::from_str(REGION_PIXEL_COUNT),
            field: region_field(rx, ry),
            delta: outcome.claimed,
        };
        proof {
            lemma_pipeline_view_push(commands@, count);
        }
        commands.push(count);
    }
    proof {
        assert(pipeline_view(commands@) =~= region_pipeline(
            rx as int,
            ry as int,
            t,
            owner_id,
            now,
        ));
    }
    commands
}

/// The four cardinal neighbors of a region: left, right, up, down.
pub open spec fn neighbors(rx: int, ry: int) -> Seq<(i32, i32)> {
    seq![
        ((rx - 1) as i32, ry as i32),
        ((rx + 1) as i32, ry as i32),
        (rx as i32, (ry - 1) as i32),
        (rx as i32, (ry + 1) as i32),
    ]
}

/// The regions to open after a bucket was applied: the four cardinal
/// neighbors of the region when the bucket claimed a pixel and the region's
/// claimed count, read after the pipeline, has reached the threshold; none
/// otherwise.
pub fn expansion_targets(rx: i32, ry: i32, claimed: i64, count: i64) -> (targets: Vec<(i32, i32)>)
    requires
        is_region_coord(rx as int),
        is_region_coord(ry as int),
    ensures
        targets@ == if claimed > 0 && count >= REGION_OPEN_THRESHOLD {
            neighbors(rx as int, ry as int)
        } else {
            Seq::<(i32, i32)>::empty()
        },
{
    let mut targets: Vec<(i32, i32)> = Vec::new();
    if claimed > 0 && count >= REGION_OPEN_THRESHOLD {
        targets.push((rx - 1, ry));
        targets.push((rx + 1, ry));
        targets.push((rx, ry - 1));
        targets.push((rx, ry + 1));
        proof {
            assert(targets@ =~= neighbors(rx as int, ry as int));
        }
    }
    targets
}

/// The command that adds a region to the set of open regions.
pub fn open_command(rx: i32, ry: i32) -> (command: Command)
    ensures
        command@ == (CommandView::SAdd {
            key: OPEN_REGIONS@,
            member: region_name(rx as int, ry as int),
        }),
{
    Command::SAdd {
        key: String::from_str(OPEN_REGIONS),
        member: region_field(rx, ry),
    }
}

/// The targets that were newly opened: `replies[i]` is what the store
/// answered to adding `targets[i]` to the set of open regions, and 1 means
/// that the region was not in the set before.
pub open spec fn opened(targets: Seq<(i32, i32)>, replies: Seq<i64>) -> Seq<(i32, i32)>
    decreases targets.len(),
{
    if targets.len() == 0 {
        Seq::empty()
    } else {
        let before = opened(targets.drop_last(), replies.drop_last());
        if replies.last() == 1 {
            before.push(targets.last())
        } else {
            before
        }
    }
}

/// Pick the targets that the store reported as newly added.
pub fn newly_opened(targets: &Vec<(i32, i32)>, replies: &Vec<i64>) -> (regions: Vec<(i32, i32)>)
    requires
        replies@.len() == targets@.len(),
    ensures
        regions@ == opened(targets@, replies@),
{
    let mut regions: Vec<(i32, i32)> = Vec::new();
    let mut i: usize = 0;
    while i < targets.len()
        invariant
            i <= targets@.len(),
            replies@.len() == targets@.len(),
            regions@ == opened(targets@.take(i as int), replies@.take(i as int)),
        decreases targets@.len() - i,
    {
        proof {
            assert(targets@.take(i + 1).drop_last() =~= targets@.take(i as int));
            assert(replies@.take(i + 1).drop_last() =~= replies@.take(i as int));
        }
        if replies[i] == 1 {
            regions.push(targets[i]);
        }
        i = i + 1;
    }
    proof {
        assert(targets@.take(targets@.len() as int) =~= targets@);
        assert(replies@.take(targets@.len() as int) =~= replies@);
    }
    regions
}

} // verus!
