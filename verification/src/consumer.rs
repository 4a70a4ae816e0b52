//! The consumer's decisions: what to do after each attempt to take an
//! event from the queue, what to announce for an applied event, and which
//! writes acknowledge it.

use crate::board::AppliedPixel;
use crate::pipeline::region_pipeline;
use crate::tally::Tally;
use crate::canvas::open_commands;
use crate::draw_event::{rgb_hex6, rgb_to_hex6, DrawEvent};
use crate::store::{
    entries_view, lemma_run_concat, lemma_run_one, pipeline_view, Command, CommandView,
    ScoredMember, Store,
};
use crate::valkey::{DRAW_EVENTS_ZSET, DRAW_QUEUE, PROCESSING_QUEUE};
use vstd::prelude::*;
use vstd::string::*;

verus! {

/// How long outbound events stay in the replay log: two hours, in
/// milliseconds.
pub const CATCHUP_RETENTION_MS: u64 = 7_200_000;

/// How long to wait after the store failed to answer.
pub const RETRY_DELAY_MS: u64 = 100;

/// How long to wait after the queue was found empty.
pub const IDLE_DELAY_MS: u64 = 50;

/// How an attempt to move an event from the draw queue to the processing
/// queue ended.
#[derive(Debug, PartialEq, Eq)]
pub enum Popped {
    /// The store did not answer.
    Failed,
    /// The draw queue was empty.
    Empty,
    /// The raw event that is now at the head of the processing queue.
    Item(String),
}

/// What the consumer does next.
#[derive(Debug, PartialEq, Eq)]
pub enum NextStep {
    /// Wait this many milliseconds, then try again.
    Wait { millis: u64 },
    /// Parse the raw event and apply it.
    Process { raw: String },
}

/// A pixel of an outbound draw envelope.
#[derive(Debug, PartialEq, Eq)]
pub struct EnvelopePixel {
    pub x: i32,
    pub y: i32,
    /// The color as six upper-case hex digits.
    pub color: String,
}

/// The outbound announcement of an applied draw event.
#[derive(Debug, PartialEq, Eq)]
pub struct DrawEnvelope {
    pub signer: String,
    pub block_timestamp_ms: u64,
    pub pixels: Vec<EnvelopePixel>,
}

/// The outbound announcement of newly opened regions.
#[derive(Debug, PartialEq, Eq)]
pub struct RegionsOpenedEnvelope {
    pub regions: Vec<(i32, i32)>,
}

/// A pixel of an envelope as a mathematical value.
pub open spec fn envelope_pixel(p: AppliedPixel) -> (i32, i32, Seq<char>) {
    (p.x, p.y, rgb_hex6(p.r, p.g, p.b))
}

/// The pixels of an envelope as mathematical values.
pub open spec fn envelope_pixels_view(pixels: Seq<EnvelopePixel>) -> Seq<(i32, i32, Seq<char>)> {
    Seq::new(pixels.len(), |i: int| (pixels[i].x, pixels[i].y, pixels[i].color@))
}

/// The upper bound of the replay log trim: the retention before `now`, and
/// zero where that would be negative.
pub open spec fn replay_trim_bound(now: u64) -> u64 {
    if now >= 7_200_000 {
        (now - 7_200_000) as u64
    } else {
        0
    }
}

/// The acknowledgement of a raw event: its removal from the processing
/// queue.
pub open spec fn acknowledgement(raw: Seq<char>) -> CommandView {
    CommandView::LRem { key: PROCESSING_QUEUE@, value: raw }
}

/// The pipeline that completes an event. With an announcement, the
/// announcement enters the replay log under the event's time, the log is
/// trimmed to its retention, and the event is acknowledged; without one the
/// event is only acknowledged.
pub open spec fn completion_pipeline(
    raw: Seq<char>,
    announcement: Option<Seq<char>>,
    now: u64,
) -> Seq<CommandView> {
    match announcement {
        Some(json) => seq![
            CommandView::ZAdd { key: DRAW_EVENTS_ZSET@, entries: seq![(json, now)] },
            CommandView::ZRemRangeByScore {
                key: DRAW_EVENTS_ZSET@,
                min: 0,
                max: replay_trim_bound(now),
            },
            acknowledgement(raw),
        ],
        None => seq![acknowledgement(raw)],
    }
}

/// Decide what follows an attempt to take an event from the queue: wait
/// 100 ms after a failure of the store, 50 ms after finding the queue
/// empty, and process the event otherwise.
pub fn after_pop(popped: Popped) -> (next: NextStep)
    ensures
        match popped {
            Popped::Failed => next == (NextStep::Wait { millis: 100 }),
            Popped::Empty => next == (NextStep::Wait { millis: 50 }),
            Popped::Item(raw) => next == (NextStep::Process { raw }),
        },
{
    match popped {
        Popped::Failed => NextStep::Wait { millis: RETRY_DELAY_MS },
        Popped::Empty => NextStep::Wait { millis: IDLE_DELAY_MS },
        Popped::Item(raw) => NextStep::Process { raw },
    }
}

/// Build the announcement of an applied draw event: the signer, the time of
/// the block, and each applied pixel with its color in upper-case hex.
/// Nothing is announced when no pixel was applied.
pub fn draw_envelope(event: &DrawEvent, applied: &Vec<AppliedPixel>) -> (envelope: Option<
    DrawEnvelope,
>)
    ensures
        envelope is Some <==> applied@.len() > 0,
        envelope matches Some(e) ==> {
            &&& e.signer@ == event.predecessor_id@
            &&& e.block_timestamp_ms == event.block_timestamp_ms
            &&& envelope_pixels_view(e.pixels@) == Seq::new(
                applied@.len(),
                |i: int| envelope_pixel(applied@[i]),
            )
        },
{
    if applied.len() == 0 {
        return None;
    }
    let mut pixels: Vec<EnvelopePixel> = Vec::new();
    let mut i: usize = 0;
    while i < applied.len()
        invariant
            i <= applied@.len(),
            pixels@.len() == i,
            forall|k: int|
                0 <= k < i ==> envelope_pixels_view(pixels@)[k] == envelope_pixel(
                    #[trigger] applied@[k],
                ),
        decreases applied@.len() - i,
    {
        let p = applied[i];
        let ghost before = pixels@;
        pixels.push(EnvelopePixel { x: p.x, y: p.y, color: rgb_to_hex6(p.r, p.g, p.b) });
        proof {
            assert forall|k: int| 0 <= k < i + 1 implies envelope_pixels_view(pixels@)[k]
                == envelope_pixel(#[trigger] applied@[k]) by {
                if k < i {
                    assert(pixels@[k] == before[k]);
                    assert(envelope_pixels_view(before)[k] == envelope_pixel(applied@[k]));
                }
            }
        }
        i = i + 1;
    }
    proof {
        assert(envelope_pixels_view(pixels@) =~= Seq::new(
            applied@.len(),
            |i: int| envelope_pixel(applied@[i]),
        ));
    }
    Some(
        DrawEnvelope {
            signer: event.predecessor_id.clone(),
            block_timestamp_ms: event.block_timestamp_ms,
            pixels,
        },
    )
}

/// Build the announcement of newly opened regions; nothing when there are
/// none.
pub fn regions_opened_envelope(newly_opened: Vec<(i32, i32)>) -> (envelope: Option<
    RegionsOpenedEnvelope,
>)
    ensures
        envelope is Some <==> newly_opened@.len() > 0,
        envelope matches Some(e) ==> e.regions@ == newly_opened@,
{
    if newly_opened.len() == 0 {
        None
    } else {
        Some(RegionsOpenedEnvelope { regions: newly_opened })
    }
}

/// The command that acknowledges a raw event.
pub fn acknowledge(raw: &str) -> (command: Command)
    ensures
        command@ == acknowledgement(raw@),
{
    Command::LRem { key: String::from_str(PROCESSING_QUEUE), value: String::from_str(raw) }
}

/// Build the pipeline that completes an event. `announcement` is the
/// serialized draw envelope, present when a pixel was applied. A raw event
/// that could not be parsed is completed without an announcement.
pub fn completion_commands(raw: &str, announcement: Option<&str>, now: u64) -> (commands: Vec<
    Command,
>)
    ensures
        pipeline_view(commands@) == completion_pipeline(
            raw@,
            match announcement {
                Some(json) => Some(json@),
                None => None,
            },
            now,
        ),
{
    let mut commands: Vec<Command> = Vec::new();
    match announcement {
        Some(json) => {
            let mut entries: Vec<ScoredMember> = Vec::new();
            entries.push(ScoredMember { member: String::from_str(json), score: now });
            proof {
                assert(entries_view(entries@) =~= seq![(json@, now)]);
            }
            commands.push(Command::ZAdd { key: String::from_str(DRAW_EVENTS_ZSET), entries });
            commands.push(
                Command::ZRemRangeByScore {
                    key: String::from_str(DRAW_EVENTS_ZSET),
                    min: 0,
                    max: now.saturating_sub(CATCHUP_RETENTION_MS),
                },
            );
            commands.push(acknowledge(raw));
            proof {
                assert(pipeline_view(commands@) =~= completion_pipeline(raw@, Some(json@), now));
            }
        },
        None => {
            commands.push(acknowledge(raw));
            proof {
                assert(pipeline_view(commands@) =~= completion_pipeline(raw@, None, now));
            }
        },
    }
    commands
}

/// Whether no command of a pipeline writes a list.
pub open spec fn leaves_lists(commands: Seq<CommandView>) -> bool {
    forall|i: int|
        0 <= i < commands.len() ==> !((#[trigger] commands[i]) is LPush) && !(commands[i] is LRem)
}

/// What the consumer did for one event: the writes of the board, then the
/// completion with or without an announcement.
pub struct Processed {
    /// The pipelines that applying the event issued, joined.
    pub work: Seq<CommandView>,
    /// The serialized draw envelope, if a pixel was applied.
    pub announcement: Option<Seq<char>>,
    /// The time of the event's block.
    pub now: u64,
}

/// The store after the consumer took the event at the tail of the draw
/// queue, applied it and completed it.
pub open spec fn processed_one(s: Store, step: Processed) -> Store {
    s.move_tail(DRAW_QUEUE@, PROCESSING_QUEUE@).run(step.work).run(
        completion_pipeline(s.list(DRAW_QUEUE@).last(), step.announcement, step.now),
    )
}

/// The store after the consumer processed one event after the other.
pub open spec fn processed_all(s: Store, steps: Seq<Processed>) -> Store
    decreases steps.len(),
{
    if steps.len() == 0 {
        s
    } else {
        processed_one(processed_all(s, steps.drop_last()), steps.last())
    }
}

/// The two queues have different keys.
pub proof fn lemma_queue_keys_differ()
    ensures
        DRAW_QUEUE@ != PROCESSING_QUEUE@,
{
    reveal_strlit("draw_queue");
    reveal_strlit("processing_queue");
    assert(DRAW_QUEUE@[0] == 'd');
    assert(PROCESSING_QUEUE@[0] == 'p');
}

/// A pipeline that writes no list leaves every list as it was.
pub proof fn lemma_lists_unchanged(s: Store, commands: Seq<CommandView>)
    requires
        leaves_lists(commands),
    ensures
        s.run(commands).lists == s.lists,
    decreases commands.len(),
{
    if commands.len() > 0 {
        assert(leaves_lists(commands.drop_last())) by {
            assert forall|i: int| 0 <= i < commands.drop_last().len() implies !((
            #[trigger] commands.drop_last()[i]) is LPush) && !(commands.drop_last()[i] is LRem) by {
                assert(commands.drop_last()[i] == commands[i]);
            }
        }
        lemma_lists_unchanged(s, commands.drop_last());
        let c = commands[commands.len() - 1];
        assert(!(c is LPush) && !(c is LRem));
    }
}

/// The pipelines of the board write no list.
pub proof fn lemma_board_leaves_lists(
    rx: int,
    ry: int,
    t: Tally,
    owner_id: u32,
    now: u64,
    regions: Seq<(i32, i32)>,
)
    ensures
        leaves_lists(region_pipeline(rx, ry, t, owner_id, now)),
        leaves_lists(open_commands(regions)),
{
}

/// Removing the head of a list from it gives the rest.
pub proof fn lemma_remove_head(item: Seq<char>, rest: Seq<Seq<char>>)
    ensures
        crate::store::remove_first(seq![item] + rest, item) == rest,
{
    assert((seq![item] + rest).drop_first() =~= rest);
}

/// An event in flight is never lost: from the moment the consumer has
/// moved it off the draw queue, and through every write that applying it
/// issues, the event is at the head of the processing queue. A process that
/// stops before the completion leaves it there.
pub proof fn lemma_in_flight_is_kept(s: Store, work: Seq<CommandView>, k: int)
    requires
        s.list(DRAW_QUEUE@).len() > 0,
        leaves_lists(work),
        0 <= k <= work.len(),
    ensures
        s.move_tail(DRAW_QUEUE@, PROCESSING_QUEUE@).run(work.take(k)).list(PROCESSING_QUEUE@)
            == seq![s.list(DRAW_QUEUE@).last()] + s.list(PROCESSING_QUEUE@),
        s.move_tail(DRAW_QUEUE@, PROCESSING_QUEUE@).run(work.take(k)).list(DRAW_QUEUE@) == s.list(
            DRAW_QUEUE@,
        ).drop_last(),
{
    lemma_queue_keys_differ();
    assert(leaves_lists(work.take(k)));
    lemma_lists_unchanged(s.move_tail(DRAW_QUEUE@, PROCESSING_QUEUE@), work.take(k));
}

/// Processing one event takes it off the draw queue and leaves the
/// processing queue as it was, whether or not a pixel was applied.
pub proof fn lemma_event_completed(s: Store, step: Processed)
    requires
        s.list(DRAW_QUEUE@).len() > 0,
        leaves_lists(step.work),
    ensures
        processed_one(s, step).list(DRAW_QUEUE@) == s.list(DRAW_QUEUE@).drop_last(),
        processed_one(s, step).list(PROCESSING_QUEUE@) == s.list(PROCESSING_QUEUE@),
{
    lemma_queue_keys_differ();
    let raw = s.list(DRAW_QUEUE@).last();
    let moved = s.move_tail(DRAW_QUEUE@, PROCESSING_QUEUE@);
    let worked = moved.run(step.work);
    lemma_lists_unchanged(moved, step.work);
    lemma_remove_head(raw, s.list(PROCESSING_QUEUE@));
    let ack = acknowledgement(raw);
    match step.announcement {
        Some(json) => {
            let add = CommandView::ZAdd { key: DRAW_EVENTS_ZSET@, entries: seq![(json, step.now)] };
            let trim = CommandView::ZRemRangeByScore {
                key: DRAW_EVENTS_ZSET@,
                min: 0,
                max: replay_trim_bound(step.now),
            };
            assert(completion_pipeline(raw, step.announcement, step.now) =~= seq![add] + seq![trim]
                + seq![ack]);
            lemma_run_concat(worked, seq![add] + seq![trim], seq![ack]);
            lemma_run_concat(worked, seq![add], seq![trim]);
            lemma_run_one(worked, add);
            lemma_run_one(worked.apply(add), trim);
            lemma_run_one(worked.apply(add).apply(trim), ack);
        },
        None => {
            lemma_run_one(worked, ack);
        },
    }
}

/// After the consumer processed `n` events, the draw queue is shorter by
/// `n` and the processing queue is as it was: empty, if it was empty.
pub proof fn lemma_queue_advancement(s: Store, steps: Seq<Processed>)
    requires
        steps.len() <= s.list(DRAW_QUEUE@).len(),
        forall|i: int| 0 <= i < steps.len() ==> leaves_lists((#[trigger] steps[i]).work),
    ensures
        processed_all(s, steps).list(DRAW_QUEUE@) == s.list(DRAW_QUEUE@).take(
            s.list(DRAW_QUEUE@).len() - steps.len(),
        ),
        processed_all(s, steps).list(PROCESSING_QUEUE@) == s.list(PROCESSING_QUEUE@),
    decreases steps.len(),
{
    let queue = s.list(DRAW_QUEUE@);
    if steps.len() == 0 {
        assert(queue.take(queue.len() as int) =~= queue);
    } else {
        let rest = steps.drop_last();
        assert forall|i: int| 0 <= i < rest.len() implies leaves_lists((#[trigger] rest[i]).work) by {
            assert(rest[i] == steps[i]);
        }
        lemma_queue_advancement(s, rest);
        let mid = processed_all(s, rest);
        assert(leaves_lists(steps[steps.len() - 1].work));
        lemma_event_completed(mid, steps.last());
        assert(queue.take(queue.len() - rest.len()).drop_last() =~= queue.take(
            queue.len() - steps.len(),
        ));
    }
}

} // verus!
