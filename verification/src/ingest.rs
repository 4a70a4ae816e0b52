//! The ingestor's logic: which calls of a block are draw calls to the
//! contract, which events they make, and what is written for a block.

use crate::bucket::is_drawable;
use crate::draw_event::{DrawArgs, DrawEvent, DrawPixel};
use crate::store::{lemma_run_concat, lemma_run_one, pipeline_view, Command, CommandView, Store};
use crate::text::decimal;
use crate::valkey::{decimal_string, DRAW_QUEUE, LAST_PROCESSED_BLOCK};
use vstd::prelude::*;
use vstd::string::*;

verus! {

/// The name of the contract method that draws.
pub const DRAW_METHOD: &'static str = "draw";

/// An action of a receipt, as far as the ingestor reads it.
#[derive(Debug, PartialEq, Eq)]
pub enum Action {
    /// A function call with its method name and raw arguments.
    FunctionCall { method_name: String, args: Vec<u8> },
    /// Any other action.
    Other,
}

/// A receipt of a block, as far as the ingestor reads it.
#[derive(Debug, PartialEq, Eq)]
pub struct Receipt {
    pub receiver_id: String,
    pub predecessor_id: String,
    /// The actions of an action receipt; nothing for any other receipt.
    pub actions: Option<Vec<Action>>,
}

/// A shard of a block: its receipts in execution order.
#[derive(Debug, PartialEq, Eq)]
pub struct Shard {
    pub receipts: Vec<Receipt>,
}

/// A block of the chain, as far as the ingestor reads it.
#[derive(Debug, PartialEq, Eq)]
pub struct Block {
    pub height: u64,
    pub timestamp_ns: u64,
    pub shards: Vec<Shard>,
}

/// A draw call found in a block: who made it, and its raw arguments.
#[derive(Debug, PartialEq, Eq)]
pub struct DrawCall {
    pub predecessor_id: String,
    pub args: Vec<u8>,
}

impl View for DrawCall {
    type V = (Seq<char>, Seq<u8>);

    open spec fn view(&self) -> (Seq<char>, Seq<u8>) {
        (self.predecessor_id@, self.args@)
    }
}

/// Draw calls as mathematical values.
pub open spec fn calls_view(calls: Seq<DrawCall>) -> Seq<(Seq<char>, Seq<u8>)> {
    Seq::new(calls.len(), |i: int| calls[i]@)
}

/// The draw calls among a receipt's actions, in order.
pub open spec fn calls_of_actions(actions: Seq<Action>, predecessor: Seq<char>) -> Seq<
    (Seq<char>, Seq<u8>),
>
    decreases actions.len(),
{
    if actions.len() == 0 {
        Seq::empty()
    } else {
        let before = calls_of_actions(actions.drop_last(), predecessor);
        match actions.last() {
            Action::FunctionCall { method_name, args } => if method_name@ == DRAW_METHOD@ {
                before.push((predecessor, args@))
            } else {
                before
            },
            Action::Other => before,
        }
    }
}

/// The draw calls of a receipt: those of its actions when it is an action
/// receipt for the contract, none otherwise.
pub open spec fn calls_of_receipt(receipt: Receipt, contract: Seq<char>) -> Seq<
    (Seq<char>, Seq<u8>),
> {
    match receipt.actions {
        Some(actions) => if receipt.receiver_id@ == contract {
            calls_of_actions(actions@, receipt.predecessor_id@)
        } else {
            Seq::empty()
        },
        None => Seq::empty(),
    }
}

/// The draw calls of a shard's receipts, in order.
pub open spec fn calls_of_receipts(receipts: Seq<Receipt>, contract: Seq<char>) -> Seq<
    (Seq<char>, Seq<u8>),
>
    decreases receipts.len(),
{
    if receipts.len() == 0 {
        Seq::empty()
    } else {
        calls_of_receipts(receipts.drop_last(), contract) + calls_of_receipt(
            receipts.last(),
            contract,
        )
    }
}

/// The draw calls of a block's shards, in order.
pub open spec fn calls_of_shards(shards: Seq<Shard>, contract: Seq<char>) -> Seq<
    (Seq<char>, Seq<u8>),
>
    decreases shards.len(),
{
    if shards.len() == 0 {
        Seq::empty()
    } else {
        calls_of_shards(shards.drop_last(), contract) + calls_of_receipts(
            shards.last().receipts@,
            contract,
        )
    }
}

/// The drawable pixels among `pixels`, in order.
pub open spec fn drawable_pixels(pixels: Seq<DrawPixel>) -> Seq<DrawPixel>
    decreases pixels.len(),
{
    if pixels.len() == 0 {
        Seq::empty()
    } else if is_drawable(pixels.last()) {
        drawable_pixels(pixels.drop_last()).push(pixels.last())
    } else {
        drawable_pixels(pixels.drop_last())
    }
}

/// The writes for a processed block: each serialized event is pushed at the
/// head of the draw queue, in order, and the block's height is recorded.
pub open spec fn block_writes(serialized: Seq<Seq<char>>, height: u64) -> Seq<CommandView> {
    queue_pushes(serialized) + seq![
        CommandView::SetText { key: LAST_PROCESSED_BLOCK@, value: decimal(height as int) },
    ]
}

/// The height at which to start streaming: the block after the last
/// processed one, or the fetcher's default when none was processed.
pub fn start_block(last_processed: Option<u64>) -> (start: Option<u64>)
    requires
        last_processed matches Some(h) ==> h < u64::MAX,
    ensures
        start == match last_processed {
            Some(h) => Some((h + 1) as u64),
            None => None,
        },
{
    match last_processed {
        Some(h) => Some(h + 1),
        None => None,
    }
}

/// The time of a block in milliseconds.
pub fn block_timestamp_ms(timestamp_ns: u64) -> (ms: u64)
    ensures
        ms == timestamp_ns / 1_000_000,
{
    timestamp_ns / 1_000_000
}

/// A copy of a byte vector.
fn copy_args(bytes: &Vec<u8>) -> (copy: Vec<u8>)
    ensures
        copy@ == bytes@,
{
    let copy = bytes.clone();
    proof {
        assert(copy@ =~= bytes@);
    }
    copy
}

/// Appends the draw calls among a receipt's actions.
fn push_action_calls(calls: &mut Vec<DrawCall>, actions: &Vec<Action>, predecessor: &String)
    ensures
        calls_view(final(calls)@) == calls_view(old(calls)@) + calls_of_actions(
            actions@,
            predecessor@,
        ),
{
    let draw = String::from_str(DRAW_METHOD);
    let mut k: usize = 0;
    proof {
        assert(calls_view(calls@) =~= calls_view(old(calls)@) + calls_of_actions(
            actions@.take(0),
            predecessor@,
        ));
    }
    while k < actions.len()
        invariant
            k <= actions@.len(),
            draw@ == DRAW_METHOD@,
            calls_view(calls@) == calls_view(old(calls)@) + calls_of_actions(
                actions@.take(k as int),
                predecessor@,
            ),
        decreases actions@.len() - k,
    {
        proof {
            assert(actions@.take(k + 1).drop_last() =~= actions@.take(k as int));
            assert(actions@.take(k + 1).last() == actions@[k as int]);
        }
        match &actions[k] {
            Action::FunctionCall { method_name, args } => {
                if *method_name == draw {
                    let ghost before = calls@;
                    calls.push(
                        DrawCall { predecessor_id: predecessor.clone(), args: copy_args(args) },
                    );
                    proof {
                        assert(calls_view(calls@) =~= calls_view(before).push(
                            (predecessor@, args@),
                        ));
                        assert(calls_view(calls@) =~= calls_view(old(calls)@) + calls_of_actions(
                            actions@.take(k + 1),
                            predecessor@,
                        ));
                    }
                }
            },
            Action::Other => {},
        }
        k = k + 1;
    }
    proof {
        assert(actions@.take(actions@.len() as int) =~= actions@);
    }
}

/// Find the draw calls to the contract in a block. Shards, receipts and
/// actions are read in the order given, which is the order in which the
/// calls apply. Only `draw` function calls of action receipts whose
/// receiver is the contract count.
pub fn draw_calls(block: &Block, contract: &str) -> (calls: Vec<DrawCall>)
    ensures
        calls_view(calls@) == calls_of_shards(block.shards@, contract@),
{
    let contract_id = String::from_str(contract);
    let mut calls: Vec<DrawCall> = Vec::new();
    let mut i: usize = 0;
    proof {
        assert(calls_view(calls@) =~= calls_of_shards(block.shards@.take(0), contract@));
    }
    while i < block.shards.len()
        invariant
            i <= block.shards@.len(),
            contract_id@ == contract@,
            calls_view(calls@) == calls_of_shards(block.shards@.take(i as int), contract@),
        decreases block.shards@.len() - i,
    {
        let shard = &block.shards[i];
        let ghost done = calls_view(calls@);
        let mut j: usize = 0;
        proof {
            assert(block.shards@.take(i + 1).drop_last() =~= block.shards@.take(i as int));
            assert(block.shards@.take(i + 1).last() == block.shards@[i as int]);
            assert(calls_view(calls@) =~= done + calls_of_receipts(
                shard.receipts@.take(0),
                contract@,
            ));
        }
        while j < shard.receipts.len()
            invariant
                j <= shard.receipts@.len(),
                contract_id@ == contract@,
                calls_view(calls@) == done + calls_of_receipts(
                    shard.receipts@.take(j as int),
                    contract@,
                ),
            decreases shard.receipts@.len() - j,
        {
            let receipt = &shard.receipts[j];
            proof {
                assert(shard.receipts@.take(j + 1).drop_last() =~= shard.receipts@.take(j as int));
                assert(shard.receipts@.take(j + 1).last() == shard.receipts@[j as int]);
            }
            let ghost before = calls_view(calls@);
            if receipt.receiver_id == contract_id {
                match &receipt.actions {
                    Some(actions) => {
                        push_action_calls(&mut calls, actions, &receipt.predecessor_id);
                    },
                    None => {},
                }
            }
            proof {
                assert(calls_view(calls@) =~= before + calls_of_receipt(*receipt, contract@));
                assert(calls_view(calls@) =~= done + calls_of_receipts(
                    shard.receipts@.take(j + 1),
                    contract@,
                ));
            }
            j = j + 1;
        }
        proof {
            assert(shard.receipts@.take(shard.receipts@.len() as int) =~= shard.receipts@);
        }
        i = i + 1;
    }
    proof {
        assert(block.shards@.take(block.shards@.len() as int) =~= block.shards@);
    }
    calls
}

/// Keep the drawable pixels of a draw call, in order.
pub fn valid_pixels(pixels: &Vec<DrawPixel>) -> (valid: Vec<DrawPixel>)
    ensures
        valid@ == drawable_pixels(pixels@),
{
    let mut valid: Vec<DrawPixel> = Vec::new();
    let mut i: usize = 0;
    while i < pixels.len()
        invariant
            i <= pixels@.len(),
            valid@ == drawable_pixels(pixels@.take(i as int)),
        decreases pixels@.len() - i,
    {
        proof {
            assert(pixels@.take(i + 1).drop_last() =~= pixels@.take(i as int));
            assert(pixels@.take(i + 1).last() == pixels@[i as int]);
        }
        if pixels[i].rgb().is_some() {
            valid.push(pixels[i].clone());
        }
        i = i + 1;
    }
    proof {
        assert(pixels@.take(pixels@.len() as int) =~= pixels@);
    }
    valid
}

/// Make the event of a draw call whose arguments were parsed: the pixels
/// whose color is not six hex digits are dropped, and a call without a
/// drawable pixel makes no event. The time of the block is taken in
/// milliseconds.
pub fn build_event(
    predecessor_id: String,
    block_height: u64,
    timestamp_ns: u64,
    args: &DrawArgs,
) -> (event: Option<DrawEvent>)
    ensures
        event is Some <==> drawable_pixels(args.pixels@).len() > 0,
        event matches Some(e) ==> {
            &&& e.predecessor_id == predecessor_id
            &&& e.block_height == block_height
            &&& e.block_timestamp_ms == timestamp_ns / 1_000_000
            &&& e.pixels@ == drawable_pixels(args.pixels@)
        },
{
    let pixels = valid_pixels(&args.pixels);
    if pixels.len() == 0 {
        None
    } else {
        Some(
            DrawEvent {
                predecessor_id,
                block_height,
                block_timestamp_ms: block_timestamp_ms(timestamp_ns),
                pixels,
            },
        )
    }
}

/// The views of serialized events.
pub open spec fn texts_view(texts: Seq<String>) -> Seq<Seq<char>> {
    Seq::new(texts.len(), |i: int| texts[i]@)
}

/// Build the writes for a processed block: one push at the head of the
/// draw queue per serialized event, in order, then the record of the
/// block's height, which is written whether or not the block made events.
pub fn block_commands(serialized: &Vec<String>, height: u64) -> (commands: Vec<Command>)
    ensures
        pipeline_view(commands@) == block_writes(texts_view(serialized@), height),
{
    let mut commands: Vec<Command> = Vec::new();
    let mut i: usize = 0;
    while i < serialized.len()
        invariant
            i <= serialized@.len(),
            commands@.len() == i,
            forall|k: int|
                0 <= k < i ==> (#[trigger] commands@[k])@ == (CommandView::LPush {
                    key: DRAW_QUEUE@,
                    value: serialized@[k]@,
                }),
        decreases serialized@.len() - i,
    {
        commands.push(
            Command::LPush { key: String::from_str(DRAW_QUEUE), value: serialized[i].clone() },
        );
        i = i + 1;
    }
    commands.push(
        Command::SetText {
            key: String::from_str(LAST_PROCESSED_BLOCK),
            value: decimal_string(height),
        },
    );
    proof {
        assert(pipeline_view(commands@) =~= block_writes(texts_view(serialized@), height));
    }
    commands
}

/// The pushes of serialized events at the head of the draw queue.
pub open spec fn queue_pushes(serialized: Seq<Seq<char>>) -> Seq<CommandView> {
    Seq::new(
        serialized.len(),
        |i: int| CommandView::LPush { key: DRAW_QUEUE@, value: serialized[i] },
    )
}

/// After the pushes the draw queue holds the new events before the old
/// ones, the last pushed first.
pub proof fn lemma_pushes_queue(s: Store, serialized: Seq<Seq<char>>)
    ensures
        s.run(queue_pushes(serialized)).list(DRAW_QUEUE@) == serialized.reverse() + s.list(
            DRAW_QUEUE@,
        ),
        s.run(queue_pushes(serialized)).texts == s.texts,
    decreases serialized.len(),
{
    if serialized.len() == 0 {
        assert(serialized.reverse() + s.list(DRAW_QUEUE@) =~= s.list(DRAW_QUEUE@));
    } else {
        let rest = serialized.drop_last();
        lemma_pushes_queue(s, rest);
        assert(queue_pushes(serialized).drop_last() =~= queue_pushes(rest));
        assert(serialized.reverse() + s.list(DRAW_QUEUE@) =~= seq![serialized.last()] + (
        rest.reverse() + s.list(DRAW_QUEUE@)));
    }
}

/// After the writes for a block the draw queue holds the block's events
/// before the older ones, so that the tail of the queue is still the oldest
/// event, and the block's height is on record.
pub proof fn lemma_block_recorded(s: Store, serialized: Seq<Seq<char>>, height: u64)
    ensures
        s.run(block_writes(serialized, height)).list(DRAW_QUEUE@) == serialized.reverse() + s.list(
            DRAW_QUEUE@,
        ),
        s.run(block_writes(serialized, height)).texts.contains_key(LAST_PROCESSED_BLOCK@),
        s.run(block_writes(serialized, height)).texts[LAST_PROCESSED_BLOCK@] == decimal(
            height as int,
        ),
{
    let record = CommandView::SetText {
        key: LAST_PROCESSED_BLOCK@,
        value: decimal(height as int),
    };
    assert(block_writes(serialized, height) =~= queue_pushes(serialized) + seq![record]);
    lemma_run_concat(s, queue_pushes(serialized), seq![record]);
    lemma_run_one(s.run(queue_pushes(serialized)), record);
    lemma_pushes_queue(s, serialized);
}

} // verus!
