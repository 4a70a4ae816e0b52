use berryfast::draw_event::{DrawArgs, DrawPixel};
use berryfast::ingest::{
    block_commands, block_timestamp_ms, build_event, draw_calls, start_block, valid_pixels, Action,
    Block, Receipt, Shard,
};
use berryfast::store::Command;

fn call(method: &str, args: &str) -> Action {
    Action::FunctionCall { method_name: method.to_string(), args: args.as_bytes().to_vec() }
}

fn receipt(receiver: &str, predecessor: &str, actions: Option<Vec<Action>>) -> Receipt {
    Receipt { receiver_id: receiver.to_string(), predecessor_id: predecessor.to_string(), actions }
}

fn pixel(x: i32, y: i32, color: &str) -> DrawPixel {
    DrawPixel { x, y, color: color.to_string() }
}

#[test]
fn draw_calls_to_the_contract_are_found_in_order() {
    let block = Block {
        height: 7,
        timestamp_ns: 1_700_000_000_123_456_789,
        shards: vec![
            Shard {
                receipts: vec![
                    receipt("canvas.near", "alice", Some(vec![call("draw", "a1"), call("erase", "x"), call("draw", "a2")])),
                    receipt("other.near", "bob", Some(vec![call("draw", "b1")])),
                    receipt("canvas.near", "carol", None),
                ],
            },
            Shard { receipts: vec![] },
            Shard {
                receipts: vec![receipt("canvas.near", "dave", Some(vec![Action::Other, call("draw", "d1")]))],
            },
        ],
    };
    let calls = draw_calls(&block, "canvas.near");
    let found: Vec<(String, Vec<u8>)> =
        calls.into_iter().map(|c| (c.predecessor_id, c.args)).collect();
    assert_eq!(
        found,
        vec![
            ("alice".to_string(), b"a1".to_vec()),
            ("alice".to_string(), b"a2".to_vec()),
            ("dave".to_string(), b"d1".to_vec()),
        ]
    );
    assert!(draw_calls(&block, "nobody.near").is_empty());
}

#[test]
fn method_and_receiver_must_match_exactly() {
    let block = Block {
        height: 1,
        timestamp_ns: 0,
        shards: vec![Shard {
            receipts: vec![
                receipt("canvas.near", "a", Some(vec![call("Draw", ""), call("draw ", ""), call("", "")])),
                receipt("Canvas.near", "b", Some(vec![call("draw", "")])),
                receipt("canvas.nea", "c", Some(vec![call("draw", "")])),
            ],
        }],
    };
    assert!(draw_calls(&block, "canvas.near").is_empty());
}

#[test]
fn pixels_with_invalid_colors_are_dropped() {
    let pixels = vec![pixel(1, 2, "FFFFFF"), pixel(3, 4, "nope"), pixel(5, 6, "00ff00"), pixel(7, 8, "")];
    let kept = valid_pixels(&pixels);
    let coords: Vec<(i32, i32)> = kept.iter().map(|p| (p.x, p.y)).collect();
    assert_eq!(coords, vec![(1, 2), (5, 6)]);
    assert_eq!(kept[1].color, "00ff00");
}

#[test]
fn event_takes_block_time_in_milliseconds() {
    let args = DrawArgs { pixels: vec![pixel(1, 2, "FFFFFF"), pixel(3, 4, "bad")] };
    let event = build_event("alice".to_string(), 42, 1_700_000_000_123_456_789, &args).unwrap();
    assert_eq!(event.predecessor_id, "alice");
    assert_eq!(event.block_height, 42);
    assert_eq!(event.block_timestamp_ms, 1_700_000_000_123);
    assert_eq!(event.pixels.len(), 1);
    assert_eq!(event.pixels[0].x, 1);
    assert_eq!(block_timestamp_ms(999_999), 0);
    assert_eq!(block_timestamp_ms(1_000_000), 1);
}

#[test]
fn call_without_a_drawable_pixel_makes_no_event() {
    let args = DrawArgs { pixels: vec![pixel(1, 2, "zzzzzz")] };
    assert!(build_event("alice".to_string(), 1, 1, &args).is_none());
    assert!(build_event("alice".to_string(), 1, 1, &DrawArgs { pixels: vec![] }).is_none());
}

#[test]
fn block_height_is_recorded_even_without_events() {
    let commands = block_commands(&Vec::new(), 123);
    assert_eq!(commands.len(), 1);
    match &commands[0] {
        Command::SetText { key, value } => {
            assert_eq!(key, "last_processed_block");
            assert_eq!(value, "123");
        }
        other => panic!("unexpected command {:?}", other),
    }
}

#[test]
fn events_are_pushed_in_order_before_the_height() {
    let commands = block_commands(&vec!["e1".to_string(), "e2".to_string()], 5);
    assert_eq!(commands.len(), 3);
    for (i, json) in ["e1", "e2"].iter().enumerate() {
        match &commands[i] {
            Command::LPush { key, value } => {
                assert_eq!(key, "draw_queue");
                assert_eq!(value, json);
            }
            other => panic!("unexpected command {:?}", other),
        }
    }
    assert!(matches!(&commands[2], Command::SetText { .. }));
}

#[test]
fn streaming_starts_after_the_last_processed_block() {
    assert_eq!(start_block(None), None);
    assert_eq!(start_block(Some(0)), Some(1));
    assert_eq!(start_block(Some(41)), Some(42));
}
