use berryfast::board::{AppliedPixel, Board, RegionSnapshot};
use berryfast::bucket::{bucket_pixels, RegionBucket, RegionPixel};
use berryfast::pipeline::{expansion_targets, newly_opened, open_command};
use berryfast::consumer::{
    after_pop, completion_commands, draw_envelope, regions_opened_envelope, NextStep, Popped,
};
use berryfast::draw_event::{DrawEvent, DrawPixel};
use berryfast::owner::{resolve_owner_id, OwnerResolution};
use berryfast::region::{Pixel, REGION_BLOB_SIZE};
use berryfast::store::{Command, ScoredMember};
use berryfast::tally::{apply_pixels, read_pixel, write_pixel, Steal};
use berryfast::valkey::{pixel_ts_key, region_field, region_key, ts_member};
use std::collections::{BTreeSet, HashMap, VecDeque};

/// A key-value store in memory that runs the library's commands.
#[derive(Default)]
struct MemoryStore {
    blobs: HashMap<String, Vec<u8>>,
    texts: HashMap<String, String>,
    hashes: HashMap<String, HashMap<String, String>>,
    counters: HashMap<String, HashMap<String, i64>>,
    sets: HashMap<String, BTreeSet<String>>,
    sorted: HashMap<String, HashMap<String, u64>>,
    lists: HashMap<String, VecDeque<String>>,
    writes: usize,
}

impl MemoryStore {
    fn run(&mut self, commands: &[Command]) {
        for command in commands {
            self.writes += 1;
            match command {
                Command::ZAdd { key, entries } => {
                    let set = self.sorted.entry(key.clone()).or_default();
                    for e in entries {
                        set.insert(e.member.clone(), e.score);
                    }
                }
                Command::ZRemRangeByScore { key, min, max } => {
                    if let Some(set) = self.sorted.get_mut(key) {
                        set.retain(|_, score| !(*min <= *score && *score <= *max));
                    }
                }
                Command::SetBlob { key, value } => {
                    self.blobs.insert(key.clone(), value.clone());
                }
                Command::SetText { key, value } => {
                    self.texts.insert(key.clone(), value.clone());
                }
                Command::HSet { key, field, value } => {
                    self.hashes.entry(key.clone()).or_default().insert(field.clone(), value.clone());
                }
                Command::HIncrBy { key, field, delta } => {
                    *self.counters.entry(key.clone()).or_default().entry(field.clone()).or_insert(0) +=
                        *delta;
                }
                Command::SAdd { key, member } => {
                    self.sets.entry(key.clone()).or_default().insert(member.clone());
                }
                Command::LPush { key, value } => {
                    self.lists.entry(key.clone()).or_default().push_front(value.clone());
                }
                Command::LRem { key, value } => {
                    if let Some(list) = self.lists.get_mut(key) {
                        if let Some(at) = list.iter().position(|v| v == value) {
                            list.remove(at);
                        }
                    }
                }
            }
        }
    }

    fn sadd(&mut self, command: &Command) -> i64 {
        match command {
            Command::SAdd { key, member } => {
                if self.sets.entry(key.clone()).or_default().insert(member.clone()) {
                    1
                } else {
                    0
                }
            }
            _ => panic!("not an SADD"),
        }
    }

    fn is_open(&self, rx: i32, ry: i32) -> bool {
        self.sets.get("open_regions").map_or(false, |s| s.contains(&region_field(rx, ry)))
    }

    fn open(&mut self, rx: i32, ry: i32) {
        self.sets.entry("open_regions".to_string()).or_default().insert(region_field(rx, ry));
    }

    fn score(&self, rx: i32, ry: i32, lx: usize, ly: usize) -> Option<u64> {
        self.sorted.get(&pixel_ts_key(rx, ry)).and_then(|s| s.get(&ts_member(lx, ly)).copied())
    }

    fn counter(&self, key: &str, field: &str) -> i64 {
        self.counters.get(key).and_then(|h| h.get(field).copied()).unwrap_or(0)
    }

    fn blob(&self, rx: i32, ry: i32) -> Vec<u8> {
        self.blobs.get(&region_key(rx, ry)).cloned().unwrap_or_default()
    }

    fn move_tail(&mut self, source: &str, target: &str) -> Option<String> {
        let item = self.lists.get_mut(source)?.pop_back()?;
        self.lists.entry(target.to_string()).or_default().push_front(item.clone());
        Some(item)
    }

    fn list_len(&self, key: &str) -> usize {
        self.lists.get(key).map_or(0, |l| l.len())
    }
}

/// Applies an event the way the server does: every read and write goes to
/// the store, every decision to the library.
fn apply_event(
    store: &mut MemoryStore,
    board: &mut Board,
    event: &DrawEvent,
) -> (Vec<AppliedPixel>, Vec<(i32, i32)>) {
    let existing = store
        .hashes
        .get("account_to_id")
        .and_then(|h| h.get(&event.predecessor_id))
        .map(|v| v.parse::<u32>().unwrap());
    let registry_len = store.hashes.get("account_to_id").map_or(0, |h| h.len()) as u32;
    let owner_id = match resolve_owner_id(&event.predecessor_id, existing, registry_len) {
        OwnerResolution::Known { owner_id } => owner_id,
        OwnerResolution::Assigned { owner_id, commands } => {
            store.run(&commands);
            owner_id
        }
        OwnerResolution::Exhausted => panic!("registry exhausted"),
    };
    let mut applied = Vec::new();
    let mut opened = Vec::new();
    for bucket in bucket_pixels(&event.pixels) {
        let (rx, ry) = (bucket.rx, bucket.ry);
        let snapshot = if store.is_open(rx, ry) {
            let blob = match board.get_region(rx, ry) {
                Some(blob) => blob,
                None => board.load_region(rx, ry, store.blob(rx, ry)),
            };
            assert_eq!(blob.len(), REGION_BLOB_SIZE);
            let scores = bucket.pixels.iter().map(|p| store.score(rx, ry, p.lx, p.ly)).collect();
            RegionSnapshot::Open { blob, scores }
        } else {
            RegionSnapshot::Closed
        };
        let result = board.apply_bucket(&bucket, snapshot, owner_id, event.block_timestamp_ms);
        store.run(&result.commands);
        applied.extend(result.applied.iter().copied());
        if result.claimed > 0 {
            let count = store.counter("region_pixel_count", &region_field(rx, ry));
            let targets = expansion_targets(rx, ry, result.claimed, count);
            let replies: Vec<i64> =
                targets.iter().map(|(nx, ny)| store.sadd(&open_command(*nx, *ny))).collect();
            opened.extend(newly_opened(&targets, &replies));
        }
    }
    (applied, opened)
}

fn event(signer: &str, ts: u64, pixels: &[(i32, i32, &str)]) -> DrawEvent {
    DrawEvent {
        predecessor_id: signer.to_string(),
        block_height: 1,
        block_timestamp_ms: ts,
        pixels: pixels
            .iter()
            .map(|(x, y, color)| DrawPixel { x: *x, y: *y, color: color.to_string() })
            .collect(),
    }
}

fn seeded() -> (MemoryStore, Board) {
    let mut store = MemoryStore::default();
    store.open(0, 0);
    (store, Board::new())
}

#[test]
fn first_draw_claims_the_pixel() {
    let (mut store, mut board) = seeded();
    let (applied, opened) = apply_event(&mut store, &mut board, &event("alice", 1000, &[(0, 0, "FF0000")]));
    assert_eq!(applied, vec![AppliedPixel { x: 0, y: 0, r: 255, g: 0, b: 0, owner_id: 1 }]);
    assert!(opened.is_empty());
    assert_eq!(&store.blob(0, 0)[0..6], &[0xFF, 0x00, 0x00, 0x01, 0x00, 0x00]);
    assert_eq!(store.blob(0, 0).len(), REGION_BLOB_SIZE);
    assert_eq!(store.counter("account_pixel_count", "1"), 1);
    assert_eq!(store.counter("region_pixel_count", "0:0"), 1);
    assert_eq!(store.score(0, 0, 0, 0), Some(1000));
    assert_eq!(store.hashes["region_meta:0:0"]["last_updated"], "1000");
    assert_eq!(store.hashes["account_to_id"]["alice"], "1");
    assert_eq!(store.hashes["id_to_account"]["1"], "alice");
}

#[test]
fn overwrite_within_the_window_moves_the_pixel_to_the_new_owner() {
    let (mut store, mut board) = seeded();
    apply_event(&mut store, &mut board, &event("alice", 1000, &[(0, 0, "FF0000")]));
    let (applied, _) = apply_event(&mut store, &mut board, &event("bob", 1001, &[(0, 0, "00FF00")]));
    assert_eq!(applied, vec![AppliedPixel { x: 0, y: 0, r: 0, g: 255, b: 0, owner_id: 2 }]);
    assert_eq!(&store.blob(0, 0)[0..6], &[0x00, 0xFF, 0x00, 0x02, 0x00, 0x00]);
    assert_eq!(store.counter("account_pixel_count", "1"), 0);
    assert_eq!(store.counter("account_pixel_count", "2"), 1);
    assert_eq!(store.counter("region_pixel_count", "0:0"), 1);
    assert_eq!(store.score(0, 0, 0, 0), Some(1001));
}

#[test]
fn write_after_the_window_is_refused_and_the_entry_is_trimmed() {
    let (mut store, mut board) = seeded();
    apply_event(&mut store, &mut board, &event("alice", 1000, &[(0, 0, "FF0000")]));
    apply_event(&mut store, &mut board, &event("bob", 1001, &[(0, 0, "00FF00")]));
    let before = store.blob(0, 0);
    let (applied, _) =
        apply_event(&mut store, &mut board, &event("alice", 1001 + 3_600_000, &[(0, 0, "000000")]));
    assert!(applied.is_empty());
    assert_eq!(store.blob(0, 0), before);
    assert_eq!(store.score(0, 0, 0, 0), None);
    assert_eq!(store.counter("account_pixel_count", "1"), 0);
    assert_eq!(store.counter("account_pixel_count", "2"), 1);
    // The pixel is permanent from now on, whatever the time of the event.
    let (later, _) = apply_event(&mut store, &mut board, &event("alice", 1002, &[(0, 0, "000000")]));
    assert!(later.is_empty());
    assert_eq!(store.blob(0, 0), before);
}

#[test]
fn write_one_millisecond_before_the_window_ends_is_applied() {
    let (mut store, mut board) = seeded();
    apply_event(&mut store, &mut board, &event("alice", 1000, &[(0, 0, "FF0000")]));
    let (applied, _) =
        apply_event(&mut store, &mut board, &event("bob", 1000 + 3_599_999, &[(0, 0, "0000FF")]));
    assert_eq!(applied.len(), 1);
    assert_eq!(store.counter("account_pixel_count", "1"), 0);
    assert_eq!(store.counter("account_pixel_count", "2"), 1);
}

#[test]
fn reaching_the_threshold_opens_the_four_neighbors() {
    let (mut store, mut board) = seeded();
    let mut pixels = Vec::new();
    for i in 0..3276 {
        pixels.push((i % 128, i / 128, "112233"));
    }
    let (applied, opened) = apply_event(&mut store, &mut board, &event("alice", 5000, &pixels));
    assert_eq!(applied.len(), 3276);
    assert_eq!(store.counter("region_pixel_count", "0:0"), 3276);
    assert_eq!(store.counter("account_pixel_count", "1"), 3276);
    assert_eq!(opened, vec![(-1, 0), (1, 0), (0, -1), (0, 1)]);
    for (rx, ry) in [(0, 0), (-1, 0), (1, 0), (0, -1), (0, 1)] {
        assert!(store.is_open(rx, ry));
    }
    let envelope = regions_opened_envelope(opened).unwrap();
    assert_eq!(envelope.regions, vec![(-1, 0), (1, 0), (0, -1), (0, 1)]);
}

#[test]
fn one_pixel_short_of_the_threshold_opens_nothing() {
    let (mut store, mut board) = seeded();
    let mut pixels = Vec::new();
    for i in 0..3275 {
        pixels.push((i % 128, i / 128, "112233"));
    }
    let (applied, opened) = apply_event(&mut store, &mut board, &event("alice", 5000, &pixels));
    assert_eq!(applied.len(), 3275);
    assert!(opened.is_empty());
    assert!(!store.is_open(1, 0));
    // The next claim crosses the threshold; regions that are open already
    // are not reported again.
    store.open(1, 0);
    let (_, opened) = apply_event(&mut store, &mut board, &event("bob", 5001, &[(127, 127, "000001")]));
    assert_eq!(opened, vec![(-1, 0), (0, -1), (0, 1)]);
}

#[test]
fn pixels_in_a_closed_region_are_dropped() {
    let (mut store, mut board) = seeded();
    let (applied, opened) =
        apply_event(&mut store, &mut board, &event("alice", 1000, &[(0, 0, "FF0000"), (128, 0, "00FF00")]));
    assert_eq!(applied, vec![AppliedPixel { x: 0, y: 0, r: 255, g: 0, b: 0, owner_id: 1 }]);
    assert!(opened.is_empty());
    assert!(store.blob(1, 0).is_empty());
    assert_eq!(store.score(1, 0, 0, 0), None);
    assert_eq!(store.counter("region_pixel_count", "1:0"), 0);
    let e = event("alice", 1000, &[(0, 0, "FF0000")]);
    let envelope = draw_envelope(&e, &applied).unwrap();
    assert_eq!(envelope.pixels.len(), 1);
}

#[test]
fn closed_region_gets_no_write_at_all() {
    let mut store = MemoryStore::default();
    let mut board = Board::new();
    store.run(&[]);
    let bucket = bucket_pixels(&event("alice", 1, &[(5, 5, "FFFFFF")]).pixels).remove(0);
    let result = board.apply_bucket(&bucket, RegionSnapshot::Closed, 1, 1);
    assert!(result.applied.is_empty());
    assert!(result.commands.is_empty());
    assert_eq!(result.claimed, 0);
    assert_eq!(board.get_region(0, 0), None);
}

#[test]
fn undrawn_pixels_are_all_applied_and_counted() {
    let (mut store, mut board) = seeded();
    let pixels = [(3, 4, "010203"), (4, 4, "040506"), (127, 127, "070809")];
    let (applied, _) = apply_event(&mut store, &mut board, &event("carol", 77, &pixels));
    assert_eq!(applied.len(), pixels.len());
    assert_eq!(store.counter("account_pixel_count", "1"), 3);
    let blob = store.blob(0, 0);
    let at = (127 * 128 + 127) * 6;
    assert_eq!(Pixel::decode(&blob[at..at + 6]), Pixel { r: 7, g: 8, b: 9, owner_id: 1 });
}

#[test]
fn same_undrawn_pixel_twice_in_one_event_is_written_once() {
    let (mut store, mut board) = seeded();
    let (applied, _) =
        apply_event(&mut store, &mut board, &event("alice", 10, &[(1, 1, "AAAAAA"), (1, 1, "BBBBBB")]));
    assert_eq!(applied, vec![AppliedPixel { x: 1, y: 1, r: 0xAA, g: 0xAA, b: 0xAA, owner_id: 1 }]);
    assert_eq!(store.counter("account_pixel_count", "1"), 1);
}

#[test]
fn rewrite_by_the_same_owner_refreshes_the_time_and_changes_no_count() {
    let (mut store, mut board) = seeded();
    apply_event(&mut store, &mut board, &event("alice", 1000, &[(0, 0, "FF0000")]));
    let (applied, _) = apply_event(&mut store, &mut board, &event("alice", 2000, &[(0, 0, "FF0000")]));
    assert_eq!(applied.len(), 1);
    assert_eq!(store.score(0, 0, 0, 0), Some(2000));
    assert_eq!(store.counter("account_pixel_count", "1"), 1);
    assert_eq!(store.counter("region_pixel_count", "0:0"), 1);
}

#[test]
fn steals_from_two_owners_are_counted_per_owner() {
    let (mut store, mut board) = seeded();
    apply_event(&mut store, &mut board, &event("alice", 1000, &[(0, 0, "FF0000"), (1, 0, "FF0000")]));
    apply_event(&mut store, &mut board, &event("bob", 1001, &[(2, 0, "00FF00")]));
    let (applied, _) = apply_event(
        &mut store,
        &mut board,
        &event("carol", 1002, &[(0, 0, "0000FF"), (2, 0, "0000FF"), (1, 0, "0000FF"), (9, 9, "0000FF")]),
    );
    assert_eq!(applied.len(), 4);
    assert_eq!(store.counter("account_pixel_count", "1"), 0);
    assert_eq!(store.counter("account_pixel_count", "2"), 0);
    assert_eq!(store.counter("account_pixel_count", "3"), 4);
    assert_eq!(store.counter("region_pixel_count", "0:0"), 4);
}

#[test]
fn negative_world_coordinates_land_in_negative_regions() {
    let mut store = MemoryStore::default();
    store.open(-1, -1);
    let mut board = Board::new();
    let (applied, _) = apply_event(&mut store, &mut board, &event("alice", 5, &[(-1, -1, "ABCDEF")]));
    assert_eq!(applied, vec![AppliedPixel { x: -1, y: -1, r: 0xAB, g: 0xCD, b: 0xEF, owner_id: 1 }]);
    assert_eq!(store.score(-1, -1, 127, 127), Some(5));
    assert_eq!(store.counter("region_pixel_count", "-1:-1"), 1);
    assert!(store.blobs.contains_key("region:-1:-1"));
}

#[test]
fn consumer_takes_events_in_the_order_they_were_pushed() {
    let mut store = MemoryStore::default();
    let pushes = berryfast::ingest::block_commands(&vec!["a".to_string(), "b".to_string()], 9);
    store.run(&pushes);
    assert_eq!(store.texts["last_processed_block"], "9");
    assert_eq!(store.move_tail("draw_queue", "processing_queue"), Some("a".to_string()));
    store.run(&completion_commands("a", None, 1));
    assert_eq!(store.move_tail("draw_queue", "processing_queue"), Some("b".to_string()));
    assert_eq!(store.list_len("processing_queue"), 1);
    store.run(&completion_commands("b", Some("{}"), 10_000_000));
    assert_eq!(store.list_len("draw_queue"), 0);
    assert_eq!(store.list_len("processing_queue"), 0);
    assert_eq!(store.sorted["draw_events"]["{}"], 10_000_000);
}

#[test]
fn event_in_flight_stays_in_the_processing_queue_until_completed() {
    let (mut store, mut board) = seeded();
    store.run(&berryfast::ingest::block_commands(&vec!["raw".to_string()], 1));
    let raw = store.move_tail("draw_queue", "processing_queue").unwrap();
    apply_event(&mut store, &mut board, &event("alice", 1000, &[(0, 0, "FF0000")]));
    assert_eq!(store.lists["processing_queue"], VecDeque::from(vec![raw.clone()]));
    assert_eq!(store.list_len("draw_queue"), 0);
    store.run(&completion_commands(&raw, Some("json"), 1000));
    assert_eq!(store.list_len("processing_queue"), 0);
}

#[test]
fn replay_log_is_trimmed_to_two_hours() {
    let mut store = MemoryStore::default();
    store.run(&completion_commands("r1", Some("old"), 1_000));
    store.run(&completion_commands("r2", Some("edge"), 2_000));
    store.run(&completion_commands("r3", Some("new"), 2_000 + 7_200_000));
    let log = &store.sorted["draw_events"];
    assert!(!log.contains_key("old"));
    assert!(!log.contains_key("edge"));
    assert_eq!(log["new"], 7_202_000);
}

#[test]
fn consumer_waits_after_failure_and_on_empty_queue() {
    assert!(matches!(after_pop(Popped::Failed), NextStep::Wait { millis: 100 }));
    assert!(matches!(after_pop(Popped::Empty), NextStep::Wait { millis: 50 }));
    match after_pop(Popped::Item("x".to_string())) {
        NextStep::Process { raw } => assert_eq!(raw, "x"),
        NextStep::Wait { .. } => panic!("an item is processed"),
    }
}

#[test]
fn draw_envelope_carries_upper_case_colors() {
    let e = event("alice", 42, &[]);
    let applied = vec![
        AppliedPixel { x: -5, y: 7, r: 0xab, g: 0x0c, b: 0xff, owner_id: 1 },
        AppliedPixel { x: 1, y: 2, r: 0, g: 0, b: 0, owner_id: 1 },
    ];
    let envelope = draw_envelope(&e, &applied).unwrap();
    assert_eq!(envelope.signer, "alice");
    assert_eq!(envelope.block_timestamp_ms, 42);
    assert_eq!(envelope.pixels[0].x, -5);
    assert_eq!(envelope.pixels[0].y, 7);
    assert_eq!(envelope.pixels[0].color, "AB0CFF");
    assert_eq!(envelope.pixels[1].color, "000000");
    assert!(draw_envelope(&e, &Vec::new()).is_none());
    assert!(regions_opened_envelope(Vec::new()).is_none());
}

#[test]
fn owner_indices_are_dense_and_start_at_one() {
    match resolve_owner_id("alice", None, 0) {
        OwnerResolution::Assigned { owner_id, commands } => {
            assert_eq!(owner_id, 1);
            assert_eq!(commands.len(), 2);
        }
        _ => panic!("a new account is assigned"),
    }
    assert!(matches!(resolve_owner_id("bob", Some(7), 99), OwnerResolution::Known { owner_id: 7 }));
    assert!(matches!(
        resolve_owner_id("bob", None, 0xFF_FFFD),
        OwnerResolution::Assigned { owner_id: 0xFF_FFFE, .. }
    ));
    assert!(matches!(resolve_owner_id("bob", None, 0xFF_FFFE), OwnerResolution::Assigned { .. }));
    assert!(matches!(resolve_owner_id("bob", None, 0xFF_FFFF), OwnerResolution::Exhausted));
    assert!(matches!(resolve_owner_id("bob", None, u32::MAX), OwnerResolution::Exhausted));
}

fn mixed_region() -> (Vec<u8>, RegionBucket, Vec<Option<u64>>) {
    let mut blob = vec![0u8; REGION_BLOB_SIZE];
    write_pixel(&mut blob, 1, 0, &Pixel { r: 1, g: 1, b: 1, owner_id: 7 });
    write_pixel(&mut blob, 2, 0, &Pixel { r: 2, g: 2, b: 2, owner_id: 8 });
    write_pixel(&mut blob, 3, 0, &Pixel { r: 3, g: 3, b: 3, owner_id: 5 });
    write_pixel(&mut blob, 4, 0, &Pixel { r: 4, g: 4, b: 4, owner_id: 7 });
    write_pixel(&mut blob, 5, 0, &Pixel { r: 5, g: 5, b: 5, owner_id: 9 });
    let pixels = (0..6).map(|lx| RegionPixel { lx, ly: 0, r: 0xA0 + lx as u8, g: 0, b: 0 }).collect();
    let bucket = RegionBucket { rx: -2, ry: 3, pixels };
    // Undrawn; young; exactly one window old; own pixel; written in the
    // future; drawn without a recorded write.
    let scores =
        vec![None, Some(3_000_000), Some(400_000), Some(3_999_999), Some(4_000_001), None];
    (blob, bucket, scores)
}

#[test]
fn pixels_are_written_claimed_stolen_or_skipped() {
    let (mut blob, bucket, scores) = mixed_region();
    let before = blob.clone();
    let outcome = apply_pixels(&mut blob, &bucket, &scores, 5, 4_000_000);
    let written: Vec<usize> = outcome.written.iter().map(|p| p.lx).collect();
    assert_eq!(written, vec![0, 1, 3, 4]);
    assert_eq!(outcome.claimed, 1);
    assert_eq!(outcome.stolen, vec![Steal { owner_id: 7, count: 2 }]);
    assert_eq!(
        outcome.applied,
        vec![
            AppliedPixel { x: -256, y: 384, r: 0xA0, g: 0, b: 0, owner_id: 5 },
            AppliedPixel { x: -255, y: 384, r: 0xA1, g: 0, b: 0, owner_id: 5 },
            AppliedPixel { x: -253, y: 384, r: 0xA3, g: 0, b: 0, owner_id: 5 },
            AppliedPixel { x: -252, y: 384, r: 0xA4, g: 0, b: 0, owner_id: 5 },
        ]
    );
    for lx in [0, 1, 3, 4] {
        assert_eq!(read_pixel(&blob, lx, 0), Pixel { r: 0xA0 + lx as u8, g: 0, b: 0, owner_id: 5 });
    }
    assert_eq!(read_pixel(&blob, 2, 0), Pixel { r: 2, g: 2, b: 2, owner_id: 8 });
    assert_eq!(read_pixel(&blob, 5, 0), Pixel { r: 5, g: 5, b: 5, owner_id: 9 });
    assert_eq!(&blob[36..], &before[36..]);
}

#[test]
fn region_pipeline_lists_the_writes_in_order() {
    let (blob, bucket, scores) = mixed_region();
    let mut board = Board::new();
    let snapshot = RegionSnapshot::Open { blob, scores };
    let result = board.apply_bucket(&bucket, snapshot, 5, 4_000_000);
    assert_eq!(result.claimed, 1);
    assert_eq!(result.applied.len(), 4);
    let cached = board.get_region(-2, 3).unwrap();
    let member = |name: &str| ScoredMember { member: name.to_string(), score: 4_000_000 };
    let text = |t: &str| t.to_string();
    assert_eq!(
        result.commands,
        vec![
            Command::ZAdd {
                key: text("pixel_ts:-2:3"),
                entries: vec![member("0,0"), member("1,0"), member("3,0"), member("4,0")],
            },
            Command::ZRemRangeByScore { key: text("pixel_ts:-2:3"), min: 0, max: 400_000 },
            Command::SetBlob { key: text("region:-2:3"), value: cached },
            Command::HSet {
                key: text("region_meta:-2:3"),
                field: text("last_updated"),
                value: text("4000000"),
            },
            Command::HIncrBy { key: text("account_pixel_count"), field: text("5"), delta: 3 },
            Command::HIncrBy { key: text("account_pixel_count"), field: text("7"), delta: -2 },
            Command::HIncrBy { key: text("region_pixel_count"), field: text("-2:3"), delta: 1 },
        ]
    );
}

#[test]
fn event_that_writes_nothing_still_trims_and_stamps_the_region() {
    let mut blob = vec![0u8; REGION_BLOB_SIZE];
    write_pixel(&mut blob, 0, 0, &Pixel { r: 1, g: 1, b: 1, owner_id: 7 });
    let bucket = RegionBucket { rx: 0, ry: 0, pixels: vec![RegionPixel { lx: 0, ly: 0, r: 9, g: 9, b: 9 }] };
    let mut board = Board::new();
    let snapshot = RegionSnapshot::Open { blob: blob.clone(), scores: vec![None] };
    let result = board.apply_bucket(&bucket, snapshot, 2, 1_000);
    assert!(result.applied.is_empty());
    let text = |t: &str| t.to_string();
    assert_eq!(
        result.commands,
        vec![
            Command::ZRemRangeByScore { key: text("pixel_ts:0:0"), min: 0, max: 0 },
            Command::SetBlob { key: text("region:0:0"), value: blob },
            Command::HSet { key: text("region_meta:0:0"), field: text("last_updated"), value: text("1000") },
            Command::HIncrBy { key: text("account_pixel_count"), field: text("2"), delta: 0 },
        ]
    );
}

#[test]
fn buckets_keep_first_appearance_order_and_input_order() {
    let e = event(
        "alice",
        1,
        &[(130, 1, "010101"), (0, 0, "020202"), (1, 1, "bad"), (129, 0, "030303"), (-1, 0, "040404"), (5, 5, "050505")],
    );
    let buckets = bucket_pixels(&e.pixels);
    let regions: Vec<(i32, i32)> = buckets.iter().map(|b| (b.rx, b.ry)).collect();
    assert_eq!(regions, vec![(1, 0), (0, 0), (-1, 0)]);
    assert_eq!(
        buckets[0].pixels,
        vec![RegionPixel { lx: 2, ly: 1, r: 1, g: 1, b: 1 }, RegionPixel { lx: 1, ly: 0, r: 3, g: 3, b: 3 }]
    );
    assert_eq!(
        buckets[1].pixels,
        vec![RegionPixel { lx: 0, ly: 0, r: 2, g: 2, b: 2 }, RegionPixel { lx: 5, ly: 5, r: 5, g: 5, b: 5 }]
    );
    assert_eq!(buckets[2].pixels, vec![RegionPixel { lx: 127, ly: 0, r: 4, g: 4, b: 4 }]);
    assert!(bucket_pixels(&event("a", 1, &[(0, 0, "nothex")]).pixels).is_empty());
}
