use berryfast::board::{zeroed_blob, Board, CACHE_CAPACITY};
use berryfast::region::REGION_BLOB_SIZE;

#[test]
fn miss_then_load_then_hit() {
    let mut board = Board::new();
    assert_eq!(board.get_region(1, 2), None);
    let loaded = board.load_region(1, 2, vec![7u8; REGION_BLOB_SIZE]);
    assert_eq!(loaded, vec![7u8; REGION_BLOB_SIZE]);
    assert_eq!(board.get_region(1, 2), Some(vec![7u8; REGION_BLOB_SIZE]));
    assert_eq!(board.get_region(2, 1), None);
}

#[test]
fn absent_blob_loads_as_zeroes() {
    let mut board = Board::new();
    let loaded = board.load_region(0, 0, Vec::new());
    assert_eq!(loaded.len(), 98_304);
    assert!(loaded.iter().all(|b| *b == 0));
    assert_eq!(board.get_region(0, 0), Some(vec![0u8; REGION_BLOB_SIZE]));
    assert_eq!(zeroed_blob(), vec![0u8; REGION_BLOB_SIZE]);
}

#[test]
fn stored_blob_is_kept_as_it_is() {
    let mut board = Board::new();
    assert_eq!(board.load_region(0, 0, vec![1, 2, 3]), vec![1, 2, 3]);
    assert_eq!(board.get_region(0, 0), Some(vec![1, 2, 3]));
}

#[test]
fn later_load_replaces_the_cached_blob() {
    let mut board = Board::new();
    board.load_region(0, 0, vec![1]);
    board.load_region(0, 0, vec![2]);
    assert_eq!(board.get_region(0, 0), Some(vec![2]));
}

#[test]
fn least_recently_used_region_is_displaced_when_full() {
    assert_eq!(CACHE_CAPACITY, 256);
    let mut board = Board::new();
    for i in 0..256 {
        board.load_region(i, 0, vec![i as u8]);
    }
    // Touch region 0, so that region 1 is the least recently used.
    assert_eq!(board.get_region(0, 0), Some(vec![0]));
    board.load_region(1000, 0, vec![9]);
    assert_eq!(board.get_region(1, 0), None);
    assert_eq!(board.get_region(0, 0), Some(vec![0]));
    assert_eq!(board.get_region(2, 0), Some(vec![2]));
    assert_eq!(board.get_region(255, 0), Some(vec![255]));
    assert_eq!(board.get_region(1000, 0), Some(vec![9]));
}
