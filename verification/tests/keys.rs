use berryfast::text::{chars_of, find_char, parse_digits, parse_i32, parse_u64};
use berryfast::valkey::{
    decimal_string, owner_field, parse_region_field, parse_ts_member, pixel_ts_key, region_field,
    region_key, region_meta_key, ts_member, ACCOUNT_PIXEL_COUNT, ACCOUNT_TO_ID, DRAW_EVENTS_ZSET,
    DRAW_QUEUE, ID_TO_ACCOUNT, LAST_PROCESSED_BLOCK, OPEN_REGIONS, PROCESSING_QUEUE,
    REGION_PIXEL_COUNT,
};

#[test]
fn region_keys_hold_both_coordinates() {
    assert_eq!(region_key(0, 0), "region:0:0");
    assert_eq!(region_key(-1, 12), "region:-1:12");
    assert_eq!(region_meta_key(3, -4), "region_meta:3:-4");
    assert_eq!(pixel_ts_key(-16_777_216, 16_777_215), "pixel_ts:-16777216:16777215");
    assert_eq!(region_key(i32::MIN, i32::MAX), "region:-2147483648:2147483647");
}

#[test]
fn names_are_decimal() {
    assert_eq!(region_field(10, -10), "10:-10");
    assert_eq!(ts_member(0, 127), "0,127");
    assert_eq!(ts_member(100, 9), "100,9");
    assert_eq!(owner_field(1), "1");
    assert_eq!(owner_field(16_777_215), "16777215");
    assert_eq!(decimal_string(0), "0");
    assert_eq!(decimal_string(u64::MAX), "18446744073709551615");
}

#[test]
fn fixed_keys() {
    assert_eq!(DRAW_QUEUE, "draw_queue");
    assert_eq!(PROCESSING_QUEUE, "processing_queue");
    assert_eq!(LAST_PROCESSED_BLOCK, "last_processed_block");
    assert_eq!(ACCOUNT_TO_ID, "account_to_id");
    assert_eq!(ID_TO_ACCOUNT, "id_to_account");
    assert_eq!(DRAW_EVENTS_ZSET, "draw_events");
    assert_eq!(ACCOUNT_PIXEL_COUNT, "account_pixel_count");
    assert_eq!(REGION_PIXEL_COUNT, "region_pixel_count");
    assert_eq!(OPEN_REGIONS, "open_regions");
}

#[test]
fn region_names_parse_back() {
    for (rx, ry) in [(0, 0), (-1, 1), (i32::MIN, i32::MAX), (16_777_215, -16_777_216)] {
        assert_eq!(parse_region_field(&region_field(rx, ry)), Some((rx, ry)));
    }
    assert_eq!(parse_region_field("+3:-0"), Some((3, 0)));
    assert_eq!(parse_region_field("007:08"), Some((7, 8)));
}

#[test]
fn malformed_region_names_are_refused() {
    for bad in ["", ":", "1:", ":1", "1", "1:2:3", "1,2", "a:b", "1: 2", "2147483648:0", "0:-2147483649", "-:1", "+:1", "--1:1"] {
        assert_eq!(parse_region_field(bad), None, "{}", bad);
    }
}

#[test]
fn member_names_parse_back() {
    for (lx, ly) in [(0usize, 0usize), (127, 0), (5, 99)] {
        assert_eq!(parse_ts_member(&ts_member(lx, ly)), Some((lx as u64, ly as u64)));
    }
    assert_eq!(parse_ts_member("18446744073709551615,+1"), Some((u64::MAX, 1)));
}

#[test]
fn malformed_member_names_are_refused() {
    for bad in ["", ",", "1,", ",1", "12", "1,2,3", "1:2", "-1,2", "1,-2", "18446744073709551616,0", "1, 2", "x,y"] {
        assert_eq!(parse_ts_member(bad), None, "{}", bad);
    }
}

#[test]
fn numbers_are_read_like_the_standard_parsers_read_them() {
    for text in ["", "+", "-", "0", "-0", "+0", "00012", "2147483647", "2147483648", "-2147483648", "-2147483649", "12a", " 1", "1 ", "+-1", "99999999999999999999", "١٢"] {
        let cs = chars_of(text);
        assert_eq!(parse_i32(&cs, 0, cs.len()), text.parse::<i32>().ok(), "{}", text);
        assert_eq!(parse_u64(&cs, 0, cs.len()), text.parse::<u64>().ok(), "{}", text);
    }
    let cs = chars_of("18446744073709551615");
    assert_eq!(parse_u64(&cs, 0, cs.len()), Some(u64::MAX));
    let cs = chars_of("18446744073709551616");
    assert_eq!(parse_u64(&cs, 0, cs.len()), None);
}

#[test]
fn digits_are_read_within_a_range_and_a_limit() {
    let cs = chars_of("ab123cd");
    assert_eq!(parse_digits(&cs, 2, 5, 1000), Some(123));
    assert_eq!(parse_digits(&cs, 2, 5, 123), Some(123));
    assert_eq!(parse_digits(&cs, 2, 5, 122), None);
    assert_eq!(parse_digits(&cs, 2, 2, 1000), None);
    assert_eq!(parse_digits(&cs, 1, 5, 1000), None);
    assert_eq!(find_char(&cs, 0, cs.len(), '2'), Some(3));
    assert_eq!(find_char(&cs, 4, cs.len(), '2'), None);
    assert_eq!(chars_of("héllo"), vec!['h', 'é', 'l', 'l', 'o']);
}
