use berryfast::api::{
    account_stats, fresh_since, last_updated_header, open_region_list, pair_coords, parse_coords,
    timestamp_rows, AccountEntry, CountEntry, TimestampEntry, TimestampRow,
};
use berryfast::config::Config;
use berryfast::contract::Contract;
use berryfast::ws::{classify_client_message, ClientRequest};

#[test]
fn coordinate_lists_are_trimmed_and_filtered() {
    assert_eq!(parse_coords("0,0,1,-2"), vec![0, 0, 1, -2]);
    assert_eq!(parse_coords(" 1 ,\t2\n, +3 ,x,, 4"), vec![1, 2, 3, 4]);
    assert_eq!(parse_coords(""), Vec::<i32>::new());
    assert_eq!(parse_coords(",,,"), Vec::<i32>::new());
    assert_eq!(parse_coords("1 2,3"), vec![3]);
    assert_eq!(parse_coords("\u{00A0}7\u{2003},2147483648,-2147483648"), vec![7, i32::MIN]);
    assert_eq!(parse_coords("5,"), vec![5]);
}

#[test]
fn coordinate_lists_are_read_like_split_trim_parse() {
    for text in ["", "1", "1,2", " 1, 2 ,3", "a,1,b,2", ",1,,2,", "  ,  ", "1,2,3,4,5", "-0,+0", "1\u{0085},2"] {
        let expected: Vec<i32> = text.split(',').filter_map(|s| s.trim().parse().ok()).collect();
        assert_eq!(parse_coords(text), expected, "{:?}", text);
    }
}

#[test]
fn odd_trailing_coordinate_is_ignored() {
    assert_eq!(pair_coords(&vec![1, 2, 3, 4, 5]), vec![(1, 2), (3, 4)]);
    assert_eq!(pair_coords(&vec![1, 2]), vec![(1, 2)]);
    assert_eq!(pair_coords(&vec![1]), Vec::<(i32, i32)>::new());
    assert_eq!(pair_coords(&Vec::new()), Vec::<(i32, i32)>::new());
}

#[test]
fn last_updated_header_is_decimal_or_empty() {
    assert_eq!(last_updated_header(Some(1_700_000_000_000)), "1700000000000");
    assert_eq!(last_updated_header(Some(0)), "0");
    assert_eq!(last_updated_header(None), "");
}

#[test]
fn open_regions_are_listed_from_well_formed_members() {
    let members: Vec<String> =
        ["0:0", "-1:0", "junk", "1:2:3", "7:-8", ""].iter().map(|s| s.to_string()).collect();
    assert_eq!(open_region_list(&members), vec![(0, 0), (-1, 0), (7, -8)]);
}

#[test]
fn timestamp_rows_hold_place_and_time() {
    let entries = vec![
        TimestampEntry { member: "0,0".to_string(), score: 1000 },
        TimestampEntry { member: "bad".to_string(), score: 1 },
        TimestampEntry { member: "127,5".to_string(), score: 2000 },
    ];
    assert_eq!(
        timestamp_rows(&entries),
        vec![TimestampRow { lx: 0, ly: 0, ts_ms: 1000 }, TimestampRow { lx: 127, ly: 5, ts_ms: 2000 }]
    );
    assert_eq!(fresh_since(3_600_001), 1);
    assert_eq!(fresh_since(3_600_000), 0);
    assert_eq!(fresh_since(5), 0);
}

#[test]
fn account_statistics_leave_out_owners_without_an_account() {
    let counts = vec![
        CountEntry { owner: "2".to_string(), count: 5 },
        CountEntry { owner: "9".to_string(), count: 1 },
        CountEntry { owner: "1".to_string(), count: -3 },
    ];
    let accounts = vec![
        AccountEntry { owner: "1".to_string(), account_id: "alice".to_string() },
        AccountEntry { owner: "2".to_string(), account_id: "bob".to_string() },
        AccountEntry { owner: "2".to_string(), account_id: "bobby".to_string() },
    ];
    let stats: Vec<(String, i64)> =
        account_stats(&counts, &accounts).into_iter().map(|s| (s.account_id, s.pixel_count)).collect();
    assert_eq!(stats, vec![("bobby".to_string(), 5), ("alice".to_string(), -3)]);
}

#[test]
fn only_catch_up_with_a_timestamp_is_a_request() {
    assert_eq!(classify_client_message(Some("catch_up"), Some(5)), ClientRequest::CatchUp { since: 5 });
    assert_eq!(classify_client_message(Some("catch_up"), None), ClientRequest::Ignored);
    assert_eq!(classify_client_message(Some("catchup"), Some(5)), ClientRequest::Ignored);
    assert_eq!(classify_client_message(Some("draw"), Some(5)), ClientRequest::Ignored);
    assert_eq!(classify_client_message(None, Some(5)), ClientRequest::Ignored);
}

#[test]
fn configuration_defaults() {
    let config = Config::from_values(None, None);
    assert_eq!(config.valkey_url, "redis://127.0.0.1:6379");
    assert_eq!(config.listen_addr, "0.0.0.0:3000");
    let config = Config::from_values(Some("redis://kv:1".to_string()), Some("[::]:80".to_string()));
    assert_eq!(config.valkey_url, "redis://kv:1");
    assert_eq!(config.listen_addr, "[::]:80");
}

#[test]
fn contract_draw_does_nothing() {
    let mut contract = Contract::default();
    contract.draw();
    assert_eq!(contract, Contract {});
}
