//! Key layout of the key-value store: the fixed keys, the per-region keys,
//! and the names under which regions, pixels and owners appear in hashes,
//! sets and sorted sets.

use crate::text::{
    chars_of, decimal, find_char, lemma_decimal_round_trip, parse_i32, parse_u64, push_char,
    push_decimal, push_signed_decimal, text_i32, text_u64, unsigned_text,
};
use vstd::prelude::*;
use vstd::string::*;

verus! {

/// Key of the draw event queue (pushed at the head, popped at the tail).
pub const DRAW_QUEUE: &'static str = "draw_queue";

/// Key of the list that holds the event in flight.
pub const PROCESSING_QUEUE: &'static str = "processing_queue";

/// Key of the last processed block height.
pub const LAST_PROCESSED_BLOCK: &'static str = "last_processed_block";

/// Key of the hash from account id to owner index.
pub const ACCOUNT_TO_ID: &'static str = "account_to_id";

/// Key of the hash from owner index to account id.
pub const ID_TO_ACCOUNT: &'static str = "id_to_account";

/// Key of the sorted set of recent outbound events, scored by timestamp.
pub const DRAW_EVENTS_ZSET: &'static str = "draw_events";

/// Key of the hash from owner index to the number of pixels it owns.
pub const ACCOUNT_PIXEL_COUNT: &'static str = "account_pixel_count";

/// Key of the hash from region name to the number of pixels ever claimed.
pub const REGION_PIXEL_COUNT: &'static str = "region_pixel_count";

/// Key of the set of the names of the regions that are open for drawing.
pub const OPEN_REGIONS: &'static str = "open_regions";

/// Field of a region's metadata hash that holds the time of its last write.
pub const LAST_UPDATED: &'static str = "last_updated";

/// The name of a region in sets and hashes: `rx:ry`.
pub open spec fn region_name(rx: int, ry: int) -> Seq<char> {
    decimal(rx) + seq![':'] + decimal(ry)
}

/// The name of a pixel in its region's timestamp index: `lx,ly`.
pub open spec fn member_name(lx: int, ly: int) -> Seq<char> {
    decimal(lx) + seq![','] + decimal(ly)
}

/// The name of an owner in the statistics hash: its index in decimal.
pub open spec fn owner_name(owner_id: u32) -> Seq<char> {
    decimal(owner_id as int)
}

/// The key of a region blob.
pub open spec fn region_key_text(rx: int, ry: int) -> Seq<char> {
    "region:"@ + region_name(rx, ry)
}

/// The key of a region's metadata hash.
pub open spec fn region_meta_key_text(rx: int, ry: int) -> Seq<char> {
    "region_meta:"@ + region_name(rx, ry)
}

/// The key of a region's timestamp index.
pub open spec fn pixel_ts_key_text(rx: int, ry: int) -> Seq<char> {
    "pixel_ts:"@ + region_name(rx, ry)
}

/// The two parts of `s` around the first occurrence of `sep`; nothing when
/// `sep` does not occur.
pub open spec fn split_once(s: Seq<char>, sep: char) -> Option<(Seq<char>, Seq<char>)> {
    if exists|i: int| 0 <= i < s.len() && s[i] == sep {
        let i = choose|i: int|
            0 <= i < s.len() && s[i] == sep && forall|j: int| 0 <= j < i ==> s[j] != sep;
        Some((s.take(i), s.skip(i + 1)))
    } else {
        None
    }
}

/// The region that a name of the form `rx:ry` denotes.
pub open spec fn parsed_region_name(s: Seq<char>) -> Option<(i32, i32)> {
    match split_once(s, ':') {
        Some((a, b)) => match (text_i32(a), text_i32(b)) {
            (Some(rx), Some(ry)) => Some((rx, ry)),
            _ => None,
        },
        None => None,
    }
}

/// The pixel that a name of the form `lx,ly` denotes.
pub open spec fn parsed_member_name(s: Seq<char>) -> Option<(u64, u64)> {
    match split_once(s, ',') {
        Some((a, b)) => match (text_u64(a), text_u64(b)) {
            (Some(lx), Some(ly)) => Some((lx, ly)),
            _ => None,
        },
        None => None,
    }
}

/// Appends `rx:ry`.
fn push_region_name(s: &mut String, rx: i32, ry: i32)
    ensures
        final(s)@ == old(s)@ + region_name(rx as int, ry as int),
{
    push_signed_decimal(s, rx as i64);
    push_char(s, ':');
    push_signed_decimal(s, ry as i64);
    proof {
        assert(s@ =~= old(s)@ + region_name(rx as int, ry as int));
    }
}

/// Build the name of a region: `rx:ry`.
pub fn region_field(rx: i32, ry: i32) -> (s: String)
    ensures
        s@ == region_name(rx as int, ry as int),
{
    let mut s = String::new();
    push_region_name(&mut s, rx, ry);
    proof {
        assert(s@ =~= region_name(rx as int, ry as int));
    }
    s
}

/// Build the key for a region blob.
pub fn region_key(rx: i32, ry: i32) -> (s: String)
    ensures
        s@ == region_key_text(rx as int, ry as int),
{
    let mut s = String::from_str("region:");
    push_region_name(&mut s, rx, ry);
    s
}

/// Build the key for region metadata.
pub fn region_meta_key(rx: i32, ry: i32) -> (s: String)
    ensures
        s@ == region_meta_key_text(rx as int, ry as int),
{
    let mut s = String::from_str("region_meta:");
    push_region_name(&mut s, rx, ry);
    s
}

/// Build the key for a region's sorted set of pixel timestamps.
pub fn pixel_ts_key(rx: i32, ry: i32) -> (s: String)
    ensures
        s@ == pixel_ts_key_text(rx as int, ry as int),
{
    let mut s = String::from_str("pixel_ts:");
    push_region_name(&mut s, rx, ry);
    s
}

/// Build the name of a pixel in its region's timestamp index: `lx,ly`.
pub fn ts_member(lx: usize, ly: usize) -> (s: String)
    ensures
        s@ == member_name(lx as int, ly as int),
{
    let mut s = String::new();
    push_decimal(&mut s, lx as u64);
    push_char(&mut s, ',');
    push_decimal(&mut s, ly as u64);
    proof {
        assert(s@ =~= member_name(lx as int, ly as int));
    }
    s
}

/// Build the name of an owner in the statistics hash.
pub fn owner_field(owner_id: u32) -> (s: String)
    ensures
        s@ == owner_name(owner_id),
{
    let mut s = String::new();
    push_decimal(&mut s, owner_id as u64);
    proof {
        assert(s@ =~= owner_name(owner_id));
    }
    s
}

/// Write a number in decimal.
pub fn decimal_string(n: u64) -> (s: String)
    ensures
        s@ == decimal(n as int),
{
    let mut s = String::new();
    push_decimal(&mut s, n);
    proof {
        assert(s@ =~= decimal(n as int));
    }
    s
}

/// Read a region name of the form `rx:ry`.
pub fn parse_region_field(name: &str) -> (r: Option<(i32, i32)>)
    ensures
        r == parsed_region_name(name@),
{
    let cs = chars_of(name);
    match find_char(&cs, 0, cs.len(), ':') {
        Some(i) => {
            proof {
                lemma_split_once_at(cs@, ':', i as int);
                assert(cs@.subrange(0, i as int) =~= cs@.take(i as int));
                assert(cs@.subrange(i + 1, cs@.len() as int) =~= cs@.skip(i + 1));
            }
            let rx = parse_i32(&cs, 0, i);
            let ry = parse_i32(&cs, i + 1, cs.len());
            match (rx, ry) {
                (Some(rx), Some(ry)) => Some((rx, ry)),
                _ => None,
            }
        },
        None => None,
    }
}

/// Read a timestamp index member of the form `lx,ly`.
pub fn parse_ts_member(name: &str) -> (r: Option<(u64, u64)>)
    ensures
        r == parsed_member_name(name@),
{
    let cs = chars_of(name);
    match find_char(&cs, 0, cs.len(), ',') {
        Some(i) => {
            proof {
                lemma_split_once_at(cs@, ',', i as int);
                assert(cs@.subrange(0, i as int) =~= cs@.take(i as int));
                assert(cs@.subrange(i + 1, cs@.len() as int) =~= cs@.skip(i + 1));
            }
            let lx = parse_u64(&cs, 0, i);
            let ly = parse_u64(&cs, i + 1, cs.len());
            match (lx, ly) {
                (Some(lx), Some(ly)) => Some((lx, ly)),
                _ => None,
            }
        },
        None => None,
    }
}

/// Where the first occurrence of `sep` is at `i`, `split_once` splits there.
pub proof fn lemma_split_once_at(s: Seq<char>, sep: char, i: int)
    requires
        0 <= i < s.len(),
        s[i] == sep,
        forall|j: int| 0 <= j < i ==> s[j] != sep,
    ensures
        split_once(s, sep) == Some((s.take(i), s.skip(i + 1))),
{
    let k = choose|k: int|
        0 <= k < s.len() && s[k] == sep && forall|j: int| 0 <= j < k ==> s[j] != sep;
    assert(k == i) by {
        if k < i {
            assert(s[k] != sep);
        }
        if i < k {
            assert(s[i] != sep);
        }
    }
}

/// The decimal text of an integer holds only digits after an optional
/// leading minus sign; in particular no separator.
pub proof fn lemma_decimal_chars(n: int, i: int)
    requires
        0 <= i < decimal(n).len(),
    ensures
        decimal(n)[i] == '-' || crate::text::is_digit(decimal(n)[i]),
        decimal(n)[i] != ':',
        decimal(n)[i] != ',',
{
    if n < 0 {
        crate::text::lemma_decimal_digits_value((-n) as nat);
        if i > 0 {
            assert(decimal(n)[i] == crate::text::decimal_digits((-n) as nat)[i - 1]);
        }
    } else {
        crate::text::lemma_decimal_digits_value(n as nat);
    }
}

/// Two decimal texts joined by a separator split back into the two texts.
pub proof fn lemma_split_joined(a: int, b: int, sep: char)
    requires
        sep == ':' || sep == ',',
    ensures
        split_once(decimal(a) + seq![sep] + decimal(b), sep) == Some((decimal(a), decimal(b))),
{
    let s = decimal(a) + seq![sep] + decimal(b);
    let i = decimal(a).len() as int;
    assert forall|j: int| 0 <= j < i implies s[j] != sep by {
        lemma_decimal_chars(a, j);
        assert(s[j] == decimal(a)[j]);
    }
    assert(s[i] == sep);
    lemma_split_once_at(s, sep, i);
    assert(s.take(i) =~= decimal(a));
    assert(s.skip(i + 1) =~= decimal(b));
}

/// Reading a region name that was written gives the region back.
pub proof fn lemma_region_name_round_trip(rx: i32, ry: i32)
    ensures
        parsed_region_name(region_name(rx as int, ry as int)) == Some((rx, ry)),
{
    lemma_split_joined(rx as int, ry as int, ':');
    lemma_decimal_round_trip(rx as int);
    lemma_decimal_round_trip(ry as int);
    assert(text_i32(decimal(rx as int)) == Some(rx));
    assert(text_i32(decimal(ry as int)) == Some(ry));
}

/// Reading a member name that was written gives the pixel back.
pub proof fn lemma_member_name_round_trip(lx: u64, ly: u64)
    ensures
        parsed_member_name(member_name(lx as int, ly as int)) == Some((lx, ly)),
{
    lemma_split_joined(lx as int, ly as int, ',');
    lemma_decimal_round_trip(lx as int);
    lemma_decimal_round_trip(ly as int);
    assert(unsigned_text(decimal(lx as int)) == Some(lx as nat));
    assert(unsigned_text(decimal(ly as int)) == Some(ly as nat));
    assert(text_u64(decimal(lx as int)) == Some(lx));
    assert(text_u64(decimal(ly as int)) == Some(ly));
}

/// Distinct owners have distinct names.
pub proof fn lemma_owner_name_injective(a: u32, b: u32)
    requires
        owner_name(a) == owner_name(b),
    ensures
        a == b,
{
    lemma_decimal_round_trip(a as int);
    lemma_decimal_round_trip(b as int);
}

/// Distinct places have distinct member names.
pub proof fn lemma_member_name_injective(x1: int, y1: int, x2: int, y2: int)
    requires
        0 <= x1 <= u64::MAX,
        0 <= y1 <= u64::MAX,
        0 <= x2 <= u64::MAX,
        0 <= y2 <= u64::MAX,
        member_name(x1, y1) == member_name(x2, y2),
    ensures
        x1 == x2,
        y1 == y2,
{
    lemma_member_name_round_trip(x1 as u64, y1 as u64);
    lemma_member_name_round_trip(x2 as u64, y2 as u64);
}

} // verus!
