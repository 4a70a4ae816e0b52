//! What the read API computes from the values it reads: coordinate lists of
//! batch queries, rows of timestamp and statistics listings, and the value
//! of the last-updated header.

use crate::text::{chars_of, decimal, find_char, parse_i32, text_i32};
use crate::valkey::{
    decimal_string, lemma_split_once_at, parse_region_field, parse_ts_member, parsed_member_name,
    parsed_region_name, split_once,
};
use vstd::prelude::*;
use vstd::string::*;

verus! {

/// Whether a character is white space in the sense of Unicode
/// (`White_Space`).
pub uninterp spec fn is_whitespace(c: char) -> bool;

/// Tells whether a character is white space.
///
/// Trusted: stands for `char::is_whitespace`, whose answer depends on the
/// character alone.
#[verifier::external_body]
fn char_is_whitespace(c: char) -> (r: bool)
    ensures
        r == is_whitespace(c),
{
    c.is_whitespace()
}

/// `s` without its leading white space.
pub open spec fn trim_start(s: Seq<char>) -> Seq<char>
    decreases s.len(),
{
    if s.len() > 0 && is_whitespace(s[0]) {
        trim_start(s.drop_first())
    } else {
        s
    }
}

/// `s` without its trailing white space.
pub open spec fn trim_end(s: Seq<char>) -> Seq<char>
    decreases s.len(),
{
    if s.len() > 0 && is_whitespace(s.last()) {
        trim_end(s.drop_last())
    } else {
        s
    }
}

/// `s` without leading and trailing white space.
pub open spec fn trimmed(s: Seq<char>) -> Seq<char> {
    trim_end(trim_start(s))
}

/// The number that a token of a coordinate list denotes once trimmed, as a
/// sequence of one or no number.
pub open spec fn token_number(token: Seq<char>) -> Seq<i32> {
    match text_i32(trimmed(token)) {
        Some(v) => seq![v],
        None => Seq::empty(),
    }
}

/// The numbers of a comma-separated list, in order. Tokens that are not
/// numbers are passed over.
#[verifier::opaque]
pub open spec fn listed_numbers(s: Seq<char>) -> Seq<i32>
    decreases s.len(),
{
    match split_once(s, ',') {
        Some((token, rest)) => if rest.len() < s.len() {
            token_number(token) + listed_numbers(rest)
        } else {
            token_number(s)
        },
        None => token_number(s),
    }
}

/// The pairs of a list of numbers: the first with the second, the third
/// with the fourth, and so on. A last number without a partner is left out.
pub open spec fn paired(numbers: Seq<i32>) -> Seq<(i32, i32)> {
    Seq::new(numbers.len() / 2, |i: int| (numbers[2 * i], numbers[2 * i + 1]))
}

/// The number in `cs[from..to]` once trimmed.
fn parse_trimmed(cs: &Vec<char>, from: usize, to: usize) -> (r: Option<i32>)
    requires
        from <= to <= cs@.len(),
    ensures
        r == text_i32(trimmed(cs@.subrange(from as int, to as int))),
{
    let ghost token = cs@.subrange(from as int, to as int);
    let mut a: usize = from;
    while a < to && char_is_whitespace(cs[a])
        invariant
            from <= a <= to <= cs@.len(),
            trim_start(token) == trim_start(cs@.subrange(a as int, to as int)),
        decreases to - a,
    {
        proof {
            let cur = cs@.subrange(a as int, to as int);
            assert(cur[0] == cs@[a as int]);
            assert(cur.drop_first() =~= cs@.subrange(a + 1, to as int));
        }
        a = a + 1;
    }
    proof {
        let cur = cs@.subrange(a as int, to as int);
        if a < to {
            assert(cur[0] == cs@[a as int]);
        }
        assert(trim_start(token) == cur);
    }
    let mut b: usize = to;
    while b > a && char_is_whitespace(cs[b - 1])
        invariant
            a <= b <= to <= cs@.len(),
            trim_end(cs@.subrange(a as int, to as int)) == trim_end(
                cs@.subrange(a as int, b as int),
            ),
        decreases b - a,
    {
        proof {
            let cur = cs@.subrange(a as int, b as int);
            assert(cur.last() == cs@[b - 1]);
            assert(cur.drop_last() =~= cs@.subrange(a as int, b - 1));
        }
        b = b - 1;
    }
    proof {
        let cur = cs@.subrange(a as int, b as int);
        if b > a {
            assert(cur.last() == cs@[b - 1]);
        }
        assert(trim_end(cur) == cur);
    }
    parse_i32(cs, a, b)
}

/// A list splits at its first comma into a token and the rest of the list.
pub proof fn lemma_listed_split(s: Seq<char>, k: int)
    requires
        0 <= k < s.len(),
        s[k] == ',',
        forall|j: int| 0 <= j < k ==> s[j] != ',',
    ensures
        listed_numbers(s) == token_number(s.take(k)) + listed_numbers(s.skip(k + 1)),
{
    reveal(listed_numbers);
    lemma_split_once_at(s, ',', k);
}

/// A list without a comma is a single token.
pub proof fn lemma_listed_single(s: Seq<char>)
    requires
        forall|j: int| 0 <= j < s.len() ==> s[j] != ',',
    ensures
        listed_numbers(s) == token_number(s),
{
    reveal(listed_numbers);
    assert(split_once(s, ',') is None);
}

/// Appends the number of the token `cs[from..to]`, if it is one.
fn push_token(numbers: &mut Vec<i32>, cs: &Vec<char>, from: usize, to: usize)
    requires
        from <= to <= cs@.len(),
    ensures
        final(numbers)@ == old(numbers)@ + token_number(cs@.subrange(from as int, to as int)),
{
    match parse_trimmed(cs, from, to) {
        Some(v) => {
            numbers.push(v);
            proof {
                assert(numbers@ =~= old(numbers)@ + seq![v]);
            }
        },
        None => {
            proof {
                assert(numbers@ =~= old(numbers)@ + Seq::<i32>::empty());
            }
        },
    }
}

/// Read the numbers of a comma-separated list such as `0,0, 1,-2`: each
/// token is trimmed and read as a 32-bit integer, and tokens that are not
/// numbers are passed over.
pub fn parse_coords(coords: &str) -> (numbers: Vec<i32>)
    ensures
        numbers@ == listed_numbers(coords@),
{
    let cs = chars_of(coords);
    let mut numbers: Vec<i32> = Vec::new();
    let mut start: usize = 0;
    let n = cs.len();
    proof {
        assert(cs@.skip(0) =~= cs@);
        assert(numbers@ + listed_numbers(cs@) =~= listed_numbers(cs@));
    }
    loop
        invariant_except_break
            start <= n,
            n == cs@.len(),
            numbers@ + listed_numbers(cs@.skip(start as int)) == listed_numbers(cs@),
        ensures
            numbers@ == listed_numbers(cs@),
        decreases n - start,
    {
        let ghost rest = cs@.skip(start as int);
        let ghost before = numbers@;
        match find_char(&cs, start, n, ',') {
            Some(i) => {
                push_token(&mut numbers, &cs, start, i);
                proof {
                    assert(rest.take(i - start) =~= cs@.subrange(start as int, i as int));
                    assert(rest.skip(i - start + 1) =~= cs@.skip(i + 1));
                    lemma_listed_split(rest, i - start);
                    assert(numbers@ + listed_numbers(cs@.skip(i + 1)) =~= before + listed_numbers(
                        rest,
                    ));
                }
                start = i + 1;
            },
            None => {
                push_token(&mut numbers, &cs, start, n);
                proof {
                    assert(rest =~= cs@.subrange(start as int, n as int));
                    lemma_listed_single(rest);
                }
                break ;
            },
        }
    }
    numbers
}

/// Pair up the numbers of a coordinate list; an odd trailing coordinate is
/// ignored.
pub fn pair_coords(numbers: &Vec<i32>) -> (pairs: Vec<(i32, i32)>)
    ensures
        pairs@ == paired(numbers@),
{
    let mut pairs: Vec<(i32, i32)> = Vec::new();
    let mut i: usize = 0;
    let n = numbers.len();
    while i + 1 < n
        invariant
            n == numbers@.len(),
            i % 2 == 0,
            i <= n,
            pairs@.len() == i / 2,
            forall|k: int|
                0 <= k < pairs@.len() ==> #[trigger] pairs@[k] == (
                    numbers@[2 * k],
                    numbers@[2 * k + 1],
                ),
        decreases n - i,
    {
        pairs.push((numbers[i], numbers[i + 1]));
        i = i + 2;
    }
    proof {
        assert(pairs@ =~= paired(numbers@));
    }
    pairs
}

/// The value of the last-updated header: the time in decimal, or empty
/// when the region was never written.
pub fn last_updated_header(last_updated: Option<u64>) -> (value: String)
    ensures
        value@ == match last_updated {
            Some(t) => decimal(t as int),
            None => Seq::<char>::empty(),
        },
{
    match last_updated {
        Some(t) => decimal_string(t),
        None => String::new(),
    }
}

/// The regions that a list of set members names, in order; members that
/// are not region names are passed over.
pub open spec fn named_regions(members: Seq<String>) -> Seq<(i32, i32)>
    decreases members.len(),
{
    if members.len() == 0 {
        Seq::empty()
    } else {
        let before = named_regions(members.drop_last());
        match parsed_region_name(members.last()@) {
            Some(region) => before.push(region),
            None => before,
        }
    }
}

/// List the open regions from the members of the set of open regions.
pub fn open_region_list(members: &Vec<String>) -> (regions: Vec<(i32, i32)>)
    ensures
        regions@ == named_regions(members@),
{
    let mut regions: Vec<(i32, i32)> = Vec::new();
    let mut i: usize = 0;
    while i < members.len()
        invariant
            i <= members@.len(),
            regions@ == named_regions(members@.take(i as int)),
        decreases members@.len() - i,
    {
        proof {
            assert(members@.take(i + 1).drop_last() =~= members@.take(i as int));
            assert(members@.take(i + 1).last() == members@[i as int]);
        }
        match parse_region_field(members[i].as_str()) {
            Some(region) => {
                regions.push(region);
            },
            None => {},
        }
        i = i + 1;
    }
    proof {
        assert(members@.take(members@.len() as int) =~= members@);
    }
    regions
}

/// An entry of a region's timestamp index as it is read: member and score.
#[derive(Debug, PartialEq, Eq)]
pub struct TimestampEntry {
    pub member: String,
    pub score: u64,
}

/// A row of a timestamp listing: local x, local y, time in milliseconds.
#[derive(Debug, Clone, Copy, PartialEq, Eq, Structural)]
pub struct TimestampRow {
    pub lx: u64,
    pub ly: u64,
    pub ts_ms: u64,
}

/// The rows of a timestamp listing, in order; entries whose member is not
/// a pixel name are passed over.
pub open spec fn listed_timestamps(entries: Seq<TimestampEntry>) -> Seq<TimestampRow>
    decreases entries.len(),
{
    if entries.len() == 0 {
        Seq::empty()
    } else {
        let before = listed_timestamps(entries.drop_last());
        match parsed_member_name(entries.last().member@) {
            Some((lx, ly)) => before.push(TimestampRow { lx, ly, ts_ms: entries.last().score }),
            None => before,
        }
    }
}

/// List the timestamps of a region from the entries of its index.
pub fn timestamp_rows(entries: &Vec<TimestampEntry>) -> (rows: Vec<TimestampRow>)
    ensures
        rows@ == listed_timestamps(entries@),
{
    let mut rows: Vec<TimestampRow> = Vec::new();
    let mut i: usize = 0;
    while i < entries.len()
        invariant
            i <= entries@.len(),
            rows@ == listed_timestamps(entries@.take(i as int)),
        decreases entries@.len() - i,
    {
        proof {
            assert(entries@.take(i + 1).drop_last() =~= entries@.take(i as int));
            assert(entries@.take(i + 1).last() == entries@[i as int]);
        }
        match parse_ts_member(entries[i].member.as_str()) {
            Some((lx, ly)) => {
                rows.push(TimestampRow { lx, ly, ts_ms: entries[i].score });
            },
            None => {},
        }
        i = i + 1;
    }
    proof {
        assert(entries@.take(entries@.len() as int) =~= entries@);
    }
    rows
}

/// The oldest timestamp that a timestamp listing shows: one hour before
/// `now`, and zero where that would be negative.
pub fn fresh_since(now_ms: u64) -> (since: u64)
    ensures
        since == crate::pipeline::trim_bound(now_ms),
{
    now_ms.saturating_sub(crate::tally::OWNERSHIP_DURATION_MS)
}

/// A field of the pixel count hash as it is read: owner name and count.
#[derive(Debug, PartialEq, Eq)]
pub struct CountEntry {
    pub owner: String,
    pub count: i64,
}

/// A field of the reverse registry as it is read: owner name and account.
#[derive(Debug, PartialEq, Eq)]
pub struct AccountEntry {
    pub owner: String,
    pub account_id: String,
}

/// A row of the account statistics.
#[derive(Debug, PartialEq, Eq)]
pub struct AccountStat {
    pub account_id: String,
    pub pixel_count: i64,
}

/// The account that the reverse registry holds for an owner name: that of
/// the last entry with the name.
pub open spec fn account_of(accounts: Seq<AccountEntry>, owner: Seq<char>) -> Option<Seq<char>>
    decreases accounts.len(),
{
    if accounts.len() == 0 {
        None
    } else if accounts.last().owner@ == owner {
        Some(accounts.last().account_id@)
    } else {
        account_of(accounts.drop_last(), owner)
    }
}

/// The rows of the account statistics: for each count, in order, the
/// account of its owner; counts of owners without an account are left out.
pub open spec fn joined_stats(counts: Seq<CountEntry>, accounts: Seq<AccountEntry>) -> Seq<
    (Seq<char>, i64),
>
    decreases counts.len(),
{
    if counts.len() == 0 {
        Seq::empty()
    } else {
        let before = joined_stats(counts.drop_last(), accounts);
        match account_of(accounts, counts.last().owner@) {
            Some(account) => before.push((account, counts.last().count)),
            None => before,
        }
    }
}

/// Account statistics as mathematical values.
pub open spec fn stats_view(stats: Seq<AccountStat>) -> Seq<(Seq<char>, i64)> {
    Seq::new(stats.len(), |i: int| (stats[i].account_id@, stats[i].pixel_count))
}

/// Look an owner name up in the reverse registry.
fn find_account(accounts: &Vec<AccountEntry>, owner: &String) -> (account: Option<String>)
    ensures
        match account {
            Some(a) => account_of(accounts@, owner@) == Some(a@),
            None => account_of(accounts@, owner@) is None,
        },
{
    let mut i: usize = accounts.len();
    proof {
        assert(accounts@.take(i as int) =~= accounts@);
    }
    while i > 0
        invariant
            i <= accounts@.len(),
            account_of(accounts@, owner@) == account_of(accounts@.take(i as int), owner@),
        decreases i,
    {
        proof {
            assert(accounts@.take(i as int).drop_last() =~= accounts@.take(i - 1));
            assert(accounts@.take(i as int).last() == accounts@[i - 1]);
        }
        if accounts[i - 1].owner == *owner {
            return Some(accounts[i - 1].account_id.clone());
        }
        i = i - 1;
    }
    None
}

/// Join the pixel counts with the reverse registry into the account
/// statistics.
pub fn account_stats(counts: &Vec<CountEntry>, accounts: &Vec<AccountEntry>) -> (stats: Vec<
    AccountStat,
>)
    ensures
        stats_view(stats@) == joined_stats(counts@, accounts@),
{
    let mut stats: Vec<AccountStat> = Vec::new();
    let mut i: usize = 0;
    proof {
        assert(stats_view(stats@) =~= joined_stats(counts@.take(0), accounts@));
    }
    while i < counts.len()
        invariant
            i <= counts@.len(),
            stats_view(stats@) == joined_stats(counts@.take(i as int), accounts@),
        decreases counts@.len() - i,
    {
        proof {
            assert(counts@.take(i + 1).drop_last() =~= counts@.take(i as int));
            assert(counts@.take(i + 1).last() == counts@[i as int]);
        }
        let ghost before = stats@;
        match find_account(accounts, &counts[i].owner) {
            Some(account_id) => {
                stats.push(AccountStat { account_id, pixel_count: counts[i].count });
                proof {
                    assert(stats_view(stats@) =~= stats_view(before).push(
                        (account_id@, counts@[i as int].count),
                    ));
                }
            },
            None => {},
        }
        i = i + 1;
    }
    proof {
        assert(counts@.take(counts@.len() as int) =~= counts@);
    }
    stats
}

} // verus!
