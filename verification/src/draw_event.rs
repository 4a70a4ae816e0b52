//! Draw calls as they arrive from the chain, and the six-digit hexadecimal
//! color notation they carry.

use crate::text::{chars_of, push_char};
use vstd::prelude::*;

verus! {

/// A single pixel in a draw call's arguments.
#[derive(Debug, PartialEq, Eq)]
pub struct DrawPixel {
    pub x: i32,
    pub y: i32,
    /// Hex color string, e.g. "FF5733"
    pub color: String,
}

/// The arguments passed to the `draw` contract method.
#[derive(Debug, Clone, PartialEq, Eq)]
pub struct DrawArgs {
    pub pixels: Vec<DrawPixel>,
}

/// A fully resolved draw event with signer and block metadata.
#[derive(Debug, Clone, PartialEq, Eq)]
pub struct DrawEvent {
    pub predecessor_id: String,
    pub block_height: u64,
    pub block_timestamp_ms: u64,
    pub pixels: Vec<DrawPixel>,
}

/// The value of a hexadecimal digit of either case; nothing for any other
/// character.
pub open spec fn hex_value(c: char) -> Option<int> {
    if '0' <= c <= '9' {
        Some(c as int - 48)
    } else if 'a' <= c <= 'f' {
        Some(c as int - 87)
    } else if 'A' <= c <= 'F' {
        Some(c as int - 55)
    } else {
        None
    }
}

/// Whether `s` is exactly six hexadecimal digits.
pub open spec fn is_hex6(s: Seq<char>) -> bool {
    s.len() == 6 && forall|i: int| 0 <= i < 6 ==> (#[trigger] hex_value(s[i])) is Some
}

/// The byte that two hexadecimal digits denote.
pub open spec fn hex_pair(hi: char, lo: char) -> u8 {
    (hex_value(hi)->0 * 16 + hex_value(lo)->0) as u8
}

/// The color that a six-digit hexadecimal string denotes; nothing for any
/// other string.
pub open spec fn hex6_rgb(s: Seq<char>) -> Option<(u8, u8, u8)> {
    if is_hex6(s) {
        Some((hex_pair(s[0], s[1]), hex_pair(s[2], s[3]), hex_pair(s[4], s[5])))
    } else {
        None
    }
}

/// The upper-case character of a hexadecimal digit `0..=15`.
pub open spec fn hex_char(d: int) -> char {
    if d < 10 {
        (48 + d) as char
    } else {
        (55 + d) as char
    }
}

/// The six upper-case hexadecimal digits of a color.
pub open spec fn rgb_hex6(r: u8, g: u8, b: u8) -> Seq<char> {
    seq![
        hex_char(r as int / 16),
        hex_char(r as int % 16),
        hex_char(g as int / 16),
        hex_char(g as int % 16),
        hex_char(b as int / 16),
        hex_char(b as int % 16),
    ]
}

/// The value of one hexadecimal digit.
pub fn hex_digit(c: char) -> (r: Option<u8>)
    ensures
        match r {
            Some(v) => hex_value(c) == Some(v as int) && v < 16,
            None => hex_value(c) is None,
        },
{
    if '0' <= c && c <= '9' {
        Some((c as u32 - 48) as u8)
    } else if 'a' <= c && c <= 'f' {
        Some((c as u32 - 87) as u8)
    } else if 'A' <= c && c <= 'F' {
        Some((c as u32 - 55) as u8)
    } else {
        None
    }
}

/// Parse a six-digit hexadecimal color into (R, G, B).
pub fn hex6_to_rgb(color: &str) -> (r: Option<(u8, u8, u8)>)
    ensures
        r == hex6_rgb(color@),
{
    let cs = chars_of(color);
    if cs.len() != 6 {
        return None;
    }
    let mut v: Vec<u8> = Vec::new();
    let mut i: usize = 0;
    while i < 6
        invariant
            cs@ == color@,
            cs@.len() == 6,
            i <= 6,
            v@.len() == i,
            forall|j: int| 0 <= j < i ==> hex_value(cs@[j]) == Some(#[trigger] v@[j] as int),
            forall|j: int| 0 <= j < i ==> (#[trigger] v@[j]) < 16,
        decreases 6 - i,
    {
        match hex_digit(cs[i]) {
            Some(d) => {
                v.push(d);
            },
            None => {
                return None;
            },
        }
        i = i + 1;
    }
    proof {
        assert forall|j: int| 0 <= j < 6 implies (#[trigger] hex_value(color@[j])) is Some by {
            assert(hex_value(cs@[j]) == Some(v@[j] as int));
        }
        assert(hex_value(cs@[0]) == Some(v@[0] as int));
        assert(hex_value(cs@[1]) == Some(v@[1] as int));
        assert(hex_value(cs@[2]) == Some(v@[2] as int));
        assert(hex_value(cs@[3]) == Some(v@[3] as int));
        assert(hex_value(cs@[4]) == Some(v@[4] as int));
        assert(hex_value(cs@[5]) == Some(v@[5] as int));
    }
    Some((v[0] * 16 + v[1], v[2] * 16 + v[3], v[4] * 16 + v[5]))
}

/// The upper-case character of one hexadecimal digit.
fn hex_digit_char(d: u8) -> (c: char)
    requires
        d < 16,
    ensures
        c == hex_char(d as int),
{
    if d < 10 {
        (48u8 + d) as char
    } else {
        (55u8 + d) as char
    }
}

/// Write a color as six upper-case hexadecimal digits.
pub fn rgb_to_hex6(r: u8, g: u8, b: u8) -> (s: String)
    ensures
        s@ == rgb_hex6(r, g, b),
{
    let mut s = String::new();
    push_char(&mut s, hex_digit_char(r / 16));
    push_char(&mut s, hex_digit_char(r % 16));
    push_char(&mut s, hex_digit_char(g / 16));
    push_char(&mut s, hex_digit_char(g % 16));
    push_char(&mut s, hex_digit_char(b / 16));
    push_char(&mut s, hex_digit_char(b % 16));
    proof {
        assert(s@ =~= rgb_hex6(r, g, b));
    }
    s
}

impl DrawPixel {
    /// Parse the hex color string into (R, G, B).
    pub fn rgb(&self) -> (r: Option<(u8, u8, u8)>)
        ensures
            r == hex6_rgb(self.color@),
    {
        hex6_to_rgb(self.color.as_str())
    }
}

impl Clone for DrawPixel {
    fn clone(&self) -> (r: DrawPixel)
        ensures
            r == *self,
    {
        DrawPixel { x: self.x, y: self.y, color: self.color.clone() }
    }
}

/// The six digits written for a color denote that color.
pub proof fn lemma_hex6_round_trip(r: u8, g: u8, b: u8)
    ensures
        hex6_rgb(rgb_hex6(r, g, b)) == Some((r, g, b)),
{
    let s = rgb_hex6(r, g, b);
    assert forall|d: int| 0 <= d < 16 implies #[trigger] hex_value(hex_char(d)) == Some(d) by {
        if d < 10 {
            assert((48 + d) as char as int == 48 + d);
        } else {
            assert((55 + d) as char as int == 55 + d);
        }
    }
    assert(hex_value(s[0]) == Some(r as int / 16));
    assert(hex_value(s[1]) == Some(r as int % 16));
    assert(hex_value(s[2]) == Some(g as int / 16));
    assert(hex_value(s[3]) == Some(g as int % 16));
    assert(hex_value(s[4]) == Some(b as int / 16));
    assert(hex_value(s[5]) == Some(b as int % 16));
    assert(is_hex6(s));
}

} // verus!
