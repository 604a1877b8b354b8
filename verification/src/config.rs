//! The plain-value part of the launcher's configuration — window geometry
//! and the color palette — and the parsing of `#RRGGBB` color strings into
//! channel values. Reading the configuration file and everything involving
//! fonts or the host's color objects stays with the host.

use vstd::prelude::*;

verus! {

/// Window geometry.
#[derive(Debug, Clone, Copy, PartialEq, Eq, Structural)]
pub struct WindowConfig {
    pub width: u32,
    pub height: u32,
}

/// The color palette, as `#RRGGBB` strings.
#[derive(Debug)]
pub struct ColorConfig {
    pub background: String,
    pub text: String,
    pub selection_background: String,
    pub selection_text: String,
    pub input_background: String,
    pub border: String,
}

impl Clone for ColorConfig {
    fn clone(&self) -> (r: Self)
        ensures
            r == *self,
    {
        ColorConfig {
            background: self.background.clone(),
            text: self.text.clone(),
            selection_background: self.selection_background.clone(),
            selection_text: self.selection_text.clone(),
            input_background: self.input_background.clone(),
            border: self.border.clone(),
        }
    }
}

/// The value of one hex digit, or `None` for any other character.
pub open spec fn hex_digit(c: char) -> Option<int> {
    if '0' <= c && c <= '9' {
        Some(c as int - '0' as int)
    } else if 'a' <= c && c <= 'f' {
        Some(c as int - 'a' as int + 10)
    } else if 'A' <= c && c <= 'F' {
        Some(c as int - 'A' as int + 10)
    } else {
        None
    }
}

/// How many `#` characters the string starts with.
pub open spec fn hash_prefix_len(s: Seq<char>) -> int
    decreases s.len(),
{
    if s.len() > 0 && s[0] == '#' {
        1 + hash_prefix_len(s.drop_first())
    } else {
        0
    }
}

/// Channel `k` (0 for red, 1 for green, 2 for blue) of a color string with
/// the leading `#` already stripped: the value of the two hex digits at
/// position `2k`, or 0 if they are missing or not hex digits.
pub open spec fn channel_value(s: Seq<char>, k: int) -> int {
    if 0 <= 2 * k && 2 * k + 2 <= s.len() {
        match (hex_digit(s[2 * k]), hex_digit(s[2 * k + 1])) {
            (Some(hi), Some(lo)) => 16 * hi + lo,
            _ => 0,
        }
    } else {
        0
    }
}

/// The value of one hex digit character.
fn hex_digit_value(c: char) -> (r: Option<u8>)
    ensures
        r is Some ==> hex_digit(c) == Some(r.unwrap() as int),
        r is None ==> hex_digit(c) is None,
{
    if '0' <= c && c <= '9' {
        Some((c as u32 - '0' as u32) as u8)
    } else if 'a' <= c && c <= 'f' {
        Some((c as u32 - 'a' as u32 + 10) as u8)
    } else if 'A' <= c && c <= 'F' {
        Some((c as u32 - 'A' as u32 + 10) as u8)
    } else {
        None
    }
}

/// One channel of the stripped color string.
fn channel_of(s: &str, k: usize) -> (r: u8)
    requires
        k <= 2,
        s@.len() <= usize::MAX,
    ensures
        r as int == channel_value(s@, k as int),
{
    let n = s.unicode_len();
    if 2 * k + 2 > n {
        return 0;
    }
    let hi = hex_digit_value(s.get_char(2 * k));
    let lo = hex_digit_value(s.get_char(2 * k + 1));
    match (hi, lo) {
        (Some(h), Some(l)) => 16 * h + l,
        _ => 0,
    }
}

/// Parses a `#RRGGBB` color string into its (red, green, blue) channel
/// values. Any leading `#` characters are stripped first; a channel whose
/// two digits are missing or malformed parses as 0.
pub fn parse_hex_color(hex: &str) -> (rgb: (u8, u8, u8))
    ensures
        ({
            let stripped = hex@.skip(hash_prefix_len(hex@));
            rgb.0 as int == channel_value(stripped, 0) && rgb.1 as int == channel_value(stripped, 1)
                && rgb.2 as int == channel_value(stripped, 2)
        }),
{
    let n = hex.unicode_len();
    let mut start: usize = 0;
    proof {
        assert(hex@.skip(0) =~= hex@);
    }
    while start < n && hex.get_char(start) == '#'
        invariant
            start <= n,
            n == hex@.len(),
            hash_prefix_len(hex@) == start + hash_prefix_len(hex@.skip(start as int)),
        decreases n - start,
    {
        proof {
            assert(hex@.skip(start as int).drop_first() =~= hex@.skip(start as int + 1));
        }
        start = start + 1;
    }
    proof {
        if start < n {
            assert(hash_prefix_len(hex@.skip(start as int)) == 0);
        } else {
            assert(hex@.skip(start as int) =~= Seq::<char>::empty());
        }
        assert(hash_prefix_len(hex@) == start as int);
    }
    let stripped = hex.substring_char(start, n);
    proof {
        assert(stripped@ =~= hex@.skip(start as int));
    }
    let r = channel_of(stripped, 0);
    let g = channel_of(stripped, 1);
    let b = channel_of(stripped, 2);
    (r, g, b)
}

} // verus!
