use vstd::prelude::*;

use crate::text::{decimal, push_decimal};

verus! {

/// A colour with red, green, blue and alpha channels of 8 bits each.
#[derive(Debug, Clone, Copy, PartialEq, Eq, Structural)]
pub struct Rgba {
    pub r: u8,
    pub g: u8,
    pub b: u8,
    pub a: u8,
}

/// Lower-case hexadecimal digit for `d < 16`.
pub open spec fn hex_char(d: nat) -> char {
    if d < 10 {
        crate::text::digit_char(d)
    } else if d == 10 { 'a' } else if d == 11 { 'b' } else if d == 12 { 'c' }
    else if d == 13 { 'd' } else if d == 14 { 'e' } else { 'f' }
}

/// Value of a hexadecimal digit, upper or lower case; `None` for any other character.
pub open spec fn hex_value(c: char) -> Option<nat> {
    if '0' <= c && c <= '9' {
        Some((c as nat - '0' as nat) as nat)
    } else if 'a' <= c && c <= 'f' {
        Some((c as nat - 'a' as nat + 10) as nat)
    } else if 'A' <= c && c <= 'F' {
        Some((c as nat - 'A' as nat + 10) as nat)
    } else {
        None
    }
}

/// Two lower-case hexadecimal digits of a byte, padded with a zero.
pub open spec fn hex_byte(b: u8) -> Seq<char> {
    seq![hex_char(b as nat / 16), hex_char(b as nat % 16)]
}

/// `s` without its leading `'#'` characters.
pub open spec fn skip_hashes(s: Seq<char>) -> Seq<char>
    decreases s.len(),
{
    if s.len() > 0 && s[0] == '#' {
        skip_hashes(s.drop_first())
    } else {
        s
    }
}

/// The byte written by the two hexadecimal digits `s[i]`, `s[i + 1]`, if both are digits.
pub open spec fn hex_pair(s: Seq<char>, i: int) -> Option<u8> {
    if 0 <= i && i + 1 < s.len() && hex_value(s[i]) is Some && hex_value(s[i + 1]) is Some {
        Some((hex_value(s[i])->0 * 16 + hex_value(s[i + 1])->0) as u8)
    } else {
        None
    }
}

/// The red, green and blue bytes that a small hex colour string names: leading `'#'`s are
/// skipped, then six hexadecimal digits are read; any further characters are ignored.
pub open spec fn parse_small_hex(s: Seq<char>) -> Option<(u8, u8, u8)> {
    let t = skip_hashes(s);
    if hex_pair(t, 0) is Some && hex_pair(t, 2) is Some && hex_pair(t, 4) is Some {
        Some((hex_pair(t, 0)->0, hex_pair(t, 2)->0, hex_pair(t, 4)->0))
    } else {
        None
    }
}

/// `"rgba(r,g,b,a)"` with each channel in decimal.
pub open spec fn css_string(c: Rgba) -> Seq<char> {
    seq!['r', 'g', 'b', 'a', '('] + decimal(c.r as nat) + seq![','] + decimal(c.g as nat) + seq![
        ',',
    ] + decimal(c.b as nat) + seq![','] + decimal(c.a as nat) + seq![')']
}

/// `"#rrggbb"` in lower-case hexadecimal.
pub open spec fn small_hex_string(c: Rgba) -> Seq<char> {
    seq!['#'] + hex_byte(c.r) + hex_byte(c.g) + hex_byte(c.b)
}

/// `"#rrggbbaa"` in lower-case hexadecimal.
pub open spec fn hex_string(c: Rgba) -> Seq<char> {
    small_hex_string(c) + hex_byte(c.a)
}

/// The message of the error that a malformed hex colour gives.
pub open spec fn invalid_hex_message() -> Seq<char> {
    "Invalid hex string"@
}

fn hex_digit_str(d: u8) -> (s: &'static str)
    requires
        d < 16,
    ensures
        s@ == seq![hex_char(d as nat)],
{
    proof {
        reveal_strlit("0");
        reveal_strlit("1");
        reveal_strlit("2");
        reveal_strlit("3");
        reveal_strlit("4");
        reveal_strlit("5");
        reveal_strlit("6");
        reveal_strlit("7");
        reveal_strlit("8");
        reveal_strlit("9");
        reveal_strlit("a");
        reveal_strlit("b");
        reveal_strlit("c");
        reveal_strlit("d");
        reveal_strlit("e");
        reveal_strlit("f");
    }
    if d == 0 { "0" } else if d == 1 { "1" } else if d == 2 { "2" } else if d == 3 { "3" }
    else if d == 4 { "4" } else if d == 5 { "5" } else if d == 6 { "6" } else if d == 7 { "7" }
    else if d == 8 { "8" } else if d == 9 { "9" } else if d == 10 { "a" } else if d == 11 { "b" }
    else if d == 12 { "c" } else if d == 13 { "d" } else if d == 14 { "e" } else { "f" }
}

fn push_hex_byte(out: &mut String, b: u8)
    ensures
        final(out)@ == old(out)@ + hex_byte(b),
{
    out.append(hex_digit_str(b / 16));
    out.append(hex_digit_str(b % 16));
    assert(final(out)@ =~= old(out)@ + hex_byte(b));
}

/// The value of the hexadecimal digit `c`, as `char::to_digit(16)` gives it.
fn hex_digit_value(c: char) -> (v: Option<u8>)
    ensures
        match v {
            Some(x) => hex_value(c) == Some(x as nat),
            None => hex_value(c) is None,
        },
{
    if '0' <= c && c <= '9' {
        Some(((c as u32) - ('0' as u32)) as u8)
    } else if 'a' <= c && c <= 'f' {
        Some(((c as u32) - ('a' as u32) + 10) as u8)
    } else if 'A' <= c && c <= 'F' {
        Some(((c as u32) - ('A' as u32) + 10) as u8)
    } else {
        None
    }
}

fn read_hex_pair(s: &str, i: usize) -> (v: Option<u8>)
    requires
        i + 1 < usize::MAX,
    ensures
        v == hex_pair(s@, i as int),
{
    let n = s.unicode_len();
    if i + 1 >= n {
        return None;
    }
    let hi = hex_digit_value(s.get_char(i));
    let lo = hex_digit_value(s.get_char(i + 1));
    match (hi, lo) {
        (Some(h), Some(l)) => Some(h * 16 + l),
        _ => None,
    }
}

impl Rgba {
    pub fn new(r: u8, g: u8, b: u8, a: u8) -> (c: Rgba)
        ensures
            c == (Rgba { r, g, b, a }),
    {
        Rgba { r, g, b, a }
    }

    /// Opaque black.
    pub fn black() -> (c: Rgba)
        ensures
            c == (Rgba { r: 0, g: 0, b: 0, a: 255 }),
    {
        Rgba::new(0, 0, 0, 255)
    }

    /// Opaque white.
    pub fn white() -> (c: Rgba)
        ensures
            c == (Rgba { r: 255, g: 255, b: 255, a: 255 }),
    {
        Rgba::new(255, 255, 255, 255)
    }

    /// Fully transparent black.
    pub fn transparent() -> (c: Rgba)
        ensures
            c == (Rgba { r: 0, g: 0, b: 0, a: 0 }),
    {
        Rgba::new(0, 0, 0, 0)
    }

    /// The CSS form `rgba(r,g,b,a)`, channels in decimal.
    pub fn to_css_string(&self) -> (s: String)
        ensures
            s@ == css_string(*self),
    {
        proof {
            reveal_strlit("rgba(");
            reveal_strlit(",");
            reveal_strlit(")");
        }
        let mut s = String::new();
        s.append("rgba(");
        push_decimal(&mut s, self.r as usize);
        s.append(",");
        push_decimal(&mut s, self.g as usize);
        s.append(",");
        push_decimal(&mut s, self.b as usize);
        s.append(",");
        push_decimal(&mut s, self.a as usize);
        s.append(")");
        assert(s@ =~= css_string(*self));
        s
    }

    /// `#rrggbbaa`, two lower-case hexadecimal digits per channel.
    pub fn to_hex_string(&self) -> (s: String)
        ensures
            s@ == hex_string(*self),
    {
        let mut s = self.to_small_hex_string();
        push_hex_byte(&mut s, self.a);
        s
    }

    /// `#rrggbb`, two lower-case hexadecimal digits per colour channel; alpha is left out.
    pub fn to_small_hex_string(&self) -> (s: String)
        ensures
            s@ == small_hex_string(*self),
    {
        proof {
            reveal_strlit("#");
        }
        let mut s = String::new();
        s.append("#");
        push_hex_byte(&mut s, self.r);
        push_hex_byte(&mut s, self.g);
        push_hex_byte(&mut s, self.b);
        assert(s@ =~= small_hex_string(*self));
        s
    }

    /// Reads an opaque colour from `#rrggbb`, and gives opaque black where the text is not one.
    pub fn from_small_hex_string(hex: &str) -> (c: Rgba)
        ensures
            match parse_small_hex(hex@) {
                Some((r, g, b)) => c == (Rgba { r, g, b, a: 255 }),
                None => c == Rgba::spec_black(),
            },
    {
        match Rgba::from_small_hex_safe(hex) {
            Ok(rgba) => rgba,
            Err(_) => Rgba::new(0, 0, 0, 255),
        }
    }

    /// Reads an opaque colour from text: leading `#`s are skipped, then six hexadecimal
    /// digits (either case) give red, green and blue; what follows them is ignored.
    pub fn from_small_hex_safe(hex: &str) -> (res: Result<Rgba, String>)
        ensures
            match res {
                Ok(c) => parse_small_hex(hex@) == Some((c.r, c.g, c.b)) && c.a == 255,
                Err(e) => parse_small_hex(hex@) is None && e@ == invalid_hex_message(),
            },
    {
        let n = hex.unicode_len();
        let mut start: usize = 0;
        while start < n && hex.get_char(start) == '#'
            invariant
                n == hex@.len(),
                start <= n,
                forall|k: int| 0 <= k < start ==> hex@[k] == '#',
            decreases n - start,
        {
            start = start + 1;
        }
        proof {
            lemma_skip_hashes_prefix(hex@, start as int);
        }
        let rest = hex.substring_char(start, n);
        assert(rest@ == skip_hashes(hex@));
        let r = read_hex_pair(rest, 0);
        let g = read_hex_pair(rest, 2);
        let b = read_hex_pair(rest, 4);
        match (r, g, b) {
            (Some(r), Some(g), Some(b)) => Ok(Rgba::new(r, g, b, 255)),
            _ => {
                proof {
                    reveal_strlit("Invalid hex string");
                }
                Err(String::from_str("Invalid hex string"))
            },
        }
    }

    pub open spec fn spec_black() -> Rgba {
        Rgba { r: 0, g: 0, b: 0, a: 255 }
    }
}

/// Dropping `k` leading `'#'`s, where the character after them (if any) is not one, is
/// what `skip_hashes` does.
proof fn lemma_skip_hashes_prefix(s: Seq<char>, k: int)
    requires
        0 <= k <= s.len(),
        forall|j: int| 0 <= j < k ==> s[j] == '#',
        k == s.len() || s[k] != '#',
    ensures
        skip_hashes(s) == s.subrange(k, s.len() as int),
    decreases k,
{
    if k == 0 {
        assert(s.subrange(0, s.len() as int) =~= s);
    } else {
        let t = s.drop_first();
        assert forall|j: int| 0 <= j < k - 1 implies t[j] == '#' by {
            assert(t[j] == s[j + 1]);
        }
        if k - 1 < t.len() {
            assert(t[k - 1] == s[k]);
        }
        lemma_skip_hashes_prefix(t, k - 1);
        assert(t.subrange(k - 1, t.len() as int) =~= s.subrange(k, s.len() as int));
    }
}

impl Default for Rgba {
    /// Opaque black.
    fn default() -> (c: Rgba)
        ensures
            c == Rgba::spec_black(),
    {
        Rgba::black()
    }
}

impl From<[u8; 4]> for Rgba {
    /// The channels in the order red, green, blue, alpha.
    fn from(value: [u8; 4]) -> (c: Rgba) {
        Rgba { r: value[0], g: value[1], b: value[2], a: value[3] }
    }
}

impl vstd::std_specs::convert::FromSpecImpl<[u8; 4]> for Rgba {
    open spec fn obeys_from_spec() -> bool {
        true
    }

    open spec fn from_spec(value: [u8; 4]) -> Rgba {
        Rgba { r: value@[0], g: value@[1], b: value@[2], a: value@[3] }
    }
}

/// Reading back the text that `to_small_hex_string` writes gives the colour again, made
/// opaque.
pub proof fn lemma_small_hex_round_trip(c: Rgba)
    ensures
        parse_small_hex(small_hex_string(c)) == Some((c.r, c.g, c.b)),
{
    let s = small_hex_string(c);
    let t = s.drop_first();
    assert(s[0] == '#');
    assert(skip_hashes(s) == skip_hashes(t));
    lemma_hex_byte_round_trip(c.r);
    lemma_hex_byte_round_trip(c.g);
    lemma_hex_byte_round_trip(c.b);
    assert(t =~= hex_byte(c.r) + hex_byte(c.g) + hex_byte(c.b));
    assert(t[0] != '#') by {
        lemma_hex_char_not_hash((c.r as nat) / 16);
    }
    assert(skip_hashes(t) == t);
    assert(hex_pair(t, 0) == Some(c.r));
    assert(hex_pair(t, 2) == Some(c.g));
    assert(hex_pair(t, 4) == Some(c.b));
}

proof fn lemma_hex_char_not_hash(d: nat)
    requires
        d < 16,
    ensures
        hex_char(d) != '#',
{
}

proof fn lemma_hex_byte_round_trip(b: u8)
    ensures
        hex_value(hex_byte(b)[0]) == Some(b as nat / 16),
        hex_value(hex_byte(b)[1]) == Some(b as nat % 16),
        (b as nat / 16) * 16 + b as nat % 16 == b,
{
    lemma_hex_value_of_char(b as nat / 16);
    lemma_hex_value_of_char(b as nat % 16);
}

proof fn lemma_hex_value_of_char(d: nat)
    requires
        d < 16,
    ensures
        hex_value(hex_char(d)) == Some(d),
{
}

}
