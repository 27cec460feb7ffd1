//! Hex colour codes as text: `#RGB`, `#RRGGBB` and `#RRGGBBAA`.

use vstd::prelude::*;
use crate::text::{
    all_hex_digits, ascii_upper, ascii_uppercase, char_is_hex_digit, chars_of, is_all_hex_digits,
    is_hex_digit, is_whitespace, slice_of, string_of, to_ascii_upper, to_ascii_uppercase, trim,
    trimmed, unicode_whitespace,
};

verus! {

/// Why a text is no hex colour code.
#[derive(Debug, Clone, Copy, PartialEq, Eq, Structural)]
pub enum HexError {
    /// No leading `#`, or something other than hex digits after it.
    BadFormat,
    /// A number of hex digits other than 3, 6 or 8.
    UnsupportedLength,
}

impl HexError {
    /// The message that describes the error.
    pub open spec fn message(self) -> Seq<char> {
        match self {
            HexError::BadFormat => "invalid hex format"@,
            HexError::UnsupportedLength => "supported: #RGB, #RRGGBB, #RRGGBBAA"@,
        }
    }

    /// The message that describes the error.
    pub fn to_string(&self) -> (r: String)
        ensures
            r@ == self.message(),
    {
        match self {
            HexError::BadFormat => String::from_str("invalid hex format"),
            HexError::UnsupportedLength => String::from_str("supported: #RGB, #RRGGBB, #RRGGBBAA"),
        }
    }
}

/// The number that a hex digit stands for.
pub open spec fn hex_digit_value(c: char) -> int {
    if '0' <= c && c <= '9' {
        c as int - '0' as int
    } else if 'a' <= c && c <= 'f' {
        c as int - 'a' as int + 10
    } else {
        c as int - 'A' as int + 10
    }
}

/// The byte that two characters spell in base 16: both must be hex digits.
pub open spec fn hex_pair_value(a: char, b: char) -> Option<u8> {
    if is_hex_digit(a) && is_hex_digit(b) {
        Some((16 * hex_digit_value(a) + hex_digit_value(b)) as u8)
    } else {
        None
    }
}

/// The uppercase hex digit for a number below 16.
pub open spec fn hex_digit_upper(n: int) -> char {
    if n < 10 {
        ('0' as u8 + n) as char
    } else {
        ('A' as u8 + (n - 10)) as char
    }
}

/// The two uppercase hex digits of a byte.
pub open spec fn hex_byte_upper(b: u8) -> Seq<char> {
    seq![hex_digit_upper(b as int / 16), hex_digit_upper(b as int % 16)]
}

/// The number that a hex digit stands for.
pub fn hex_digit_of(c: char) -> (r: u8)
    requires
        is_hex_digit(c),
    ensures
        r as int == hex_digit_value(c),
        r < 16,
{
    if c >= '0' && c <= '9' {
        (c as u8) - ('0' as u8)
    } else if c >= 'a' && c <= 'f' {
        (c as u8) - ('a' as u8) + 10
    } else {
        (c as u8) - ('A' as u8) + 10
    }
}

/// Reads two characters as a byte in base 16.
pub fn parse_hex_pair(a: char, b: char) -> (r: Option<u8>)
    ensures
        r == hex_pair_value(a, b),
{
    if char_is_hex_digit(a) && char_is_hex_digit(b) {
        Some(16 * hex_digit_of(a) + hex_digit_of(b))
    } else {
        None
    }
}

/// The uppercase hex digit for a number below 16.
pub fn upper_hex_digit(n: u8) -> (r: char)
    requires
        n < 16,
    ensures
        r == hex_digit_upper(n as int),
{
    if n < 10 {
        (('0' as u8) + n) as char
    } else {
        (('A' as u8) + (n - 10)) as char
    }
}

/// What `u8_from_hex2` reads from a text: the byte that its two characters
/// spell, and 0 for every other text.
pub open spec fn hex2_value(s: Seq<char>) -> u8 {
    if s.len() == 2 {
        match hex_pair_value(s[0], s[1]) {
            Some(v) => v,
            None => 0,
        }
    } else {
        0
    }
}

/// The byte that a two-digit hex text spells; 0 where it spells none.
pub fn u8_from_hex2(s: &str) -> (r: u8)
    ensures
        r == hex2_value(s@),
{
    let cs = chars_of(s);
    if cs.len() == 2 {
        match parse_hex_pair(cs[0], cs[1]) {
            Some(v) => v,
            None => 0,
        }
    } else {
        0
    }
}

/// The number that hex digits spell.
pub open spec fn hex_number(d: Seq<char>) -> nat
    decreases d.len(),
{
    if d.len() == 0 {
        0
    } else {
        hex_number(d.drop_last()) * 16 + hex_digit_value(d.last()) as nat
    }
}

/// What `u8_from_hex` reads from a text: the number that its hex digits
/// spell, where it holds hex digits alone, at least one, and the number is
/// a byte; 0 for every other text.
pub open spec fn hex_value(s: Seq<char>) -> u8 {
    if s.len() > 0 && all_hex_digits(s) && hex_number(s) <= 255 {
        hex_number(s) as u8
    } else {
        0
    }
}

proof fn lemma_hex_number_grows(d: Seq<char>, n: int)
    requires
        0 <= n <= d.len(),
        all_hex_digits(d),
    ensures
        hex_number(d.take(n)) <= hex_number(d),
    decreases d.len() - n,
{
    if n < d.len() {
        lemma_hex_number_grows(d, n + 1);
        assert(d.take(n + 1).drop_last() =~= d.take(n));
        assert(d.take(n + 1).last() == d[n]);
        assert(is_hex_digit(d[n]));
    } else {
        assert(d.take(n) =~= d);
    }
}

/// The byte that the hex digits of a field spell, however many they are;
/// 0 where they spell none.
pub fn u8_from_hex(s: &str) -> (r: u8)
    ensures
        r == hex_value(s@),
{
    let d = chars_of(s);
    if d.len() == 0 || !is_all_hex_digits(d.as_slice()) {
        return 0;
    }
    let mut v: u16 = 0;
    let mut i: usize = 0;
    proof {
        assert(d@.take(0) =~= Seq::<char>::empty());
    }
    while i < d.len()
        invariant
            i <= d.len(),
            all_hex_digits(d@),
            d@ == s@,
            d.len() > 0,
            v == hex_number(d@.take(i as int)),
            v <= 255,
        decreases d.len() - i,
    {
        proof {
            assert(is_hex_digit(d@[i as int]));
            assert(d@.take(i + 1).drop_last() =~= d@.take(i as int));
            assert(d@.take(i + 1).last() == d@[i as int]);
        }
        let next: u16 = v * 16 + (hex_digit_of(d[i]) as u16);
        if next > 255 {
            proof {
                lemma_hex_number_grows(d@, i + 1);
            }
            return 0;
        }
        v = next;
        i += 1;
    }
    proof {
        assert(d@.take(d.len() as int) =~= d@);
    }
    v as u8
}

/// The normal form of a hex colour code, or the reason why the text has none.
pub open spec fn normalized_hex(s: Seq<char>) -> Result<Seq<char>, HexError> {
    let t = trimmed(s);
    if t.len() == 0 || t[0] != '#' {
        Err(HexError::BadFormat)
    } else {
        let d = t.skip(1);
        if !all_hex_digits(d) {
            Err(HexError::BadFormat)
        } else if d.len() == 3 {
            Ok(ascii_uppercase(seq!['#', d[0], d[0], d[1], d[1], d[2], d[2]]))
        } else if d.len() == 6 || d.len() == 8 {
            Ok(ascii_uppercase(seq!['#'] + d.take(6)))
        } else {
            Err(HexError::UnsupportedLength)
        }
    }
}

/// What `normalize_hex` returned stands for this result over texts.
pub open spec fn result_text(r: Result<String, HexError>) -> Result<Seq<char>, HexError> {
    match r {
        Ok(s) => Ok(s@),
        Err(e) => Err(e),
    }
}

/// Brings `#RGB`, `#RRGGBB` or `#RRGGBBAA`, in either case and with
/// whitespace around it, into uppercase `#RRGGBB`. Alpha is dropped.
pub fn normalize_hex(s: &str) -> (r: Result<String, HexError>)
    ensures
        result_text(r) == normalized_hex(s@),
{
    let cs = chars_of(s);
    let t = trim(cs.as_slice());
    if t.len() == 0 || t[0] != '#' {
        return Err(HexError::BadFormat);
    }
    let d = slice_of(t.as_slice(), 1, t.len());
    proof {
        assert(d@ == t@.skip(1));
    }
    if !is_all_hex_digits(d.as_slice()) {
        return Err(HexError::BadFormat);
    }
    let mut o: Vec<char> = Vec::new();
    o.push('#');
    if d.len() == 3 {
        o.push(d[0]);
        o.push(d[0]);
        o.push(d[1]);
        o.push(d[1]);
        o.push(d[2]);
        o.push(d[2]);
        proof {
            assert(o@ =~= seq!['#', d@[0], d@[0], d@[1], d@[1], d@[2], d@[2]]);
        }
    } else if d.len() == 6 || d.len() == 8 {
        let mut i: usize = 0;
        while i < 6
            invariant
                i <= 6,
                d.len() >= 6,
                o@ == seq!['#'] + d@.take(i as int),
            decreases 6 - i,
        {
            o.push(d[i]);
            proof {
                assert(d@.take(i + 1) =~= d@.take(i as int).push(d@[i as int]));
                assert(o@ =~= seq!['#'] + d@.take(i + 1));
            }
            i += 1;
        }
    } else {
        return Err(HexError::UnsupportedLength);
    }
    let up = to_ascii_uppercase(o.as_slice());
    Ok(string_of(up.as_slice()))
}

/// Whether a text is `#` and six hex digits.
pub open spec fn is_normal_hex(s: Seq<char>) -> bool {
    s.len() == 7 && s[0] == '#' && all_hex_digits(s.skip(1))
}

/// The three two-digit parts of a normal hex code.
pub open spec fn hex_parts(s: Seq<char>) -> Option<(Seq<char>, Seq<char>, Seq<char>)> {
    if is_normal_hex(s) {
        Some((s.subrange(1, 3), s.subrange(3, 5), s.subrange(5, 7)))
    } else {
        None
    }
}

/// What an optional triple of strings holds, as texts.
pub open spec fn parts_text(r: Option<(String, String, String)>) -> Option<
    (Seq<char>, Seq<char>, Seq<char>),
> {
    match r {
        Some((a, b, c)) => Some((a@, b@, c@)),
        None => None,
    }
}

/// Splits `#RRGGBB` into `RR`, `GG` and `BB`; `None` for any other text.
pub fn split_hex(norm: &str) -> (r: Option<(String, String, String)>)
    ensures
        parts_text(r) == hex_parts(norm@),
{
    let cs = chars_of(norm);
    if cs.len() != 7 || cs[0] != '#' {
        return None;
    }
    let d = slice_of(cs.as_slice(), 1, 7);
    proof {
        assert(d@ == cs@.skip(1));
    }
    if !is_all_hex_digits(d.as_slice()) {
        return None;
    }
    let rr = slice_of(cs.as_slice(), 1, 3);
    let gg = slice_of(cs.as_slice(), 3, 5);
    let bb = slice_of(cs.as_slice(), 5, 7);
    Some((string_of(rr.as_slice()), string_of(gg.as_slice()), string_of(bb.as_slice())))
}

/// `#` followed by the three parts in uppercase.
pub open spec fn combined_hex(rr: Seq<char>, gg: Seq<char>, bb: Seq<char>) -> Seq<char> {
    seq!['#'] + ascii_uppercase(rr) + ascii_uppercase(gg) + ascii_uppercase(bb)
}

fn append_upper(out: &mut Vec<char>, part: &[char])
    ensures
        final(out)@ == old(out)@ + ascii_uppercase(part@),
{
    let up = to_ascii_uppercase(part);
    let mut i: usize = 0;
    while i < up.len()
        invariant
            i <= up.len(),
            out@ == old(out)@ + up@.take(i as int),
        decreases up.len() - i,
    {
        out.push(up[i]);
        proof {
            assert(up@.take(i + 1) =~= up@.take(i as int).push(up@[i as int]));
            assert(out@ =~= old(out)@ + up@.take(i + 1));
        }
        i += 1;
    }
    proof {
        assert(up@.take(up.len() as int) =~= up@);
    }
}

/// Joins three hex parts into one code, uppercased. The parts are taken as
/// they are: their lengths are not checked.
pub fn combine_hex(rr: &str, gg: &str, bb: &str) -> (r: String)
    ensures
        r@ == combined_hex(rr@, gg@, bb@),
{
    let mut out: Vec<char> = Vec::new();
    out.push('#');
    proof {
        assert(out@ =~= seq!['#']);
    }
    let r = chars_of(rr);
    let g = chars_of(gg);
    let b = chars_of(bb);
    append_upper(&mut out, r.as_slice());
    append_upper(&mut out, g.as_slice());
    append_upper(&mut out, b.as_slice());
    string_of(out.as_slice())
}

/// The text without one leading `#`.
pub open spec fn without_hash(s: Seq<char>) -> Seq<char> {
    if s.len() > 0 && s[0] == '#' {
        s.skip(1)
    } else {
        s
    }
}

/// The hex digits among the first `n` characters of `s`, in uppercase, but
/// no more than two of them.
pub open spec fn first_hex_digits(s: Seq<char>, n: int) -> Seq<char>
    decreases n,
{
    if n <= 0 || n > s.len() {
        seq![]
    } else {
        let before = first_hex_digits(s, n - 1);
        if before.len() < 2 && is_hex_digit(s[n - 1]) {
            before.push(ascii_upper(s[n - 1]))
        } else {
            before
        }
    }
}

/// At most two uppercase hex digits: the first two that the text holds
/// after an optional leading `#`.
pub open spec fn sanitized_hex2(s: Seq<char>) -> Seq<char> {
    let t = without_hash(s);
    first_hex_digits(t, t.len() as int)
}

/// Once two digits are found, the rest of the text adds nothing.
proof fn lemma_first_hex_digits_full(s: Seq<char>, n: int, m: int)
    requires
        0 <= n <= m <= s.len(),
        first_hex_digits(s, n).len() >= 2,
    ensures
        first_hex_digits(s, m) == first_hex_digits(s, n),
    decreases m - n,
{
    if n < m {
        lemma_first_hex_digits_full(s, n, m - 1);
    }
}

/// Keeps the first two hex digits of what a user typed, uppercased.
pub fn sanitize_hex2(s: &str) -> (r: String)
    ensures
        r@ == sanitized_hex2(s@),
        r@.len() <= 2,
{
    let cs = chars_of(s);
    let start: usize = if cs.len() > 0 && cs[0] == '#' {
        1
    } else {
        0
    };
    let t = slice_of(cs.as_slice(), start, cs.len());
    proof {
        assert(t@ =~= without_hash(cs@));
    }
    let mut out: Vec<char> = Vec::new();
    let mut i: usize = 0;
    while i < t.len()
        invariant
            i <= t.len(),
            out@ == first_hex_digits(t@, i as int),
            out@.len() < 2,
            t@ == without_hash(s@),
        decreases t.len() - i,
    {
        let c = t[i];
        if char_is_hex_digit(c) {
            out.push(to_ascii_upper(c));
            if out.len() == 2 {
                proof {
                    assert(out@ == first_hex_digits(t@, i + 1));
                    lemma_first_hex_digits_full(t@, i + 1, t@.len() as int);
                }
                return string_of(out.as_slice());
            }
        }
        i += 1;
    }
    string_of(out.as_slice())
}

/// `s` without whitespace, wherever it stands.
pub open spec fn without_whitespace(s: Seq<char>) -> Seq<char> {
    s.filter(|c: char| !unicode_whitespace(c))
}

/// `s` without any `#` that it starts with.
pub open spec fn without_leading_hashes(s: Seq<char>) -> Seq<char>
    decreases s.len(),
{
    if s.len() > 0 && s[0] == '#' {
        without_leading_hashes(s.skip(1))
    } else {
        s
    }
}

/// The hex digits that a query spells, where it reads as a hex query: up to
/// six hex digits, after `#` or at least two of them.
pub open spec fn hex_query(q: Seq<char>) -> Option<Seq<char>> {
    let t = trimmed(q);
    let has_hash = t.len() > 0 && t[0] == '#';
    let d = without_whitespace(without_leading_hashes(t));
    if d.len() == 0 || d.len() > 6 || !all_hex_digits(d) {
        None
    } else if !has_hash && d.len() < 2 {
        None
    } else {
        Some(ascii_uppercase(d))
    }
}

/// What an optional string holds, as text.
pub open spec fn option_text(r: Option<String>) -> Option<Seq<char>> {
    match r {
        Some(s) => Some(s@),
        None => None,
    }
}

/// Reads a query as the start of a hex code: `Some` of its digits in
/// uppercase where it is one, `None` where it is a name query.
pub fn normalize_hex_query(q: &str) -> (r: Option<String>)
    ensures
        option_text(r) == hex_query(q@),
{
    let cs = chars_of(q);
    let t = trim(cs.as_slice());
    let has_hash = t.len() > 0 && t[0] == '#';
    let mut start: usize = 0;
    proof {
        assert(t@.skip(0) =~= t@);
    }
    while start < t.len() && t[start] == '#'
        invariant
            start <= t.len(),
            without_leading_hashes(t@) == without_leading_hashes(t@.skip(start as int)),
        decreases t.len() - start,
    {
        proof {
            assert(t@.skip(start as int).skip(1) =~= t@.skip(start + 1));
        }
        start += 1;
    }
    proof {
        assert(without_leading_hashes(t@.skip(start as int)) == t@.skip(start as int));
    }
    let rest = slice_of(t.as_slice(), start, t.len());
    let mut d: Vec<char> = Vec::new();
    let mut i: usize = 0;
    while i < rest.len()
        invariant
            i <= rest.len(),
            d@ == without_whitespace(rest@.take(i as int)),
        decreases rest.len() - i,
    {
        proof {
            assert(rest@.take(i + 1).drop_last() =~= rest@.take(i as int));
            reveal(Seq::filter);
        }
        if !is_whitespace(rest[i]) {
            d.push(rest[i]);
        }
        i += 1;
    }
    proof {
        assert(rest@.take(rest.len() as int) =~= rest@);
    }
    if d.len() == 0 || d.len() > 6 || !is_all_hex_digits(d.as_slice()) {
        return None;
    }
    if !has_hash && d.len() < 2 {
        return None;
    }
    let up = to_ascii_uppercase(d.as_slice());
    Some(string_of(up.as_slice()))
}

} // verus!
