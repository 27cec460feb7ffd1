//! Character and text primitives shared by the rest of the crate.
//!
//! Texts are modelled as `Seq<char>`. Executable code works on `[char]`
//! slices; `chars_of` and `string_of` convert from and to `str`.

use vstd::prelude::*;

verus! {

/// What `str::to_lowercase` yields for a text.
pub uninterp spec fn unicode_lowercase(s: Seq<char>) -> Seq<char>;

/// What `str::to_uppercase` yields for a text.
pub uninterp spec fn unicode_uppercase(s: Seq<char>) -> Seq<char>;

/// Whether `char::is_alphanumeric` holds of a character.
pub uninterp spec fn unicode_alphanumeric(c: char) -> bool;

/// Whether `char::is_whitespace` holds of a character.
pub uninterp spec fn unicode_whitespace(c: char) -> bool;

/// Calls `str::to_lowercase`. The contract only names the result: the same
/// text always lowercases to the same text, and Unicode decides which.
#[verifier::external_body]
pub(crate) fn to_lowercase(s: &str) -> (r: String)
    ensures
        r@ == unicode_lowercase(s@),
{
    s.to_lowercase()
}

/// Calls `str::to_uppercase`. The contract only names the result.
#[verifier::external_body]
pub(crate) fn to_uppercase(s: &str) -> (r: String)
    ensures
        r@ == unicode_uppercase(s@),
{
    s.to_uppercase()
}

/// Calls `char::is_alphanumeric`. The contract only names the answer.
#[verifier::external_body]
pub(crate) fn is_alphanumeric(c: char) -> (b: bool)
    ensures
        b == unicode_alphanumeric(c),
{
    c.is_alphanumeric()
}

/// Calls `char::is_whitespace`. The contract only names the answer.
#[verifier::external_body]
pub(crate) fn is_whitespace(c: char) -> (b: bool)
    ensures
        b == unicode_whitespace(c),
{
    c.is_whitespace()
}

/// Calls `String::push`, which appends the character to the end of the string.
#[verifier::external_body]
pub(crate) fn push_char(s: &mut String, c: char)
    ensures
        final(s)@ == old(s)@.push(c),
{
    s.push(c)
}

/// The characters of a text, in order.
pub fn chars_of(s: &str) -> (r: Vec<char>)
    ensures
        r@ == s@,
{
    let mut out: Vec<char> = Vec::new();
    for c in it: s.chars()
        invariant
            out@ == s@.take(it.index() as int),
            it.seq() == s@,
    {
        out.push(c);
    }
    out
}

/// The text made of the given characters.
pub fn string_of(cs: &[char]) -> (r: String)
    ensures
        r@ == cs@,
{
    let mut out = String::new();
    let mut i: usize = 0;
    while i < cs.len()
        invariant
            i <= cs.len(),
            out@ == cs@.take(i as int),
        decreases cs.len() - i,
    {
        push_char(&mut out, cs[i]);
        i += 1;
    }
    out
}

/// A copy of the characters from `lo` up to, not including, `hi`.
pub fn slice_of(cs: &[char], lo: usize, hi: usize) -> (r: Vec<char>)
    requires
        lo <= hi <= cs.len(),
    ensures
        r@ == cs@.subrange(lo as int, hi as int),
{
    let mut out: Vec<char> = Vec::new();
    let mut i: usize = lo;
    while i < hi
        invariant
            lo <= i <= hi <= cs.len(),
            out@ == cs@.subrange(lo as int, i as int),
        decreases hi - i,
    {
        out.push(cs[i]);
        i += 1;
    }
    out
}

/// The Unicode lowercase form of a text given as characters.
pub fn lowercase(cs: &[char]) -> (r: Vec<char>)
    ensures
        r@ == unicode_lowercase(cs@),
{
    let s = string_of(cs);
    let lc = to_lowercase(s.as_str());
    chars_of(lc.as_str())
}

/// The Unicode uppercase form of a text given as characters.
pub fn uppercase(cs: &[char]) -> (r: Vec<char>)
    ensures
        r@ == unicode_uppercase(cs@),
{
    let s = string_of(cs);
    let uc = to_uppercase(s.as_str());
    chars_of(uc.as_str())
}

// ---------------------------------------------------------------------------
// ASCII case and digits
// ---------------------------------------------------------------------------

/// `c` with an ASCII lowercase letter replaced by its uppercase letter.
pub open spec fn ascii_upper(c: char) -> char {
    if 'a' <= c && c <= 'z' {
        ((c as u8) - 32) as char
    } else {
        c
    }
}

/// `c` with an ASCII uppercase letter replaced by its lowercase letter.
pub open spec fn ascii_lower(c: char) -> char {
    if 'A' <= c && c <= 'Z' {
        ((c as u8) + 32) as char
    } else {
        c
    }
}

/// One of `0-9`, `a-f`, `A-F`.
pub open spec fn is_hex_digit(c: char) -> bool {
    ('0' <= c && c <= '9') || ('a' <= c && c <= 'f') || ('A' <= c && c <= 'F')
}

/// One of `0-9`.
pub open spec fn is_digit(c: char) -> bool {
    '0' <= c && c <= '9'
}

/// The text with its ASCII lowercase letters in uppercase.
pub open spec fn ascii_uppercase(s: Seq<char>) -> Seq<char> {
    s.map_values(|c: char| ascii_upper(c))
}

/// The text with its ASCII uppercase letters in lowercase.
pub open spec fn ascii_lowercase(s: Seq<char>) -> Seq<char> {
    s.map_values(|c: char| ascii_lower(c))
}

/// Nothing but hex digits.
pub open spec fn all_hex_digits(s: Seq<char>) -> bool {
    forall|i: int| 0 <= i < s.len() ==> is_hex_digit(#[trigger] s[i])
}

/// Equality up to the case of ASCII letters.
pub open spec fn eq_ignoring_ascii_case(a: Seq<char>, b: Seq<char>) -> bool {
    ascii_lowercase(a) == ascii_lowercase(b)
}

/// The character with an ASCII lowercase letter in uppercase.
pub fn to_ascii_upper(c: char) -> (r: char)
    ensures
        r == ascii_upper(c),
{
    if c >= 'a' && c <= 'z' {
        ((c as u8) - 32) as char
    } else {
        c
    }
}

/// The character with an ASCII uppercase letter in lowercase.
pub fn to_ascii_lower(c: char) -> (r: char)
    ensures
        r == ascii_lower(c),
{
    if c >= 'A' && c <= 'Z' {
        ((c as u8) + 32) as char
    } else {
        c
    }
}

/// Whether the character is one of `0-9`, `a-f`, `A-F`.
pub fn char_is_hex_digit(c: char) -> (b: bool)
    ensures
        b == is_hex_digit(c),
{
    (c >= '0' && c <= '9') || (c >= 'a' && c <= 'f') || (c >= 'A' && c <= 'F')
}

/// Whether the character is one of `0-9`.
pub fn char_is_digit(c: char) -> (b: bool)
    ensures
        b == is_digit(c),
{
    c >= '0' && c <= '9'
}

/// The text with its ASCII lowercase letters in uppercase.
pub fn to_ascii_uppercase(cs: &[char]) -> (r: Vec<char>)
    ensures
        r@ == ascii_uppercase(cs@),
{
    let mut out: Vec<char> = Vec::new();
    let mut i: usize = 0;
    while i < cs.len()
        invariant
            i <= cs.len(),
            out@ == ascii_uppercase(cs@.take(i as int)),
        decreases cs.len() - i,
    {
        out.push(to_ascii_upper(cs[i]));
        proof {
            assert(cs@.take(i + 1) == cs@.take(i as int).push(cs@[i as int]));
        }
        i += 1;
    }
    proof {
        assert(cs@.take(cs.len() as int) == cs@);
    }
    out
}

/// The text with its ASCII uppercase letters in lowercase.
pub fn to_ascii_lowercase(cs: &[char]) -> (r: Vec<char>)
    ensures
        r@ == ascii_lowercase(cs@),
{
    let mut out: Vec<char> = Vec::new();
    let mut i: usize = 0;
    while i < cs.len()
        invariant
            i <= cs.len(),
            out@ == ascii_lowercase(cs@.take(i as int)),
        decreases cs.len() - i,
    {
        out.push(to_ascii_lower(cs[i]));
        proof {
            assert(cs@.take(i + 1) == cs@.take(i as int).push(cs@[i as int]));
        }
        i += 1;
    }
    proof {
        assert(cs@.take(cs.len() as int) == cs@);
    }
    out
}

/// Whether the text holds nothing but hex digits.
pub fn is_all_hex_digits(cs: &[char]) -> (b: bool)
    ensures
        b == all_hex_digits(cs@),
{
    let mut i: usize = 0;
    while i < cs.len()
        invariant
            i <= cs.len(),
            forall|k: int| 0 <= k < i ==> is_hex_digit(#[trigger] cs@[k]),
        decreases cs.len() - i,
    {
        if !char_is_hex_digit(cs[i]) {
            return false;
        }
        i += 1;
    }
    true
}

/// Whether two texts hold the same characters.
pub fn chars_eq(a: &[char], b: &[char]) -> (r: bool)
    ensures
        r == (a@ == b@),
{
    if a.len() != b.len() {
        return false;
    }
    let mut i: usize = 0;
    while i < a.len()
        invariant
            i <= a.len(),
            a.len() == b.len(),
            a@.take(i as int) == b@.take(i as int),
        decreases a.len() - i,
    {
        if a[i] != b[i] {
            return false;
        }
        proof {
            assert(a@.take(i + 1) == a@.take(i as int).push(a@[i as int]));
            assert(b@.take(i + 1) == b@.take(i as int).push(b@[i as int]));
        }
        i += 1;
    }
    proof {
        assert(a@.take(a.len() as int) == a@);
        assert(b@.take(b.len() as int) == b@);
    }
    true
}

/// Whether two texts are equal up to the case of ASCII letters.
pub fn chars_eq_ignore_ascii_case(a: &[char], b: &[char]) -> (r: bool)
    ensures
        r == eq_ignoring_ascii_case(a@, b@),
{
    if a.len() != b.len() {
        proof {
            assert(ascii_lowercase(a@).len() != ascii_lowercase(b@).len());
        }
        return false;
    }
    let mut i: usize = 0;
    while i < a.len()
        invariant
            i <= a.len(),
            a.len() == b.len(),
            forall|k: int| 0 <= k < i ==> ascii_lower(#[trigger] a@[k]) == ascii_lower(b@[k]),
        decreases a.len() - i,
    {
        if to_ascii_lower(a[i]) != to_ascii_lower(b[i]) {
            proof {
                assert(ascii_lowercase(a@)[i as int] != ascii_lowercase(b@)[i as int]);
            }
            return false;
        }
        i += 1;
    }
    proof {
        assert(ascii_lowercase(a@) =~= ascii_lowercase(b@));
    }
    true
}

// ---------------------------------------------------------------------------
// Substrings
// ---------------------------------------------------------------------------

/// `needle` occurs in `hay` starting at position `at`.
pub open spec fn occurs_at(needle: Seq<char>, hay: Seq<char>, at: int) -> bool {
    0 <= at && at + needle.len() <= hay.len() && hay.subrange(at, at + needle.len()) == needle
}

/// `needle` occurs somewhere in `hay`. The empty text occurs in every text.
pub open spec fn is_substring(needle: Seq<char>, hay: Seq<char>) -> bool {
    exists|at: int| occurs_at(needle, hay, at)
}

/// `needle` is what `hay` starts with.
pub open spec fn is_prefix(needle: Seq<char>, hay: Seq<char>) -> bool {
    occurs_at(needle, hay, 0)
}

fn matches_at(needle: &[char], hay: &[char], at: usize) -> (r: bool)
    requires
        at + needle.len() <= hay.len(),
    ensures
        r == occurs_at(needle@, hay@, at as int),
{
    let mut j: usize = 0;
    while j < needle.len()
        invariant
            j <= needle.len(),
            at + needle.len() <= hay.len(),
            forall|k: int| 0 <= k < j ==> hay@[at + k] == #[trigger] needle@[k],
        decreases needle.len() - j,
    {
        if hay[at + j] != needle[j] {
            proof {
                assert(hay@.subrange(at as int, at + needle.len())[j as int] != needle@[j as int]);
            }
            return false;
        }
        j += 1;
    }
    proof {
        assert(hay@.subrange(at as int, at + needle.len()) =~= needle@);
    }
    true
}

/// Whether `needle` occurs in `hay`.
pub fn contains(hay: &[char], needle: &[char]) -> (r: bool)
    ensures
        r == is_substring(needle@, hay@),
{
    if needle.len() > hay.len() {
        return false;
    }
    let last: usize = hay.len() - needle.len();
    let mut at: usize = 0;
    while at < last
        invariant
            at <= last,
            last == hay.len() - needle.len(),
            needle.len() <= hay.len(),
            forall|k: int| 0 <= k < at ==> !occurs_at(needle@, hay@, k),
        decreases last - at,
    {
        if matches_at(needle, hay, at) {
            return true;
        }
        at += 1;
    }
    matches_at(needle, hay, last)
}

/// Whether `hay` starts with `needle`.
pub fn starts_with(hay: &[char], needle: &[char]) -> (r: bool)
    ensures
        r == is_prefix(needle@, hay@),
{
    if needle.len() > hay.len() {
        return false;
    }
    matches_at(needle, hay, 0)
}

// ---------------------------------------------------------------------------
// Trimming
// ---------------------------------------------------------------------------

/// The first position at or after `i` that holds no whitespace, or the length.
pub open spec fn skip_whitespace(s: Seq<char>, i: int) -> int
    decreases s.len() - i,
{
    if 0 <= i < s.len() && unicode_whitespace(s[i]) {
        skip_whitespace(s, i + 1)
    } else {
        i
    }
}

/// The least end `j >= lo` such that everything from `j` to `hi` is whitespace.
pub open spec fn drop_whitespace(s: Seq<char>, lo: int, hi: int) -> int
    decreases hi,
{
    if 0 <= lo < hi <= s.len() && unicode_whitespace(s[hi - 1]) {
        drop_whitespace(s, lo, hi - 1)
    } else {
        hi
    }
}

/// Where the trimmed text starts.
pub open spec fn trim_start_index(s: Seq<char>) -> int {
    skip_whitespace(s, 0)
}

/// Where the trimmed text ends.
pub open spec fn trim_end_index(s: Seq<char>) -> int {
    drop_whitespace(s, trim_start_index(s), s.len() as int)
}

/// `s` without its leading and trailing whitespace.
pub open spec fn trimmed(s: Seq<char>) -> Seq<char> {
    s.subrange(trim_start_index(s), trim_end_index(s))
}

/// Skipping whitespace moves forward and stays within the text.
pub proof fn lemma_skip_whitespace_bounds(s: Seq<char>, i: int)
    requires
        0 <= i <= s.len(),
    ensures
        i <= skip_whitespace(s, i) <= s.len(),
    decreases s.len() - i,
{
    if i < s.len() && unicode_whitespace(s[i]) {
        lemma_skip_whitespace_bounds(s, i + 1);
    }
}

/// Dropping whitespace moves back and not before `lo`.
pub proof fn lemma_drop_whitespace_bounds(s: Seq<char>, lo: int, hi: int)
    requires
        0 <= lo <= hi <= s.len(),
    ensures
        lo <= drop_whitespace(s, lo, hi) <= hi,
    decreases hi,
{
    if lo < hi && unicode_whitespace(s[hi - 1]) {
        lemma_drop_whitespace_bounds(s, lo, hi - 1);
    }
}

/// The bounds of the trimmed text lie within the text.
pub proof fn lemma_trim_bounds(s: Seq<char>)
    ensures
        0 <= trim_start_index(s) <= trim_end_index(s) <= s.len(),
{
    lemma_skip_whitespace_bounds(s, 0);
    lemma_drop_whitespace_bounds(s, trim_start_index(s), s.len() as int);
}

/// The trimmed copy of a text.
pub fn trim(cs: &[char]) -> (r: Vec<char>)
    ensures
        r@ == trimmed(cs@),
{
    let mut lo: usize = 0;
    while lo < cs.len() && is_whitespace(cs[lo])
        invariant
            lo <= cs.len(),
            skip_whitespace(cs@, 0) == skip_whitespace(cs@, lo as int),
        decreases cs.len() - lo,
    {
        lo += 1;
    }
    let mut hi: usize = cs.len();
    while hi > lo && is_whitespace(cs[hi - 1])
        invariant
            lo <= hi <= cs.len(),
            drop_whitespace(cs@, lo as int, cs.len() as int) == drop_whitespace(
                cs@,
                lo as int,
                hi as int,
            ),
        decreases hi,
    {
        hi -= 1;
    }
    slice_of(cs, lo, hi)
}

} // verus!
