//! Numbers in colour names: colour temperatures such as `5500K`, and the
//! order of a table by temperature.

use vstd::prelude::*;
use crate::color_types::{ColorName, HexCode, NameOrder};
use crate::ranking::entries_at;
use crate::sorting::{
    Key, key_less, key_lt, key_views, lemma_sorted_positions, sort_positions, sorted_positions,
    SortKey,
};
use crate::text::{
    ascii_lowercase, char_is_digit, chars_of, is_digit, lowercase, to_ascii_lowercase,
    unicode_lowercase,
};

verus! {

/// Where the run of digits that ends before position `k` starts; `k` where
/// no digit stands before it.
pub open spec fn digit_run_start(s: Seq<char>, k: int) -> int
    decreases k,
{
    if 0 < k <= s.len() && is_digit(s[k - 1]) {
        digit_run_start(s, k - 1)
    } else {
        k
    }
}

/// Where the run of digits that starts at position `j` ends.
pub open spec fn digit_run_end(s: Seq<char>, j: int) -> int
    decreases s.len() - j,
{
    if 0 <= j < s.len() && is_digit(s[j]) {
        digit_run_end(s, j + 1)
    } else {
        j
    }
}

/// The number that decimal digits spell.
pub open spec fn decimal_value(d: Seq<char>) -> nat
    decreases d.len(),
{
    if d.len() == 0 {
        0
    } else {
        decimal_value(d.drop_last()) * 10 + (d.last() as nat - '0' as nat) as nat
    }
}

/// The number that the digits from `j` to `k` spell, where it fits `u32`.
pub open spec fn number_between(s: Seq<char>, j: int, k: int) -> Option<u32> {
    if 0 <= j < k <= s.len() && decimal_value(s.subrange(j, k)) <= u32::MAX {
        Some(decimal_value(s.subrange(j, k)) as u32)
    } else {
        None
    }
}

/// The temperature that ends at position `k`: the number spelled by the
/// digits right before a `k` at that position.
pub open spec fn temperature_at(s: Seq<char>, k: int) -> Option<u32> {
    if 0 <= k < s.len() && s[k] == 'k' {
        number_between(s, digit_run_start(s, k), k)
    } else {
        None
    }
}

/// The greatest temperature that ends before position `upto`.
pub open spec fn max_temperature(s: Seq<char>, upto: int) -> Option<u32>
    decreases upto,
{
    if upto <= 0 {
        None
    } else {
        let rest = max_temperature(s, upto - 1);
        match temperature_at(s, upto - 1) {
            Some(t) => match rest {
                Some(r) => Some(if r > t {
                    r
                } else {
                    t
                }),
                None => Some(t),
            },
            None => rest,
        }
    }
}

/// The greatest colour temperature in a name: the greatest number that
/// stands right before a `k` or `K`.
pub open spec fn kelvin_of(name: Seq<char>) -> Option<u32> {
    let s = unicode_lowercase(name);
    max_temperature(s, s.len() as int)
}

/// The position of the first `k` at or after `from`, or the length.
pub open spec fn first_k(s: Seq<char>, from: int) -> int
    decreases s.len() - from,
{
    if from < 0 || from >= s.len() {
        s.len() as int
    } else if s[from] == 'k' {
        from
    } else {
        first_k(s, from + 1)
    }
}

/// The colour temperature that ends at the first `k` or `K` of a name.
pub open spec fn first_kelvin_of(name: Seq<char>) -> Option<u32> {
    let s = unicode_lowercase(name);
    temperature_at(s, first_k(s, 0))
}

/// The first number in a name, where it fits `u32`.
pub open spec fn integer_of(name: Seq<char>) -> Option<u32> {
    let j = first_digit(name, 0);
    number_between(name, j, digit_run_end(name, j))
}

/// The position of the first digit at or after `from`, or the length.
pub open spec fn first_digit(s: Seq<char>, from: int) -> int
    decreases s.len() - from,
{
    if from < 0 || from >= s.len() {
        s.len() as int
    } else if is_digit(s[from]) {
        from
    } else {
        first_digit(s, from + 1)
    }
}

proof fn lemma_decimal_value_grows(d: Seq<char>, n: int)
    requires
        0 <= n <= d.len(),
    ensures
        decimal_value(d.take(n)) <= decimal_value(d),
    decreases d.len() - n,
{
    if n < d.len() {
        lemma_decimal_value_grows(d, n + 1);
        assert(d.take(n + 1).drop_last() =~= d.take(n));
    } else {
        assert(d.take(n) =~= d);
    }
}

/// Reads the digits from `j` to `k` as a number.
fn parse_number(s: &[char], j: usize, k: usize) -> (r: Option<u32>)
    requires
        j <= k <= s.len(),
        forall|i: int| j <= i < k ==> is_digit(#[trigger] s@[i]),
    ensures
        r == number_between(s@, j as int, k as int),
{
    if j == k {
        return None;
    }
    let ghost d = s@.subrange(j as int, k as int);
    let mut v: u64 = 0;
    let mut i: usize = j;
    proof {
        assert(d.take(0) =~= Seq::<char>::empty());
    }
    while i < k
        invariant
            j <= i <= k <= s.len(),
            d == s@.subrange(j as int, k as int),
            forall|m: int| j <= m < k ==> is_digit(#[trigger] s@[m]),
            v == decimal_value(d.take(i - j)),
            v <= u32::MAX,
        decreases k - i,
    {
        let c = s[i];
        proof {
            assert(is_digit(s@[i as int]));
            assert(d.take(i - j + 1).drop_last() =~= d.take(i - j));
            assert(d.take(i - j + 1).last() == c);
        }
        let digit: u64 = ((c as u8) - ('0' as u8)) as u64;
        let next: u64 = v * 10 + digit;
        if next > 0xffff_ffff {
            proof {
                lemma_decimal_value_grows(d, i - j + 1);
            }
            return None;
        }
        v = next;
        i += 1;
    }
    proof {
        assert(d.take(k - j) =~= d);
    }
    Some(v as u32)
}

/// The temperature that ends at position `k` of a lowercase name.
fn temperature_before(s: &[char], k: usize) -> (r: Option<u32>)
    requires
        k < s.len(),
        s@[k as int] == 'k',
    ensures
        r == temperature_at(s@, k as int),
{
    let mut j: usize = k;
    while j > 0 && char_is_digit(s[j - 1])
        invariant
            j <= k < s.len(),
            digit_run_start(s@, k as int) == digit_run_start(s@, j as int),
            forall|i: int| j <= i < k ==> is_digit(#[trigger] s@[i]),
        decreases j,
    {
        j -= 1;
    }
    parse_number(s, j, k)
}

/// The greatest colour temperature in a name, such as 5500 in `Noon 5500K`.
pub fn extract_kelvin_temp(name: &str) -> (r: Option<u32>)
    ensures
        r == kelvin_of(name@),
{
    let cs = chars_of(name);
    let s = lowercase(cs.as_slice());
    let mut best: Option<u32> = None;
    let mut k: usize = 0;
    while k < s.len()
        invariant
            k <= s.len(),
            best == max_temperature(s@, k as int),
        decreases s.len() - k,
    {
        if s[k] == 'k' {
            match temperature_before(s.as_slice(), k) {
                Some(t) => {
                    best = match best {
                        Some(r) => Some(if r > t {
                            r
                        } else {
                            t
                        }),
                        None => Some(t),
                    };
                },
                None => {},
            }
        }
        k += 1;
    }
    best
}

/// The colour temperature that ends at the first `k` or `K` of a name.
pub fn first_kelvin_temp(name: &str) -> (r: Option<u32>)
    ensures
        r == first_kelvin_of(name@),
{
    let cs = chars_of(name);
    let s = lowercase(cs.as_slice());
    let mut k: usize = 0;
    while k < s.len()
        invariant
            k <= s.len(),
            s@ == unicode_lowercase(name@),
            first_k(s@, 0) == first_k(s@, k as int),
        decreases s.len() - k,
    {
        if s[k] == 'k' {
            return temperature_before(s.as_slice(), k);
        }
        k += 1;
    }
    None
}

/// The first number in a name.
pub fn extract_integer(name: &str) -> (r: Option<u32>)
    ensures
        r == integer_of(name@),
{
    let s = chars_of(name);
    let mut j: usize = 0;
    while j < s.len() && !char_is_digit(s[j])
        invariant
            j <= s.len(),
            first_digit(s@, 0) == first_digit(s@, j as int),
        decreases s.len() - j,
    {
        j += 1;
    }
    let mut k: usize = j;
    while k < s.len() && char_is_digit(s[k])
        invariant
            j <= k <= s.len(),
            digit_run_end(s@, j as int) == digit_run_end(s@, k as int),
            forall|i: int| j <= i < k ==> is_digit(#[trigger] s@[i]),
        decreases s.len() - k,
    {
        k += 1;
    }
    parse_number(s.as_slice(), j, k)
}

/// What an entry of a temperature table is ordered by: entries with a
/// temperature first, the hottest first among them, then the name.
pub open spec fn kelvin_key(e: (HexCode, ColorName)) -> Key {
    match kelvin_of(e.1@) {
        Some(t) => (0, (u32::MAX - t) as u64, e.1@),
        None => (1, 0, e.1@),
    }
}

/// The keys of the entries of a temperature table, in the table's order.
pub open spec fn kelvin_keys(es: Seq<(HexCode, ColorName)>) -> Seq<Key> {
    es.map_values(|e: (HexCode, ColorName)| kelvin_key(e))
}

/// A table ordered by temperature, hottest first; entries without a
/// temperature come last, by name.
pub fn sort_by_temperature(colors: &[(HexCode, ColorName)]) -> (r: Vec<(HexCode, ColorName)>)
    ensures
        r@ == entries_at(colors@, sorted_positions(kelvin_keys(colors@), colors@.len())),
{
    let ghost want = kelvin_keys(colors@);
    let mut keys: Vec<SortKey> = Vec::new();
    let mut i: usize = 0;
    while i < colors.len()
        invariant
            i <= colors.len(),
            want == kelvin_keys(colors@),
            keys.len() == i,
            forall|k: int| 0 <= k < i ==> (#[trigger] keys@[k])@ == want[k],
        decreases colors.len() - i,
    {
        let name = colors[i].1.as_str();
        let text = chars_of(name);
        let key = match extract_kelvin_temp(name) {
            Some(t) => SortKey { major: 0, minor: (0xffff_ffff - t) as u64, text },
            None => SortKey { major: 1, minor: 0, text },
        };
        keys.push(key);
        i += 1;
    }
    proof {
        assert(key_views(keys@) =~= want);
        lemma_sorted_positions(want, colors@.len());
    }
    let order = sort_positions(&keys);
    let mut out: Vec<(HexCode, ColorName)> = Vec::new();
    let mut k: usize = 0;
    while k < order.len()
        invariant
            k <= order.len(),
            order.len() == colors.len(),
            forall|x: usize| #[trigger] order@.contains(x) <==> x < colors.len(),
            out@ == entries_at(colors@, order@.take(k as int)),
        decreases order.len() - k,
    {
        proof {
            assert(order@.contains(order@[k as int]));
        }
        out.push(colors[order[k]]);
        proof {
            assert(order@.take(k + 1) =~= order@.take(k as int).push(order@[k as int]));
            assert(out@ =~= entries_at(colors@, order@.take(k + 1)));
        }
        k += 1;
    }
    proof {
        assert(order@.take(order.len() as int) =~= order@);
    }
    out
}

/// What a name is ordered by among names: the kind of its ordering, the
/// number that the kind reads from the name, and the lowercase name.
pub open spec fn name_order_key(n: ColorName) -> Key {
    match n.ordering_of() {
        NameOrder::Name => (0, 0, ascii_lowercase(n@)),
        NameOrder::Kelvin => (
            1,
            match first_kelvin_of(n@) {
                Some(t) => t as u64,
                None => 0,
            },
            ascii_lowercase(n@),
        ),
        NameOrder::Integer => (
            2,
            match integer_of(n@) {
                Some(t) => t as u64,
                None => 0,
            },
            ascii_lowercase(n@),
        ),
        NameOrder::Brightness => (3, 0, ascii_lowercase(n@)),
        NameOrder::Hue => (4, 0, ascii_lowercase(n@)),
        NameOrder::Custom(p) => (5, p as u64, ascii_lowercase(n@)),
    }
}

/// The key by which a name is ordered among names.
pub fn order_key(n: &ColorName) -> (k: SortKey)
    ensures
        k@ == name_order_key(*n),
{
    let cs = chars_of(n.as_str());
    let text = to_ascii_lowercase(cs.as_slice());
    match n.ordering() {
        NameOrder::Name => SortKey { major: 0, minor: 0, text },
        NameOrder::Kelvin => {
            let t = match first_kelvin_temp(n.as_str()) {
                Some(t) => t as u64,
                None => 0,
            };
            SortKey { major: 1, minor: t, text }
        },
        NameOrder::Integer => {
            let t = match extract_integer(n.as_str()) {
                Some(t) => t as u64,
                None => 0,
            };
            SortKey { major: 2, minor: t, text }
        },
        NameOrder::Brightness => SortKey { major: 3, minor: 0, text },
        NameOrder::Hue => SortKey { major: 4, minor: 0, text },
        NameOrder::Custom(p) => SortKey { major: 5, minor: p as u64, text },
    }
}

/// Whether a name comes before another: names of the same ordering by the
/// number that the ordering reads from them and then by lowercase name,
/// names of different orderings by the ordering and then by lowercase name.
pub fn name_precedes(a: &ColorName, b: &ColorName) -> (r: bool)
    ensures
        r == key_lt(name_order_key(*a), name_order_key(*b)),
{
    let ka = order_key(a);
    let kb = order_key(b);
    key_less(&ka, &kb)
}

} // verus!
