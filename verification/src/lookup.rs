//! Lookups in the colour tables: by name, by hex code, and by distance.

use vstd::prelude::*;
use crate::catalog::{combined_of, Registry, Table, table_of};
use crate::index::{all_positions, lemma_positions_where_unique, positions_upto, positions_where};
use crate::postings::{lemma_push_members, strictly_increasing};
use crate::ranking::entries_at;
use crate::search::entries_for;
use crate::color_types::{ColorName, HexCode, hexes_of, names_of};
use crate::hex::{normalize_hex, normalized_hex};
use crate::origin::Origin;
use crate::rgb::{dist2, distance_squared, hex_to_rgb, Rgb, rgb_from_chars, rgb_of_hex};
use crate::text::{
    chars_eq, chars_eq_ignore_ascii_case, chars_of, eq_ignoring_ascii_case, lowercase, trim,
    trimmed, unicode_lowercase,
};

verus! {

/// The last position that holds the text, or -1.
pub open spec fn last_position_of(texts: Seq<Seq<char>>, wanted: Seq<char>) -> int
    decreases texts.len(),
{
    if texts.len() == 0 {
        -1
    } else if texts.last() == wanted {
        texts.len() - 1
    } else {
        last_position_of(texts.drop_last(), wanted)
    }
}

/// The first position at or after `from` that holds the text up to the case
/// of ASCII letters, or the length.
pub open spec fn first_position_like(texts: Seq<Seq<char>>, wanted: Seq<char>, from: int) -> int
    decreases texts.len() - from,
{
    if from < 0 || from >= texts.len() {
        texts.len() as int
    } else if eq_ignoring_ascii_case(texts[from], wanted) {
        from
    } else {
        first_position_like(texts, wanted, from + 1)
    }
}

/// The last position holds the text, and no later position does.
pub proof fn lemma_last_position_of(texts: Seq<Seq<char>>, wanted: Seq<char>)
    ensures
        -1 <= last_position_of(texts, wanted) < texts.len(),
        last_position_of(texts, wanted) >= 0 ==> texts[last_position_of(texts, wanted)] == wanted,
        forall|j: int|
            last_position_of(texts, wanted) < j < texts.len() ==> #[trigger] texts[j] != wanted,
    decreases texts.len(),
{
    if texts.len() > 0 && texts.last() != wanted {
        lemma_last_position_of(texts.drop_last(), wanted);
        assert forall|j: int|
            last_position_of(texts, wanted) < j < texts.len() implies #[trigger] texts[j]
            != wanted by {
            if j < texts.len() - 1 {
                assert(texts.drop_last()[j] == texts[j]);
            }
        }
    }
}

/// The first position holds the text up to the case of ASCII letters, and
/// no earlier position at or after `from` does.
pub proof fn lemma_first_position_like(texts: Seq<Seq<char>>, wanted: Seq<char>, from: int)
    requires
        0 <= from <= texts.len(),
    ensures
        from <= first_position_like(texts, wanted, from) <= texts.len(),
        first_position_like(texts, wanted, from) < texts.len() ==> eq_ignoring_ascii_case(
            texts[first_position_like(texts, wanted, from)],
            wanted,
        ),
        forall|j: int|
            from <= j < first_position_like(texts, wanted, from) ==> !eq_ignoring_ascii_case(
                #[trigger] texts[j],
                wanted,
            ),
    decreases texts.len() - from,
{
    if from < texts.len() && !eq_ignoring_ascii_case(texts[from], wanted) {
        lemma_first_position_like(texts, wanted, from + 1);
    }
}

/// The last position of the table whose name is the given text.
fn last_named(table: &Table, wanted: &[char], lower: bool) -> (r: Option<usize>)
    ensures
        !lower ==> match r {
            Some(k) => k == last_position_of(table.names(), wanted@),
            None => last_position_of(table.names(), wanted@) == -1,
        },
        lower ==> match r {
            Some(k) => k == last_position_of(crate::catalog::lowercase_names(table.names()), wanted@),
            None => last_position_of(crate::catalog::lowercase_names(table.names()), wanted@) == -1,
        },
        r is Some ==> r->0 < table.names().len(),
{
    let ghost texts = if lower {
        crate::catalog::lowercase_names(table.names())
    } else {
        table.names()
    };
    let mut k: usize = table.len();
    proof {
        assert(texts.take(k as int) =~= texts);
    }
    while k > 0
        invariant
            k <= table.names().len(),
            texts == if lower {
                crate::catalog::lowercase_names(table.names())
            } else {
                table.names()
            },
            texts.len() == table.names().len(),
            last_position_of(texts, wanted@) == last_position_of(texts.take(k as int), wanted@),
        decreases k,
    {
        let name = if lower {
            table.lower_name(k - 1)
        } else {
            table.name_chars(k - 1)
        };
        proof {
            assert(texts.take(k as int).last() == texts[k - 1]);
            assert(texts.take(k as int).drop_last() =~= texts.take(k - 1));
        }
        if chars_eq(name.as_slice(), wanted) {
            return Some(k - 1);
        }
        k -= 1;
    }
    None
}

/// The first position of the table whose name (or hex code) is the given
/// text up to the case of ASCII letters.
pub(crate) fn first_like(table: &Table, wanted: &[char], by_hex: bool) -> (r: Option<usize>)
    ensures
        !by_hex ==> match r {
            Some(k) => k == first_position_like(table.names(), wanted@, 0),
            None => first_position_like(table.names(), wanted@, 0) == table.names().len(),
        },
        by_hex ==> match r {
            Some(k) => k == first_position_like(table.codes(), wanted@, 0),
            None => first_position_like(table.codes(), wanted@, 0) == table.codes().len(),
        },
        r is Some ==> r->0 < table.names().len(),
{
    let ghost texts = if by_hex {
        table.codes()
    } else {
        table.names()
    };
    let n = table.len();
    let mut k: usize = 0;
    while k < n
        invariant
            k <= n,
            n == table.names().len(),
            n == table.codes().len(),
            texts == if by_hex {
                table.codes()
            } else {
                table.names()
            },
            first_position_like(texts, wanted@, 0) == first_position_like(texts, wanted@, k as int),
        decreases n - k,
    {
        let text = if by_hex {
            table.hex_chars(k)
        } else {
            table.name_chars(k)
        };
        if chars_eq_ignore_ascii_case(text.as_slice(), wanted) {
            return Some(k);
        }
        k += 1;
    }
    None
}

/// What an optional static string holds, as text.
pub open spec fn static_text(r: Option<&'static str>) -> Option<Seq<char>> {
    match r {
        Some(s) => Some(s@),
        None => None,
    }
}

/// The hex code at a position of the texts, where the position is one.
pub open spec fn text_at(texts: Seq<Seq<char>>, k: int) -> Option<Seq<char>> {
    if 0 <= k < texts.len() {
        Some(texts[k])
    } else {
        None
    }
}

/// The hex code of the colour with exactly this name: of the last one among
/// all entries, where several have it.
pub fn lookup_by_name(reg: &Registry, name: &str) -> (r: Option<&'static str>)
    ensures
        static_text(r) == text_at(
            hexes_of(combined_of(reg@)),
            last_position_of(names_of(combined_of(reg@)), name@),
        ),
{
    let wanted = chars_of(name);
    let table = reg.table(Origin::All);
    let entries = reg.entries(Origin::All);
    proof {
        lemma_last_position_of(table.names(), wanted@);
        assert(names_of(entries@).len() == entries@.len());
        assert(hexes_of(entries@).len() == entries@.len());
    }
    match last_named(table, wanted.as_slice(), false) {
        Some(k) => {
            proof {
                assert(hexes_of(entries@)[k as int] == entries@[k as int].0@);
            }
            Some(entries[k].0.as_str())
        },
        None => None,
    }
}

/// The hex code of the colour whose lowercase name is the lowercase form of
/// the given name: of the last one among all entries, where several are.
pub fn lookup_by_name_ci(reg: &Registry, name: &str) -> (r: Option<&'static str>)
    ensures
        static_text(r) == text_at(
            hexes_of(combined_of(reg@)),
            last_position_of(
                crate::catalog::lowercase_names(names_of(combined_of(reg@))),
                unicode_lowercase(name@),
            ),
        ),
{
    let cs = chars_of(name);
    let wanted = lowercase(cs.as_slice());
    let table = reg.table(Origin::All);
    let entries = reg.entries(Origin::All);
    proof {
        lemma_last_position_of(crate::catalog::lowercase_names(table.names()), wanted@);
        assert(names_of(entries@).len() == entries@.len());
        assert(hexes_of(entries@).len() == entries@.len());
        assert(crate::catalog::lowercase_names(table.names()).len() == table.names().len());
    }
    match last_named(table, wanted.as_slice(), true) {
        Some(k) => {
            proof {
                assert(hexes_of(entries@)[k as int] == entries@[k as int].0@);
            }
            Some(entries[k].0.as_str())
        },
        None => None,
    }
}

/// The hex code of the first entry, among all, whose name is the trimmed
/// text up to the case of ASCII letters.
pub fn hex_for_name(reg: &Registry, name: &str) -> (r: Option<&'static str>)
    ensures
        static_text(r) == text_at(
            hexes_of(combined_of(reg@)),
            first_position_like(names_of(combined_of(reg@)), trimmed(name@), 0),
        ),
{
    let cs = chars_of(name);
    let wanted = trim(cs.as_slice());
    let table = reg.table(Origin::All);
    let entries = reg.entries(Origin::All);
    proof {
        lemma_first_position_like(table.names(), wanted@, 0);
        assert(names_of(entries@).len() == entries@.len());
        assert(hexes_of(entries@).len() == entries@.len());
    }
    match first_like(table, wanted.as_slice(), false) {
        Some(k) => {
            proof {
                assert(hexes_of(entries@)[k as int] == entries@[k as int].0@);
            }
            Some(entries[k].0.as_str())
        },
        None => None,
    }
}

/// The name of the first entry, among all, whose hex code is the trimmed
/// text up to the case of ASCII letters.
pub fn name_for_hex(reg: &Registry, hex: String) -> (r: Option<&'static str>)
    ensures
        static_text(r) == text_at(
            names_of(combined_of(reg@)),
            first_position_like(hexes_of(combined_of(reg@)), trimmed(hex@), 0),
        ),
{
    let cs = chars_of(hex.as_str());
    let wanted = trim(cs.as_slice());
    let table = reg.table(Origin::All);
    let entries = reg.entries(Origin::All);
    proof {
        lemma_first_position_like(table.codes(), wanted@, 0);
        assert(names_of(entries@).len() == entries@.len());
        assert(hexes_of(entries@).len() == entries@.len());
    }
    match first_like(table, wanted.as_slice(), true) {
        Some(k) => {
            proof {
                assert(names_of(entries@)[k as int] == entries@[k as int].1@);
            }
            Some(entries[k].1.as_str())
        },
        None => None,
    }
}

/// The hex code of the first entry of an origin whose name is the text up
/// to the case of ASCII letters.
pub fn hex_for_name_in_origin(reg: &Registry, origin: Origin, name: &str) -> (r: Option<
    &'static str,
>)
    ensures
        static_text(r) == text_at(
            hexes_of(table_of(reg@, origin)),
            first_position_like(names_of(table_of(reg@, origin)), name@, 0),
        ),
{
    let wanted = chars_of(name);
    let table = reg.table(origin);
    let entries = reg.entries(origin);
    proof {
        lemma_first_position_like(table.names(), wanted@, 0);
        assert(names_of(entries@).len() == entries@.len());
        assert(hexes_of(entries@).len() == entries@.len());
    }
    match first_like(table, wanted.as_slice(), false) {
        Some(k) => {
            proof {
                assert(hexes_of(entries@)[k as int] == entries@[k as int].0@);
            }
            Some(entries[k].0.as_str())
        },
        None => None,
    }
}

// ---------------------------------------------------------------------------
// Nearest colours
// ---------------------------------------------------------------------------

/// Black.
pub open spec fn black() -> Rgb {
    Rgb { r: 0, g: 0, b: 0 }
}

/// The colour that a text stands for when a nearest colour is looked for:
/// the colour of `#RRGGBB`, else the colour of its normal form, else black.
pub open spec fn target_of(input: Seq<char>) -> Rgb {
    if input.len() == 7 && input[0] == '#' {
        match rgb_of_hex(input) {
            Some(c) => c,
            None => black(),
        }
    } else {
        match normalized_hex(input) {
            Ok(norm) => match rgb_of_hex(norm) {
                Some(c) => c,
                None => black(),
            },
            Err(_) => black(),
        }
    }
}

/// The colour that a text stands for when a nearest colour is looked for.
pub fn target_color(input: &str) -> (r: Rgb)
    ensures
        r == target_of(input@),
{
    let cs = chars_of(input);
    let parsed = if cs.len() == 7 && cs[0] == '#' {
        rgb_from_chars(cs.as_slice())
    } else {
        match normalize_hex(input) {
            Ok(norm) => hex_to_rgb(norm.as_str()),
            Err(_) => None,
        }
    };
    match parsed {
        Some(c) => c,
        None => Rgb { r: 0, g: 0, b: 0 },
    }
}

/// Position `p` holds the colour nearest to the target among the positions
/// in `among` whose hex codes spell a colour, and no earlier one is as near.
pub open spec fn is_nearest(codes: Seq<Seq<char>>, among: Seq<usize>, target: Rgb, at: int) -> bool {
    &&& 0 <= at < among.len()
    &&& rgb_of_hex(codes[among[at] as int]) is Some
    &&& forall|j: int|
        0 <= j < among.len() && rgb_of_hex(codes[#[trigger] among[j] as int]) is Some
            ==> distance_squared(target, rgb_of_hex(codes[among[at] as int])->0)
            <= distance_squared(target, rgb_of_hex(codes[among[j] as int])->0)
    &&& forall|j: int|
        0 <= j < at && rgb_of_hex(codes[#[trigger] among[j] as int]) is Some ==> distance_squared(
            target,
            rgb_of_hex(codes[among[at] as int])->0,
        ) < distance_squared(target, rgb_of_hex(codes[among[j] as int])->0)
}

/// No position in `among` has a hex code that spells a colour.
pub open spec fn none_spelled(codes: Seq<Seq<char>>, among: Seq<usize>) -> bool {
    forall|j: int| 0 <= j < among.len() ==> rgb_of_hex(codes[#[trigger] among[j] as int]) is None
}

/// The place, in `among`, of the nearest colour, with its squared distance.
pub fn nearest_among(table: &Table, among: &Vec<usize>, target: Rgb) -> (r: Option<(usize, u32)>)
    requires
        forall|j: int| 0 <= j < among.len() ==> #[trigger] among@[j] < table.codes().len(),
    ensures
        match r {
            Some((at, d)) => is_nearest(table.codes(), among@, target, at as int) && d
                == distance_squared(target, rgb_of_hex(table.codes()[among@[at as int] as int])->0),
            None => none_spelled(table.codes(), among@),
        },
{
    let ghost codes = table.codes();
    let mut best: Option<(usize, u32)> = None;
    let mut k: usize = 0;
    while k < among.len()
        invariant
            k <= among.len(),
            codes == table.codes(),
            forall|j: int| 0 <= j < among.len() ==> #[trigger] among@[j] < codes.len(),
            match best {
                Some((at, d)) => is_nearest(codes, among@.take(k as int), target, at as int) && d
                    == distance_squared(target, rgb_of_hex(codes[among@[at as int] as int])->0),
                None => none_spelled(codes, among@.take(k as int)),
            },
        decreases among.len() - k,
    {
        let ghost seen = among@.take(k as int);
        let ghost next = among@.take(k + 1);
        proof {
            assert(next =~= seen.push(among@[k as int]));
            assert(forall|j: int| 0 <= j < k ==> next[j] == seen[j]);
        }
        match rgb_from_chars(table.hex_chars(among[k]).as_slice()) {
            Some(c) => {
                let d2 = dist2(target, c);
                match best {
                    Some((at, d)) => {
                        if d2 < d {
                            proof {
                                assert forall|j: int|
                                    0 <= j < next.len() && rgb_of_hex(
                                        codes[#[trigger] next[j] as int],
                                    ) is Some implies distance_squared(target, c)
                                    <= distance_squared(
                                    target,
                                    rgb_of_hex(codes[next[j] as int])->0,
                                ) by {
                                    if j < k {
                                        assert(seen[j] == next[j]);
                                    }
                                }
                                assert forall|j: int|
                                    0 <= j < k && rgb_of_hex(
                                        codes[#[trigger] next[j] as int],
                                    ) is Some implies distance_squared(target, c)
                                    < distance_squared(
                                    target,
                                    rgb_of_hex(codes[next[j] as int])->0,
                                ) by {
                                    assert(seen[j] == next[j]);
                                }
                            }
                            best = Some((k, d2));
                        } else {
                            proof {
                                assert(is_nearest(codes, next, target, at as int)) by {
                                    assert forall|j: int|
                                        0 <= j < next.len() && rgb_of_hex(
                                            codes[#[trigger] next[j] as int],
                                        ) is Some implies distance_squared(
                                        target,
                                        rgb_of_hex(codes[next[at as int] as int])->0,
                                    ) <= distance_squared(
                                        target,
                                        rgb_of_hex(codes[next[j] as int])->0,
                                    ) by {
                                        if j < k {
                                            assert(seen[j] == next[j]);
                                        }
                                    }
                                    assert forall|j: int|
                                        0 <= j < at && rgb_of_hex(
                                            codes[#[trigger] next[j] as int],
                                        ) is Some implies distance_squared(
                                        target,
                                        rgb_of_hex(codes[next[at as int] as int])->0,
                                    ) < distance_squared(
                                        target,
                                        rgb_of_hex(codes[next[j] as int])->0,
                                    ) by {
                                        assert(seen[j] == next[j]);
                                    }
                                }
                            }
                        }
                    },
                    None => {
                        proof {
                            assert forall|j: int|
                                0 <= j < next.len() && rgb_of_hex(
                                    codes[#[trigger] next[j] as int],
                                ) is Some implies distance_squared(target, c) <= distance_squared(
                                target,
                                rgb_of_hex(codes[next[j] as int])->0,
                            ) by {
                                if j < k {
                                    assert(seen[j] == next[j]);
                                }
                            }
                            assert forall|j: int|
                                0 <= j < k && rgb_of_hex(
                                    codes[#[trigger] next[j] as int],
                                ) is Some implies false by {
                                assert(seen[j] == next[j]);
                            }
                        }
                        best = Some((k, d2));
                    },
                }
            },
            None => {
                proof {
                    match best {
                        Some((at, d)) => {
                            assert(is_nearest(codes, next, target, at as int)) by {
                                assert forall|j: int|
                                    0 <= j < next.len() && rgb_of_hex(
                                        codes[#[trigger] next[j] as int],
                                    ) is Some implies distance_squared(
                                    target,
                                    rgb_of_hex(codes[next[at as int] as int])->0,
                                ) <= distance_squared(
                                    target,
                                    rgb_of_hex(codes[next[j] as int])->0,
                                ) by {
                                    if j < k {
                                        assert(seen[j] == next[j]);
                                    }
                                }
                                assert forall|j: int|
                                    0 <= j < at && rgb_of_hex(
                                        codes[#[trigger] next[j] as int],
                                    ) is Some implies distance_squared(
                                    target,
                                    rgb_of_hex(codes[next[at as int] as int])->0,
                                ) < distance_squared(
                                    target,
                                    rgb_of_hex(codes[next[j] as int])->0,
                                ) by {
                                    assert(seen[j] == next[j]);
                                }
                            }
                        },
                        None => {
                            assert forall|j: int| 0 <= j < next.len() implies rgb_of_hex(
                                codes[#[trigger] next[j] as int],
                            ) is None by {
                                if j < k {
                                    assert(seen[j] == next[j]);
                                }
                            }
                        },
                    }
                }
            },
        }
        k += 1;
    }
    proof {
        assert(among@.take(among.len() as int) =~= among@);
    }
    best
}

/// At most one position is the nearest.
pub proof fn lemma_nearest_unique(
    codes: Seq<Seq<char>>,
    among: Seq<usize>,
    target: Rgb,
    a: int,
    b: int,
)
    requires
        is_nearest(codes, among, target, a),
        is_nearest(codes, among, target, b),
    ensures
        a == b,
{
    if a < b {
        assert(rgb_of_hex(codes[among[a] as int]) is Some);
    } else if b < a {
        assert(rgb_of_hex(codes[among[b] as int]) is Some);
    }
}

/// What a nearest colour is reported as: name, hex code and squared
/// distance of the entry at the nearest position, or `unknown`, black and
/// the greatest distance where no hex code of the table spells a colour.
pub open spec fn nearest_report(
    entries: Seq<(HexCode, ColorName)>,
    among: Seq<usize>,
    target: Rgb,
    r: (Seq<char>, Seq<char>, u32),
) -> bool {
    let codes = hexes_of(entries);
    if none_spelled(codes, among) {
        r == ("unknown"@, "#000000"@, u32::MAX)
    } else {
        exists|at: int| #[trigger]
            is_nearest(codes, among, target, at) && r == (
                entries[among[at] as int].1@,
                entries[among[at] as int].0@,
                distance_squared(target, rgb_of_hex(codes[among[at] as int])->0) as u32,
            )
    }
}

fn report_nearest(
    entries: &[(HexCode, ColorName)],
    table: &Table,
    among: &Vec<usize>,
    target: Rgb,
) -> (r: (&'static str, &'static str, u32))
    requires
        table.codes() == hexes_of(entries@),
        table.names() == names_of(entries@),
        forall|j: int| 0 <= j < among.len() ==> #[trigger] among@[j] < entries.len(),
    ensures
        nearest_report(entries@, among@, target, (r.0@, r.1@, r.2)),
{
    proof {
        assert(hexes_of(entries@).len() == entries@.len());
    }
    match nearest_among(table, among, target) {
        Some((at, d)) => {
            let e = &entries[among[at]];
            proof {
                let codes = hexes_of(entries@);
                assert(!none_spelled(codes, among@)) by {
                    assert(rgb_of_hex(codes[among@[at as int] as int]) is Some);
                }
                assert(is_nearest(codes, among@, target, at as int));
            }
            (e.1.as_str(), e.0.as_str(), d)
        },
        None => ("unknown", "#000000", u32::MAX),
    }
}

/// The entry of the CSS table that is nearest to a colour given as text:
/// its name, its hex code and the squared distance.
pub fn nearest_css_color(reg: &Registry, hex_or_norm: &str) -> (r: (&'static str, &'static str, u32))
    ensures
        nearest_report(
            table_of(reg@, Origin::Css),
            all_positions(table_of(reg@, Origin::Css).len()),
            target_of(hex_or_norm@),
            (r.0@, r.1@, r.2),
        ),
{
    let target = target_color(hex_or_norm);
    let entries = reg.entries(Origin::Css);
    let table = reg.table(Origin::Css);
    let among = positions_upto(entries.len());
    report_nearest(entries, table, &among, target)
}

/// The hex code says that the red channel is zero.
pub open spec fn red_is_zero(code: Seq<char>) -> bool {
    code.len() >= 3 && code[1] == '0' && code[2] == '0'
}

/// The positions of all entries whose red channel is zero, ascending.
pub open spec fn red_zero_positions(cats: Seq<crate::catalog::ColorCatalog>) -> Seq<usize> {
    let codes = hexes_of(combined_of(cats));
    positions_where(codes.len(), |i: int| red_is_zero(codes[i]))
}

fn red_zero(reg: &Registry) -> (r: Vec<usize>)
    ensures
        r@ == red_zero_positions(reg@),
        forall|j: int| 0 <= j < r.len() ==> #[trigger] r@[j] < combined_of(reg@).len(),
{
    let table = reg.table(Origin::All);
    let ghost codes = table.codes();
    let n = table.len();
    proof {
        assert(hexes_of(combined_of(reg@)).len() == combined_of(reg@).len());
    }
    let mut out: Vec<usize> = Vec::new();
    let mut i: usize = 0;
    while i < n
        invariant
            i <= n,
            n == codes.len(),
            codes == table.codes(),
            strictly_increasing(out@),
            forall|k: int| 0 <= k < out.len() ==> #[trigger] out@[k] < i,
            forall|x: usize| #[trigger] out@.contains(x) <==> (x < i && red_is_zero(codes[x as int])),
        decreases n - i,
    {
        let code = table.hex_chars(i);
        let ghost prev = out@;
        let zero = code.len() >= 3 && code[1] == '0' && code[2] == '0';
        proof {
            assert(zero == red_is_zero(codes[i as int]));
        }
        if zero {
            out.push(i);
            proof {
                lemma_push_members(prev, i);
            }
        }
        proof {
            assert forall|x: usize| #[trigger] out@.contains(x) <==> (x < i + 1 && red_is_zero(
                codes[x as int],
            )) by {
                assert(prev.contains(x) <==> (x < i && red_is_zero(codes[x as int])));
            }
        }
        i += 1;
    }
    proof {
        lemma_positions_where_unique(out@, codes.len(), |k: int| red_is_zero(codes[k]));
    }
    out
}

/// All entries whose red channel is zero, in the order of the combined
/// table: those whose hex code has `00` right after its first character.
pub fn r_eq_00_names(reg: &Registry) -> (r: Vec<(HexCode, ColorName)>)
    ensures
        r@ == entries_at(combined_of(reg@), red_zero_positions(reg@)),
{
    let among = red_zero(reg);
    entries_for(reg.entries(Origin::All), &among)
}

/// The entry nearest to a colour given as text among those whose red
/// channel is zero: its name, its hex code and the squared distance.
pub fn nearest_name_r_eq_00(reg: &Registry, hex_or_norm: &str) -> (r: (
    &'static str,
    &'static str,
    u32,
))
    ensures
        nearest_report(
            combined_of(reg@),
            red_zero_positions(reg@),
            target_of(hex_or_norm@),
            (r.0@, r.1@, r.2),
        ),
{
    let target = target_color(hex_or_norm);
    let entries = reg.entries(Origin::All);
    let table = reg.table(Origin::All);
    let among = red_zero(reg);
    report_nearest(entries, table, &among, target)
}

/// What the name of a nearest colour is reported as.
pub open spec fn nearest_name(
    entries: Seq<(HexCode, ColorName)>,
    target: Rgb,
    r: Option<Seq<char>>,
) -> bool {
    let codes = hexes_of(entries);
    let among = all_positions(entries.len());
    if none_spelled(codes, among) {
        r is None
    } else {
        exists|at: int| #[trigger]
            is_nearest(codes, among, target, at) && r == Some(entries[among[at] as int].1@)
    }
}

/// The name of the entry of an origin that is nearest to a colour; `None`
/// where no hex code of the origin spells a colour.
pub fn closest_color_name_in(reg: &Registry, origin: Origin, rgb: Rgb) -> (r: Option<&'static str>)
    ensures
        nearest_name(table_of(reg@, origin), rgb, static_text(r)),
{
    let entries = reg.entries(origin);
    let table = reg.table(origin);
    let among = positions_upto(entries.len());
    proof {
        assert(hexes_of(entries@).len() == entries@.len());
    }
    match nearest_among(table, &among, rgb) {
        Some((at, d)) => {
            proof {
                let codes = hexes_of(entries@);
                assert(!none_spelled(codes, among@)) by {
                    assert(rgb_of_hex(codes[among@[at as int] as int]) is Some);
                }
                assert(is_nearest(codes, among@, rgb, at as int));
            }
            Some(entries[among[at]].1.as_str())
        },
        None => None,
    }
}

/// The name of the entry, among all, that is nearest to a colour; `None`
/// where no hex code spells a colour.
pub fn find_closest_color_name(reg: &Registry, rgb: Rgb) -> (r: Option<&'static str>)
    ensures
        nearest_name(combined_of(reg@), rgb, static_text(r)),
{
    closest_color_name_in(reg, Origin::All, rgb)
}

/// The name of the entry nearest to a colour.
pub fn get_closest_color_name_from_rgb(reg: &Registry, rgb: Rgb) -> (r: Option<&'static str>)
    ensures
        nearest_name(combined_of(reg@), rgb, static_text(r)),
{
    find_closest_color_name(reg, rgb)
}

/// The name of the entry nearest to the colour that `#RRGGBB` spells;
/// `None` where the text spells no colour.
pub fn get_closest_color_name_from_hex(reg: &Registry, hex: &str) -> (r: Option<&'static str>)
    ensures
        match rgb_of_hex(hex@) {
            Some(rgb) => nearest_name(combined_of(reg@), rgb, static_text(r)),
            None => r is None,
        },
{
    match hex_to_rgb(hex) {
        Some(rgb) => find_closest_color_name(reg, rgb),
        None => None,
    }
}

} // verus!
