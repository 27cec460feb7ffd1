//! What a picker shows for a query: the names of an origin filtered and
//! ranked, the entries of a dropdown, and the entry that is offered first.

use vstd::prelude::*;
use crate::catalog::{ColorCatalog, combined_of, Registry, table_of};
use crate::color_types::{
    ColorName, convert_to_legacy_format, HexCode, names_of, pair_texts, table_texts,
};
use crate::lookup::{
    first_like, first_position_like, lemma_first_position_like, static_text, text_at,
};
use crate::names::{build_rank_map, build_sorted_names, rank_in, sorted_names, static_texts};
use crate::origin::{heavy, HEAVY_MIN_QUERY, is_heavy_origin, Origin};
use crate::ranking::entries_at;
use crate::search::{
    search_in_origin, search_results, search_substring, search_tokens_any, substring_positions,
    token_positions, TokenMode,
};
use crate::sorting::{
    Key, key_views, lemma_sorted_positions, sort_positions, sorted_positions, SortKey,
};
use crate::text::{
    chars_eq_ignore_ascii_case, chars_of, lowercase, string_of, trim, trimmed, unicode_lowercase,
};
use crate::tokens::SUBSTRING_THRESHOLD;

verus! {

/// A query with a space in it asks for all of its words, any other for any.
pub open spec fn mode_for(q: Seq<char>) -> TokenMode {
    if q.contains(' ') {
        TokenMode::All
    } else {
        TokenMode::Any
    }
}

/// The mode in which a picker searches for a trimmed query.
pub fn query_mode(q: &[char]) -> (m: TokenMode)
    ensures
        m == mode_for(q@),
{
    let mut i: usize = 0;
    while i < q.len()
        invariant
            i <= q.len(),
            forall|k: int| 0 <= k < i ==> q@[k] != ' ',
        decreases q.len() - i,
    {
        if q[i] == ' ' {
            return TokenMode::All;
        }
        i += 1;
    }
    TokenMode::Any
}

/// What a found name is ordered by: its rank among the names of its origin,
/// and the greatest number where it has none.
pub open spec fn rank_key(ranks: Seq<Seq<char>>, name: Seq<char>) -> Key {
    (
        match rank_in(ranks, name) {
            Some(k) => k as u64,
            None => usize::MAX as u64,
        },
        0,
        seq![],
    )
}

/// The keys of the found names, in their order.
pub open spec fn rank_keys(ranks: Seq<Seq<char>>, names: Seq<Seq<char>>) -> Seq<Key> {
    names.map_values(|n: Seq<char>| rank_key(ranks, n))
}

/// The texts at the given positions, in the order of the positions.
pub open spec fn texts_at(names: Seq<Seq<char>>, order: Seq<usize>) -> Seq<Seq<char>> {
    order.map_values(|p: usize| names[p as int])
}

/// The names that a picker lists for an origin and a search text: none
/// while a heavy origin has too short a query, all names in alphabetical
/// order while the query is empty, and else the names of the entries found,
/// in the order of their ranks.
pub open spec fn filtered_names(
    cats: Seq<ColorCatalog>,
    origin: Origin,
    search: Seq<char>,
    limit: usize,
) -> Seq<Seq<char>> {
    let q = trimmed(search);
    if heavy(origin) && q.len() < HEAVY_MIN_QUERY {
        seq![]
    } else if q.len() == 0 {
        sorted_names(cats, origin)
    } else {
        let hits = names_of(search_results(cats, origin, q, mode_for(q), limit));
        texts_at(hits, sorted_positions(rank_keys(sorted_names(cats, origin), hits), hits.len()))
    }
}

/// The names that a picker lists for an origin and a search text.
pub fn filtered_names_for_origin(reg: &Registry, origin: Origin, search: &str) -> (r: Vec<
    &'static str,
>)
    ensures
        static_texts(r@) == filtered_names(reg@, origin, search@, reg.limit()),
{
    let cs = chars_of(search);
    let q = trim(cs.as_slice());
    if is_heavy_origin(origin) && q.len() < HEAVY_MIN_QUERY {
        let r: Vec<&'static str> = Vec::new();
        proof {
            assert(static_texts(r@) =~= Seq::<Seq<char>>::empty());
        }
        return r;
    }
    if q.len() == 0 {
        return build_sorted_names(reg, origin);
    }
    let mode = query_mode(q.as_slice());
    let qs = string_of(q.as_slice());
    let found = search_in_origin(reg, origin, qs.as_str(), mode);
    let sorted = build_sorted_names(reg, origin);
    let ranks = build_rank_map(sorted.as_slice());
    let ghost hits = names_of(found@);
    let ghost want = rank_keys(ranks@, hits);
    let mut keys: Vec<SortKey> = Vec::new();
    let mut i: usize = 0;
    while i < found.len()
        invariant
            i <= found.len(),
            hits == names_of(found@),
            want == rank_keys(ranks@, hits),
            keys.len() == i,
            forall|k: int| 0 <= k < i ==> (#[trigger] keys@[k])@ == want[k],
        decreases found.len() - i,
    {
        let rank = match ranks.get(found[i].1.as_str()) {
            Some(k) => k as u64,
            None => usize::MAX as u64,
        };
        proof {
            assert(hits[i as int] == found@[i as int].1@);
        }
        keys.push(SortKey { major: rank, minor: 0, text: Vec::new() });
        i += 1;
    }
    proof {
        assert(key_views(keys@) =~= want);
        lemma_sorted_positions(want, hits.len());
    }
    let order = sort_positions(&keys);
    let mut out: Vec<&'static str> = Vec::new();
    let mut k: usize = 0;
    while k < order.len()
        invariant
            k <= order.len(),
            hits == names_of(found@),
            order.len() == found.len(),
            forall|x: usize| #[trigger] order@.contains(x) <==> x < found.len(),
            static_texts(out@) == texts_at(hits, order@.take(k as int)),
            out.len() == k,
        decreases order.len() - k,
    {
        proof {
            assert(order@.contains(order@[k as int]));
        }
        let ghost before = out@;
        out.push(found[order[k]].1.as_str());
        proof {
            assert(order@.take(k + 1) =~= order@.take(k as int).push(order@[k as int]));
            let a = static_texts(out@);
            let b = texts_at(hits, order@.take(k + 1));
            assert(a.len() == b.len());
            assert forall|j: int| 0 <= j < a.len() implies a[j] == b[j] by {
                if j < k {
                    assert(a[j] == static_texts(before)[j]);
                    assert(texts_at(hits, order@.take(k as int))[j] == b[j]);
                } else {
                    assert(hits[order@[k as int] as int] == found@[order@[k as int] as int].1@);
                }
            }
            assert(a =~= b);
        }
        k += 1;
    }
    proof {
        assert(order@.take(order.len() as int) =~= order@);
    }
    out
}

/// The listed name that is the current selection up to the case of ASCII
/// letters: the first such name, and none where nothing is selected.
pub open spec fn retained(current: Option<Seq<char>>, names: Seq<Seq<char>>) -> Option<Seq<char>> {
    match current {
        Some(cur) => text_at(names, first_position_like(names, cur, 0)),
        None => None,
    }
}

/// What an optional string slice holds, as text.
pub open spec fn slice_text(r: Option<&str>) -> Option<Seq<char>> {
    match r {
        Some(s) => Some(s@),
        None => None,
    }
}

/// Keeps the selection where it is still among the listed names.
pub fn retain_selection(current: Option<&str>, names: &[&'static str]) -> (r: Option<&'static str>)
    ensures
        static_text(r) == retained(slice_text(current), static_texts(names@)),
{
    let cur = match current {
        Some(c) => chars_of(c),
        None => {
            return None;
        },
    };
    let ghost all = static_texts(names@);
    let mut k: usize = 0;
    while k < names.len()
        invariant
            k <= names.len(),
            all == static_texts(names@),
            slice_text(current) == Some(cur@),
            first_position_like(all, cur@, 0) == first_position_like(all, cur@, k as int),
        decreases names.len() - k,
    {
        let name = chars_of(names[k]);
        proof {
            assert(all[k as int] == names@[k as int]@);
        }
        if chars_eq_ignore_ascii_case(name.as_slice(), cur.as_slice()) {
            return Some(names[k]);
        }
        k += 1;
    }
    None
}

/// An entry as a pair of texts, hex code first.
pub open spec fn entry_text(e: (HexCode, ColorName)) -> (Seq<char>, Seq<char>) {
    (e.0@, e.1@)
}

/// What an optional pair of static strings holds, as texts.
pub open spec fn pair_text(r: Option<(&'static str, &'static str)>) -> Option<
    (Seq<char>, Seq<char>),
> {
    match r {
        Some(p) => Some((p.0@, p.1@)),
        None => None,
    }
}

/// The first entry of a list as a pair of texts.
pub open spec fn first_text(es: Seq<(HexCode, ColorName)>) -> Option<(Seq<char>, Seq<char>)> {
    if es.len() > 0 {
        Some(entry_text(es[0]))
    } else {
        None
    }
}

/// The first entry of the first catalogue of `Css` whose name is the text
/// up to the case of ASCII letters.
pub open spec fn css_match(cats: Seq<ColorCatalog>, name_lc: Seq<char>) -> Option<
    (Seq<char>, Seq<char>),
> {
    let css = table_of(cats, Origin::Css);
    let k = first_position_like(names_of(css), name_lc, 0);
    if k < css.len() {
        Some(entry_text(css[k]))
    } else {
        None
    }
}

/// The CSS colour of this name, up to the case of ASCII letters.
pub fn css_exact_match(reg: &Registry, name_lc: &str) -> (r: Option<(&'static str, &'static str)>)
    ensures
        pair_text(r) == css_match(reg@, name_lc@),
{
    let wanted = chars_of(name_lc);
    let table = reg.table(Origin::Css);
    let entries = reg.entries(Origin::Css);
    proof {
        lemma_first_position_like(table.names(), wanted@, 0);
        assert(names_of(entries@).len() == entries@.len());
    }
    match first_like(table, wanted.as_slice(), false) {
        Some(k) => Some((entries[k].0.as_str(), entries[k].1.as_str())),
        None => None,
    }
}

/// The entry that a picker offers first for a query: nothing for an empty
/// query; for `All` the CSS colour of that name, else the first entry whose
/// name holds the query, else the first with one of its tokens; for any
/// other origin the first entry that a search in mode `Any` finds.
pub open spec fn first_choice(
    cats: Seq<ColorCatalog>,
    origin: Origin,
    query: Seq<char>,
    limit: usize,
) -> Option<(Seq<char>, Seq<char>)> {
    let q = trimmed(query);
    if q.len() == 0 {
        None
    } else if origin == Origin::All {
        if css_match(cats, unicode_lowercase(q)) is Some {
            css_match(cats, unicode_lowercase(q))
        } else if substring_positions(cats, q, limit).len() > 0 {
            first_text(entries_at(combined_of(cats), substring_positions(cats, q, limit)))
        } else {
            first_text(entries_at(combined_of(cats), token_positions(cats, q, false, limit)))
        }
    } else {
        first_text(search_results(cats, origin, q, TokenMode::Any, limit))
    }
}

fn first_pair(es: &Vec<(HexCode, ColorName)>) -> (r: Option<(&'static str, &'static str)>)
    ensures
        pair_text(r) == first_text(es@),
{
    if es.len() > 0 {
        Some((es[0].0.as_str(), es[0].1.as_str()))
    } else {
        None
    }
}

/// The entry that a picker offers first for a query.
pub fn best_first_for_ui(reg: &Registry, origin: Origin, query: &str) -> (r: Option<
    (&'static str, &'static str),
>)
    ensures
        pair_text(r) == first_choice(reg@, origin, query@, reg.limit()),
{
    let cs = chars_of(query);
    let q = trim(cs.as_slice());
    if q.len() == 0 {
        return None;
    }
    let qs = string_of(q.as_slice());
    if origin == Origin::All {
        let qlc = lowercase(q.as_slice());
        let qlcs = string_of(qlc.as_slice());
        let exact = css_exact_match(reg, qlcs.as_str());
        if exact.is_some() {
            return exact;
        }
        let v = search_substring(reg, qs.as_str());
        proof {
            assert(entries_at(combined_of(reg@), substring_positions(reg@, q@, reg.limit())).len()
                == substring_positions(reg@, q@, reg.limit()).len());
        }
        if v.len() > 0 {
            return first_pair(&v);
        }
        let v2 = search_tokens_any(reg, qs.as_str());
        first_pair(&v2)
    } else {
        let v = search_in_origin(reg, origin, qs.as_str(), TokenMode::Any);
        first_pair(&v)
    }
}

/// The entries that a dropdown lists for a query: none for an empty query;
/// for `All` the entries whose name holds a query of fewer than three
/// characters, or those with a token of a longer one; for any other origin
/// what a search in mode `Any` finds.
pub open spec fn dropdown_results(
    cats: Seq<ColorCatalog>,
    origin: Origin,
    query: Seq<char>,
    limit: usize,
) -> Seq<(HexCode, ColorName)> {
    let q = trimmed(query);
    if q.len() == 0 {
        seq![]
    } else if origin == Origin::All {
        if q.len() < SUBSTRING_THRESHOLD {
            entries_at(combined_of(cats), substring_positions(cats, q, limit))
        } else {
            entries_at(combined_of(cats), token_positions(cats, q, false, limit))
        }
    } else {
        search_results(cats, origin, q, TokenMode::Any, limit)
    }
}

/// The entries that a dropdown lists for a query, as pairs of hex code and
/// name.
pub fn dropdown_results_for_ui(reg: &Registry, origin: Origin, query: &str) -> (r: Vec<
    (&'static str, &'static str),
>)
    ensures
        pair_texts(r@) == table_texts(dropdown_results(reg@, origin, query@, reg.limit())),
{
    let cs = chars_of(query);
    let q = trim(cs.as_slice());
    if q.len() == 0 {
        let r: Vec<(&'static str, &'static str)> = Vec::new();
        proof {
            assert(pair_texts(r@) =~= table_texts(Seq::<(HexCode, ColorName)>::empty()));
        }
        return r;
    }
    let qs = string_of(q.as_slice());
    let results = if origin == Origin::All {
        if q.len() < SUBSTRING_THRESHOLD {
            search_substring(reg, qs.as_str())
        } else {
            search_tokens_any(reg, qs.as_str())
        }
    } else {
        search_in_origin(reg, origin, qs.as_str(), TokenMode::Any)
    };
    convert_to_legacy_format(results.as_slice())
}

} // verus!
