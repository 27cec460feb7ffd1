//! The order in which the entries of all origins together are shown: exact
//! matches of the query first, then by the priority of the origin, then by
//! name.

use vstd::prelude::*;
use crate::catalog::{ColorCatalog, combined_of, origin_priority, priority_scan, Registry};
use crate::color_types::{ColorName, HexCode, hexes_of, names_of};
use crate::origin::Origin;
use crate::sorting::{
    Key, key_views, lemma_sorted_positions, sort_positions, sorted_positions, SortKey,
};
use crate::text::{chars_eq, chars_of, lowercase, slice_of, unicode_lowercase};

verus! {

/// 0 where the lowercase name is the lowercase query, else 1. Name and
/// query are lowered in one way, as the standard library lowers a text.
pub open spec fn exact_flag(name: Seq<char>, query_lc: Seq<char>) -> u64 {
    if unicode_lowercase(name) == query_lc {
        0
    } else {
        1
    }
}

/// The priority of a colour in three groups: the first catalogue, the
/// second, and all others.
pub open spec fn group_priority(cats: Seq<ColorCatalog>, hex: Seq<char>, name: Seq<char>) -> int {
    if origin_priority(cats, hex, name) < 2 {
        origin_priority(cats, hex, name)
    } else {
        2
    }
}

/// What an entry is ranked by: exact match, origin priority, lowercase name.
pub open spec fn rank_key(cats: Seq<ColorCatalog>, query_lc: Seq<char>, e: (HexCode, ColorName)) -> Key {
    (
        exact_flag(e.1@, query_lc),
        origin_priority(cats, e.0@, e.1@) as u64,
        unicode_lowercase(e.1@),
    )
}

/// The rank keys of the entries, in their order.
pub open spec fn rank_keys(
    cats: Seq<ColorCatalog>,
    query_lc: Seq<char>,
    es: Seq<(HexCode, ColorName)>,
) -> Seq<Key> {
    es.map_values(|e: (HexCode, ColorName)| rank_key(cats, query_lc, e))
}

/// The entries at the given positions, in the order of the positions.
pub open spec fn entries_at(es: Seq<(HexCode, ColorName)>, order: Seq<usize>) -> Seq<
    (HexCode, ColorName),
> {
    order.map_values(|p: usize| es[p as int])
}

/// The positions at the given places, in the order of the places.
pub open spec fn positions_at(positions: Seq<usize>, order: Seq<usize>) -> Seq<usize> {
    order.map_values(|p: usize| positions[p as int])
}

/// The entries ranked: exact matches first, then by origin priority, then
/// by lowercase name; entries that agree in all three keep their order.
pub open spec fn best_first(
    cats: Seq<ColorCatalog>,
    query_lc: Seq<char>,
    es: Seq<(HexCode, ColorName)>,
) -> Seq<(HexCode, ColorName)> {
    entries_at(es, sorted_positions(rank_keys(cats, query_lc, es), es.len()))
}

/// The priority of an origin for a colour: the position of the first
/// catalogue that holds the pair, and the number of catalogues where none
/// does.
pub fn origin_priority_of(reg: &Registry, hex: &str, name: &str) -> (r: usize)
    ensures
        r == origin_priority(reg@, hex@, name@),
        r <= reg@.len(),
{
    let h = chars_of(hex);
    let n = chars_of(name);
    priority_scan(reg.tables(), h.as_slice(), n.as_slice(), Ghost(reg@))
}

/// The coarse priority of a colour: 0 for the first catalogue, 1 for the
/// second, 2 for every other.
pub fn origin_group_priority(reg: &Registry, hex: &str, name: &str) -> (r: u8)
    ensures
        r == group_priority(reg@, hex@, name@),
{
    let p = origin_priority_of(reg, hex, name);
    if p < 2 {
        p as u8
    } else {
        2
    }
}

/// Whether the lowercase form of a name is the lowercase query.
pub fn is_exact_ci(name: &[char], query_lc: &[char]) -> (r: bool)
    ensures
        r == (exact_flag(name@, query_lc@) == 0),
{
    let lc = lowercase(name);
    chars_eq(lc.as_slice(), query_lc)
}

fn rank_key_of(reg: &Registry, query_lc: &[char], e: &(HexCode, ColorName)) -> (k: SortKey)
    ensures
        k@ == rank_key(reg@, query_lc@, *e),
{
    let name = chars_of(e.1.as_str());
    let hex = chars_of(e.0.as_str());
    let lc = lowercase(name.as_slice());
    let exact: u64 = if chars_eq(lc.as_slice(), query_lc) {
        0
    } else {
        1
    };
    let p = priority_scan(reg.tables(), hex.as_slice(), name.as_slice(), Ghost(reg@));
    SortKey { major: exact, minor: p as u64, text: lc }
}

fn sort_entries(reg: &Registry, query_lc: &str, out: &mut Vec<(HexCode, ColorName)>)
    ensures
        final(out)@ == best_first(reg@, query_lc@, old(out)@),
{
    let q = chars_of(query_lc);
    let ghost es = out@;
    let ghost want = rank_keys(reg@, query_lc@, es);
    let mut keys: Vec<SortKey> = Vec::new();
    let mut i: usize = 0;
    while i < out.len()
        invariant
            i <= out.len(),
            out@ == es,
            q@ == query_lc@,
            keys.len() == i,
            want == rank_keys(reg@, query_lc@, es),
            forall|k: int| 0 <= k < i ==> (#[trigger] keys@[k])@ == want[k],
        decreases out.len() - i,
    {
        let key = rank_key_of(reg, q.as_slice(), &out[i]);
        keys.push(key);
        i += 1;
    }
    proof {
        assert(key_views(keys@) =~= want);
        lemma_sorted_positions(want, es.len());
    }
    let order = sort_positions(&keys);
    let mut sorted: Vec<(HexCode, ColorName)> = Vec::new();
    let mut k: usize = 0;
    while k < order.len()
        invariant
            k <= order.len(),
            out@ == es,
            order@ == sorted_positions(want, es.len()),
            order.len() == es.len(),
            forall|x: usize| #[trigger] order@.contains(x) <==> x < es.len(),
            sorted@ == entries_at(es, order@.take(k as int)),
        decreases order.len() - k,
    {
        proof {
            assert(order@.contains(order@[k as int]));
        }
        sorted.push(out[order[k]]);
        proof {
            assert(order@.take(k + 1) =~= order@.take(k as int).push(order@[k as int]));
            assert(sorted@ =~= entries_at(es, order@.take(k + 1)));
        }
        k += 1;
    }
    proof {
        assert(order@.take(order.len() as int) =~= order@);
    }
    *out = sorted;
}

/// Ranks the entries in place: exact matches of the lowercase query first,
/// then by origin priority, then by lowercase name.
pub fn sort_results_for_all(reg: &Registry, query_lc: &str, out: &mut Vec<(HexCode, ColorName)>)
    ensures
        final(out)@ == best_first(reg@, query_lc@, old(out)@),
{
    sort_entries(reg, query_lc, out)
}

/// Orders the entries of a dropdown in place, as a search among all
/// origins orders them: exact matches of the lowercase query first, then
/// by origin priority, then by lowercase name.
pub fn sort_dropdown_by_origin(reg: &Registry, query_lc: &str, out: &mut Vec<(HexCode, ColorName)>)
    ensures
        final(out)@ == best_first(reg@, query_lc@, old(out)@),
{
    sort_entries(reg, query_lc, out)
}

fn copy_chars(cs: &Vec<char>) -> (r: Vec<char>)
    ensures
        r@ == cs@,
{
    let r = slice_of(cs.as_slice(), 0, cs.len());
    proof {
        assert(cs@.subrange(0, cs@.len() as int) =~= cs@);
    }
    r
}

/// The positions of the combined table ranked: `best_first`, told of
/// positions instead of entries.
pub open spec fn ranked_positions(
    cats: Seq<ColorCatalog>,
    query_lc: Seq<char>,
    positions: Seq<usize>,
) -> Seq<usize> {
    positions_at(
        positions,
        sorted_positions(
            rank_keys(cats, query_lc, entries_at(combined_of(cats), positions)),
            positions.len(),
        ),
    )
}

/// Ranks positions of the combined table.
pub fn rank_positions(reg: &Registry, query_lc: &[char], positions: &Vec<usize>) -> (r: Vec<usize>)
    requires
        forall|k: int| 0 <= k < positions.len() ==> #[trigger] positions@[k] < combined_of(reg@).len(),
    ensures
        r@ == ranked_positions(reg@, query_lc@, positions@),
        r.len() == positions.len(),
        forall|k: int| 0 <= k < r.len() ==> #[trigger] r@[k] < combined_of(reg@).len(),
{
    let table = reg.table(Origin::All);
    let ghost all = combined_of(reg@);
    let ghost es = entries_at(all, positions@);
    let ghost want = rank_keys(reg@, query_lc@, es);
    let mut keys: Vec<SortKey> = Vec::new();
    let mut i: usize = 0;
    while i < positions.len()
        invariant
            i <= positions.len(),
            all == combined_of(reg@),
            table.names() == names_of(all),
            table.codes() == hexes_of(all),
            es == entries_at(all, positions@),
            want == rank_keys(reg@, query_lc@, es),
            forall|k: int| 0 <= k < positions.len() ==> #[trigger] positions@[k] < all.len(),
            keys.len() == i,
            forall|k: int| 0 <= k < i ==> (#[trigger] keys@[k])@ == want[k],
        decreases positions.len() - i,
    {
        let c = positions[i];
        let lc = copy_chars(table.lower_name(c));
        let exact: u64 = if chars_eq(lc.as_slice(), query_lc) {
            0
        } else {
            1
        };
        let p = reg.priority_at(c);
        proof {
            assert(es[i as int] == all[c as int]);
            assert(names_of(all)[c as int] == all[c as int].1@);
        }
        keys.push(SortKey { major: exact, minor: p as u64, text: lc });
        i += 1;
    }
    proof {
        assert(key_views(keys@) =~= want);
        lemma_sorted_positions(want, positions@.len());
    }
    let order = sort_positions(&keys);
    let mut out: Vec<usize> = Vec::new();
    let mut k: usize = 0;
    while k < order.len()
        invariant
            k <= order.len(),
            order.len() == positions.len(),
            forall|x: usize| #[trigger] order@.contains(x) <==> x < positions.len(),
            forall|j: int| 0 <= j < positions.len() ==> #[trigger] positions@[j] < all.len(),
            out@ == positions_at(positions@, order@.take(k as int)),
        decreases order.len() - k,
    {
        proof {
            assert(order@.contains(order@[k as int]));
        }
        out.push(positions[order[k]]);
        proof {
            assert(order@.take(k + 1) =~= order@.take(k as int).push(order@[k as int]));
            assert(out@ =~= positions_at(positions@, order@.take(k + 1)));
        }
        k += 1;
    }
    proof {
        assert(order@.take(order.len() as int) =~= order@);
        assert forall|j: int| 0 <= j < out.len() implies #[trigger] out@[j] < all.len() by {
            assert(order@.contains(order@[j]));
        }
    }
    out
}

} // verus!
