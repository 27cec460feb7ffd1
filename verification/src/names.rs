//! The names of an origin in alphabetical order, and the rank of each name
//! in that order.

use vstd::prelude::*;
use crate::catalog::{ColorCatalog, Registry, table_of};
use crate::color_types::{ColorName, HexCode, names_of};
use crate::lookup::{last_position_of, lemma_last_position_of};
use crate::origin::Origin;
use crate::ranking::{entries_at, group_priority};
use crate::sorting::{
    Key, key_views, lemma_sorted_positions, sort_positions, sorted_positions, SortKey,
};
use crate::text::{ascii_lowercase, chars_eq, chars_of, to_ascii_lowercase};
use crate::tokens::texts;

verus! {

/// What a vector of static strings holds, as texts.
pub open spec fn static_texts(v: Seq<&'static str>) -> Seq<Seq<char>> {
    v.map_values(|s: &'static str| s@)
}

/// What the names of an origin are ordered by: the lowercase name, and for
/// `All` the origin group before it.
pub open spec fn name_key(cats: Seq<ColorCatalog>, origin: Origin, e: (HexCode, ColorName)) -> Key {
    (
        if origin == Origin::All {
            group_priority(cats, e.0@, e.1@) as u64
        } else {
            0
        },
        0,
        ascii_lowercase(e.1@),
    )
}

/// The keys of the entries of an origin, in the table's order.
pub open spec fn name_keys(
    cats: Seq<ColorCatalog>,
    origin: Origin,
    es: Seq<(HexCode, ColorName)>,
) -> Seq<Key> {
    es.map_values(|e: (HexCode, ColorName)| name_key(cats, origin, e))
}

/// The positions of the table of an origin in alphabetical order of the
/// lowercase names; for `All`, the positions of the first catalogue's
/// colours come first, then those of the second's, then all others.
/// Positions whose names agree keep their order.
pub open spec fn alphabetical_positions(cats: Seq<ColorCatalog>, origin: Origin) -> Seq<usize> {
    let es = table_of(cats, origin);
    sorted_positions(name_keys(cats, origin, es), es.len())
}

/// The names of an origin in alphabetical order: the names at the
/// alphabetical positions.
pub open spec fn sorted_names(cats: Seq<ColorCatalog>, origin: Origin) -> Seq<Seq<char>> {
    names_of(entries_at(table_of(cats, origin), alphabetical_positions(cats, origin)))
}

/// The positions of the table of an origin in alphabetical order of the
/// names.
pub fn sorted_name_positions(reg: &Registry, origin: Origin) -> (r: Vec<usize>)
    ensures
        r@ == alphabetical_positions(reg@, origin),
        r.len() == table_of(reg@, origin).len(),
        forall|x: usize| #[trigger] r@.contains(x) <==> x < table_of(reg@, origin).len(),
{
    let entries = reg.entries(origin);
    let ghost es = entries@;
    let ghost want = name_keys(reg@, origin, es);
    let is_all = origin == Origin::All;
    let mut keys: Vec<SortKey> = Vec::new();
    let mut i: usize = 0;
    while i < entries.len()
        invariant
            i <= entries.len(),
            es == entries@,
            es == table_of(reg@, origin),
            is_all == (origin == Origin::All),
            want == name_keys(reg@, origin, es),
            keys.len() == i,
            forall|k: int| 0 <= k < i ==> (#[trigger] keys@[k])@ == want[k],
        decreases entries.len() - i,
    {
        let name = chars_of(entries[i].1.as_str());
        let lc = to_ascii_lowercase(name.as_slice());
        let group: u64 = if is_all {
            let p = reg.priority_at(i);
            if p < 2 {
                p as u64
            } else {
                2
            }
        } else {
            0
        };
        keys.push(SortKey { major: group, minor: 0, text: lc });
        i += 1;
    }
    proof {
        assert(key_views(keys@) =~= want);
        lemma_sorted_positions(want, es.len());
    }
    sort_positions(&keys)
}

/// The names of an origin in alphabetical order.
pub fn build_sorted_names(reg: &Registry, origin: Origin) -> (r: Vec<&'static str>)
    ensures
        static_texts(r@) == sorted_names(reg@, origin),
        r.len() == table_of(reg@, origin).len(),
{
    let entries = reg.entries(origin);
    let ghost es = entries@;
    let order = sorted_name_positions(reg, origin);
    let mut out: Vec<&'static str> = Vec::new();
    let mut k: usize = 0;
    while k < order.len()
        invariant
            k <= order.len(),
            es == entries@,
            order.len() == es.len(),
            forall|x: usize| #[trigger] order@.contains(x) <==> x < es.len(),
            static_texts(out@) == names_of(entries_at(es, order@.take(k as int))),
            out.len() == k,
        decreases order.len() - k,
    {
        proof {
            assert(order@.contains(order@[k as int]));
        }
        let ghost before = out@;
        out.push(entries[order[k]].1.as_str());
        proof {
            assert(order@.take(k + 1) =~= order@.take(k as int).push(order@[k as int]));
            let a = static_texts(out@);
            let b = names_of(entries_at(es, order@.take(k + 1)));
            assert(a.len() == b.len());
            assert forall|j: int| 0 <= j < a.len() implies a[j] == b[j] by {
                if j < k {
                    assert(a[j] == static_texts(before)[j]);
                    assert(names_of(entries_at(es, order@.take(k as int)))[j] == b[j]);
                }
            }
            assert(a =~= b);
        }
        k += 1;
    }
    proof {
        assert(order@.take(order.len() as int) =~= order@);
    }
    out
}

/// The names of an origin in alphabetical order: what a picker shows while
/// the query is empty.
pub fn origin_names(reg: &Registry, origin: Origin) -> (r: Vec<&'static str>)
    ensures
        static_texts(r@) == sorted_names(reg@, origin),
        r.len() == table_of(reg@, origin).len(),
{
    build_sorted_names(reg, origin)
}

/// The rank of each name of a list: its position, and the last one where a
/// name stands more than once.
///
/// The names stand in a list that is searched from the back, which gives a
/// name the rank that a map filled in the list's order would end with.
pub struct RankTable {
    names: Vec<Vec<char>>,
}

impl View for RankTable {
    type V = Seq<Seq<char>>;

    /// The names, in the order of their ranks.
    closed spec fn view(&self) -> Seq<Seq<char>> {
        texts(self.names@)
    }
}

/// The rank of a name in a list of names, where it has one.
pub open spec fn rank_in(names: Seq<Seq<char>>, name: Seq<char>) -> Option<usize> {
    if last_position_of(names, name) >= 0 {
        Some(last_position_of(names, name) as usize)
    } else {
        None
    }
}

impl RankTable {
    /// The number of names.
    pub fn len(&self) -> (n: usize)
        ensures
            n == self@.len(),
    {
        proof {
            assert(texts(self.names@).len() == self.names@.len());
        }
        self.names.len()
    }

    /// The rank of a name given as characters.
    pub fn rank_of(&self, name: &[char]) -> (r: Option<usize>)
        ensures
            r == rank_in(self@, name@),
    {
        let ghost all = texts(self.names@);
        let mut k: usize = self.names.len();
        proof {
            assert(all.take(k as int) =~= all);
            lemma_last_position_of(all, name@);
        }
        while k > 0
            invariant
                k <= self.names.len(),
                all == texts(self.names@),
                last_position_of(all, name@) == last_position_of(all.take(k as int), name@),
            decreases k,
        {
            proof {
                assert(all.take(k as int).last() == all[k - 1]);
                assert(all.take(k as int).drop_last() =~= all.take(k - 1));
                assert(all[k - 1] == self.names@[k - 1]@);
            }
            if chars_eq(self.names[k - 1].as_slice(), name) {
                return Some(k - 1);
            }
            k -= 1;
        }
        None
    }

    /// The rank of a name.
    pub fn get(&self, name: &str) -> (r: Option<usize>)
        ensures
            r == rank_in(self@, name@),
    {
        let cs = chars_of(name);
        self.rank_of(cs.as_slice())
    }
}

/// The rank table of a list of names.
pub fn build_rank_map(names: &[&'static str]) -> (r: RankTable)
    ensures
        r@ == static_texts(names@),
{
    let mut out: Vec<Vec<char>> = Vec::new();
    let mut i: usize = 0;
    while i < names.len()
        invariant
            i <= names.len(),
            out.len() == i,
            forall|k: int| 0 <= k < i ==> (#[trigger] out@[k])@ == names@[k]@,
        decreases names.len() - i,
    {
        out.push(chars_of(names[i]));
        i += 1;
    }
    proof {
        assert(texts(out@) =~= static_texts(names@));
    }
    RankTable { names: out }
}

/// The rank of each name of an origin in the alphabetical order of the
/// origin's names.
pub fn origin_rank(reg: &Registry, origin: Origin) -> (r: RankTable)
    ensures
        r@ == sorted_names(reg@, origin),
{
    let names = build_sorted_names(reg, origin);
    build_rank_map(names.as_slice())
}

} // verus!
