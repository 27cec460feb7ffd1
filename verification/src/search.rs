//! Search by name: which entries of a table a query selects, and in which
//! order and number they are returned.

use vstd::prelude::*;
use crate::catalog::{ColorCatalog, combined_of, Registry, Table, table_of};
use crate::color_types::{ColorName, HexCode, names_of};
use crate::index::{
    has_token, lemma_contains_after_push, lemma_positions_where, lemma_positions_where_unique,
    lemma_posting_list, positions_upto, positions_where, posting_list, token_known,
};
use crate::names::{alphabetical_positions, sorted_name_positions};
use crate::origin::Origin;
use crate::postings::{
    intersect_sorted_slices, lemma_push_members, strictly_increasing, union_sorted_slices,
};
use crate::ranking::{entries_at, rank_positions, ranked_positions};
use crate::sorting::{key_views, lemma_sorted_positions, sort_positions, SortKey};
use crate::text::{chars_of, contains, is_substring, lowercase, trim, trimmed, unicode_lowercase};
use crate::tokens::{is_long, SUBSTRING_THRESHOLD, texts, tokenize, tokens_of};

verus! {

/// How the tokens of a query are combined.
#[derive(Debug, Clone, Copy, PartialEq, Eq, Structural)]
pub enum TokenMode {
    /// A name matches where it has any of the long tokens.
    Any,
    /// A name matches where it has all of the long tokens.
    All,
    /// As `Any` for long tokens; short tokens must all occur in the name.
    Substring,
}

/// The lowercase name holds the text.
pub open spec fn lower_contains(name: Seq<char>, needle: Seq<char>) -> bool {
    is_substring(needle, unicode_lowercase(name))
}

/// Some token is long.
pub open spec fn has_long(toks: Seq<Seq<char>>) -> bool {
    exists|t: Seq<char>| #[trigger] toks.contains(t) && is_long(t)
}

/// Some token is short.
pub open spec fn has_short(toks: Seq<Seq<char>>) -> bool {
    exists|t: Seq<char>| #[trigger] toks.contains(t) && !is_long(t)
}

/// Some short token occurs in the lowercase name.
pub open spec fn any_short_in(toks: Seq<Seq<char>>, name: Seq<char>) -> bool {
    exists|t: Seq<char>| #[trigger] toks.contains(t) && !is_long(t) && lower_contains(name, t)
}

/// Every short token occurs in the lowercase name.
pub open spec fn all_short_in(toks: Seq<Seq<char>>, name: Seq<char>) -> bool {
    forall|t: Seq<char>| #[trigger] toks.contains(t) && !is_long(t) ==> lower_contains(name, t)
}

/// The name passes the short tokens: in mode `Any`, one of them occurs in it
/// or there is none; in the other modes, all of them occur in it.
pub open spec fn passes_short(toks: Seq<Seq<char>>, name: Seq<char>, mode: TokenMode) -> bool {
    match mode {
        TokenMode::Any => !has_short(toks) || any_short_in(toks, name),
        _ => all_short_in(toks, name),
    }
}

/// The name has some long token.
pub open spec fn any_long_in(toks: Seq<Seq<char>>, name: Seq<char>) -> bool {
    exists|t: Seq<char>| #[trigger] toks.contains(t) && is_long(t) && has_token(name, t)
}

/// The name has every long token.
pub open spec fn all_long_in(toks: Seq<Seq<char>>, name: Seq<char>) -> bool {
    forall|t: Seq<char>| #[trigger] toks.contains(t) && is_long(t) ==> has_token(name, t)
}

/// The name passes the long tokens: in mode `All` it has all of them, in the
/// other modes one of them.
pub open spec fn passes_long(toks: Seq<Seq<char>>, name: Seq<char>, mode: TokenMode) -> bool {
    match mode {
        TokenMode::All => all_long_in(toks, name),
        _ => any_long_in(toks, name),
    }
}

/// Some long token is a token of some name.
pub open spec fn any_long_known(names: Seq<Seq<char>>, toks: Seq<Seq<char>>) -> bool {
    exists|t: Seq<char>| #[trigger] toks.contains(t) && is_long(t) && token_known(names, t)
}

/// Every long token is a token of some name.
pub open spec fn all_long_known(names: Seq<Seq<char>>, toks: Seq<Seq<char>>) -> bool {
    forall|t: Seq<char>| #[trigger] toks.contains(t) && is_long(t) ==> token_known(names, t)
}

/// Some name passes the long tokens.
pub open spec fn index_hits(names: Seq<Seq<char>>, toks: Seq<Seq<char>>, mode: TokenMode) -> bool {
    exists|i: int| 0 <= i < names.len() && passes_long(toks, #[trigger] names[i], mode)
}

/// The ways in which a query is answered.
#[derive(Debug, Clone, Copy, PartialEq, Eq, Structural)]
pub enum Plan {
    /// No entry.
    Nothing,
    /// Every entry.
    Everything,
    /// The entries whose lowercase name holds the lowercase query.
    WholeQuery,
    /// The entries whose name passes the short tokens.
    ShortTokens,
    /// The entries whose name passes the long and the short tokens.
    Indexed,
}

/// How the trimmed query `q` is answered on a table with these names.
pub open spec fn plan_for(names: Seq<Seq<char>>, is_all: bool, q: Seq<char>, mode: TokenMode) -> Plan {
    let toks = tokens_of(q);
    if q.len() == 0 {
        if is_all {
            Plan::Nothing
        } else {
            Plan::Everything
        }
    } else if !has_long(toks) {
        if is_all {
            Plan::WholeQuery
        } else {
            Plan::ShortTokens
        }
    } else if mode == TokenMode::All && !all_long_known(names, toks) {
        Plan::Nothing
    } else if !any_long_known(names, toks) {
        if is_all || !has_short(toks) {
            Plan::WholeQuery
        } else {
            Plan::ShortTokens
        }
    } else if !index_hits(names, toks, mode) {
        Plan::WholeQuery
    } else {
        Plan::Indexed
    }
}

/// Whether a plan selects a name.
pub open spec fn plan_selects(plan: Plan, name: Seq<char>, q: Seq<char>, mode: TokenMode) -> bool {
    let toks = tokens_of(q);
    match plan {
        Plan::Nothing => false,
        Plan::Everything => true,
        Plan::WholeQuery => lower_contains(name, unicode_lowercase(q)),
        Plan::ShortTokens => passes_short(toks, name, mode),
        Plan::Indexed => passes_long(toks, name, mode) && passes_short(toks, name, mode),
    }
}

/// Whether the trimmed query `q` selects the name at position `i`.
pub open spec fn selects(
    names: Seq<Seq<char>>,
    is_all: bool,
    q: Seq<char>,
    mode: TokenMode,
    i: int,
) -> bool {
    plan_selects(plan_for(names, is_all, q, mode), names[i], q, mode)
}

/// The positions that the trimmed query selects, ascending.
pub open spec fn candidates(names: Seq<Seq<char>>, is_all: bool, q: Seq<char>, mode: TokenMode) -> Seq<
    usize,
> {
    positions_where(names.len(), |i: int| selects(names, is_all, q, mode, i))
}

/// The first `limit` of the positions.
pub open spec fn capped(positions: Seq<usize>, limit: usize) -> Seq<usize> {
    if positions.len() > limit {
        positions.take(limit as int)
    } else {
        positions
    }
}

/// The positions of the entries that a search returns, in the order in
/// which it returns them: the selected positions, ranked where the origin is
/// `All`, and cut off at the limit. The empty query lists an origin other
/// than `All` whole, in alphabetical order of the names.
pub open spec fn result_positions(
    cats: Seq<ColorCatalog>,
    origin: Origin,
    query: Seq<char>,
    mode: TokenMode,
    limit: usize,
) -> Seq<usize> {
    let q = trimmed(query);
    let is_all = origin == Origin::All;
    let selected = candidates(names_of(table_of(cats, origin)), is_all, q, mode);
    if is_all {
        capped(ranked_positions(cats, unicode_lowercase(q), selected), limit)
    } else if q.len() == 0 {
        capped(alphabetical_positions(cats, origin), limit)
    } else {
        capped(selected, limit)
    }
}

/// What a search returns.
pub open spec fn search_results(
    cats: Seq<ColorCatalog>,
    origin: Origin,
    query: Seq<char>,
    mode: TokenMode,
    limit: usize,
) -> Seq<(HexCode, ColorName)> {
    entries_at(table_of(cats, origin), result_positions(cats, origin, query, mode, limit))
}

// ---------------------------------------------------------------------------
// Executable parts
// ---------------------------------------------------------------------------

/// The tokens split into long and short ones.
fn split_tokens(toks: Vec<Vec<char>>) -> (r: (Vec<Vec<char>>, Vec<Vec<char>>))
    ensures
        forall|t: Seq<char>| #[trigger]
            texts(r.0@).contains(t) <==> (texts(toks@).contains(t) && is_long(t)),
        forall|t: Seq<char>| #[trigger]
            texts(r.1@).contains(t) <==> (texts(toks@).contains(t) && !is_long(t)),
{
    let ghost all = texts(toks@);
    let mut toks = toks;
    let mut long: Vec<Vec<char>> = Vec::new();
    let mut short: Vec<Vec<char>> = Vec::new();
    while toks.len() > 0
        invariant
            texts(toks@) == all.take(toks.len() as int),
            toks.len() <= all.len(),
            forall|t: Seq<char>| #[trigger]
                texts(long@).contains(t) <==> (is_long(t) && exists|m: int|
                    toks.len() <= m < all.len() && all[m] == t),
            forall|t: Seq<char>| #[trigger]
                texts(short@).contains(t) <==> (!is_long(t) && exists|m: int|
                    toks.len() <= m < all.len() && all[m] == t),
        decreases toks.len(),
    {
        let ghost k = toks.len() as int;
        let ghost long0 = texts(long@);
        let ghost short0 = texts(short@);
        let tok = toks.pop().unwrap();
        proof {
            assert(texts(toks@) =~= all.take(k - 1));
            assert(all.take(k)[k - 1] == tok@);
        }
        if tok.len() >= SUBSTRING_THRESHOLD {
            long.push(tok);
            proof {
                assert(texts(long@) =~= long0.push(tok@));
                lemma_contains_after_push(long0, tok@);
            }
        } else {
            short.push(tok);
            proof {
                assert(texts(short@) =~= short0.push(tok@));
                lemma_contains_after_push(short0, tok@);
            }
        }
        proof {
            assert forall|t: Seq<char>| #[trigger]
                texts(long@).contains(t) <==> (is_long(t) && exists|m: int|
                    k - 1 <= m < all.len() && all[m] == t) by {
                if texts(long@).contains(t) {
                    if long0.contains(t) {
                        let m = choose|m: int| k <= m < all.len() && all[m] == t;
                        assert(k - 1 <= m < all.len() && all[m] == t);
                    } else {
                        assert(all[k - 1] == t);
                    }
                }
                if is_long(t) && exists|m: int| k - 1 <= m < all.len() && all[m] == t {
                    let m = choose|m: int| k - 1 <= m < all.len() && all[m] == t;
                    if m >= k {
                        assert(long0.contains(t));
                    }
                }
            }
            assert forall|t: Seq<char>| #[trigger]
                texts(short@).contains(t) <==> (!is_long(t) && exists|m: int|
                    k - 1 <= m < all.len() && all[m] == t) by {
                if texts(short@).contains(t) {
                    if short0.contains(t) {
                        let m = choose|m: int| k <= m < all.len() && all[m] == t;
                        assert(k - 1 <= m < all.len() && all[m] == t);
                    } else {
                        assert(all[k - 1] == t);
                    }
                }
                if !is_long(t) && exists|m: int| k - 1 <= m < all.len() && all[m] == t {
                    let m = choose|m: int| k - 1 <= m < all.len() && all[m] == t;
                    if m >= k {
                        assert(short0.contains(t));
                    }
                }
            }
        }
    }
    proof {
        assert forall|t: Seq<char>| all.contains(t) <==> (exists|m: int|
            0 <= m < all.len() && all[m] == t) by {
            if all.contains(t) {
                let m = choose|m: int| 0 <= m < all.len() && all[m] == t;
                assert(0 <= m < all.len() && all[m] == t);
            }
        }
    }
    (long, short)
}

/// Whether one of the needles occurs in the text.
fn any_contained(hay: &[char], needles: &Vec<Vec<char>>) -> (r: bool)
    ensures
        r == exists|t: Seq<char>| #[trigger] texts(needles@).contains(t) && is_substring(t, hay@),
{
    let ghost ns = texts(needles@);
    let mut k: usize = 0;
    while k < needles.len()
        invariant
            k <= needles.len(),
            ns == texts(needles@),
            forall|m: int| 0 <= m < k ==> !is_substring(#[trigger] ns[m], hay@),
        decreases needles.len() - k,
    {
        if contains(hay, needles[k].as_slice()) {
            proof {
                assert(ns[k as int] == needles@[k as int]@);
                assert(ns.contains(ns[k as int]));
            }
            return true;
        }
        proof {
            assert(ns[k as int] == needles@[k as int]@);
        }
        k += 1;
    }
    proof {
        if exists|t: Seq<char>| #[trigger] ns.contains(t) && is_substring(t, hay@) {
            let t = choose|t: Seq<char>| #[trigger] ns.contains(t) && is_substring(t, hay@);
            let m = choose|m: int| 0 <= m < ns.len() && ns[m] == t;
            assert(!is_substring(ns[m], hay@));
        }
    }
    false
}

/// Whether all of the needles occur in the text.
fn all_contained(hay: &[char], needles: &Vec<Vec<char>>) -> (r: bool)
    ensures
        r == forall|t: Seq<char>| #[trigger] texts(needles@).contains(t) ==> is_substring(t, hay@),
{
    let ghost ns = texts(needles@);
    let mut k: usize = 0;
    while k < needles.len()
        invariant
            k <= needles.len(),
            ns == texts(needles@),
            forall|m: int| 0 <= m < k ==> is_substring(#[trigger] ns[m], hay@),
        decreases needles.len() - k,
    {
        if !contains(hay, needles[k].as_slice()) {
            proof {
                assert(ns[k as int] == needles@[k as int]@);
                assert(ns.contains(ns[k as int]));
            }
            return false;
        }
        proof {
            assert(ns[k as int] == needles@[k as int]@);
        }
        k += 1;
    }
    proof {
        assert forall|t: Seq<char>| #[trigger] ns.contains(t) implies is_substring(t, hay@) by {
            let m = choose|m: int| 0 <= m < ns.len() && ns[m] == t;
            assert(is_substring(ns[m], hay@));
        }
    }
    true
}

/// What a scan of a table keeps.
enum Keep<'a> {
    /// Every name.
    Every,
    /// The names whose lowercase form holds the text.
    Holding(&'a Vec<char>),
    /// The names that pass the short tokens in the mode.
    Passing(&'a Vec<Vec<char>>, TokenMode),
}

/// Whether a scan keeps a name.
spec fn keeps(keep: Keep<'_>, name: Seq<char>) -> bool {
    match keep {
        Keep::Every => true,
        Keep::Holding(needle) => lower_contains(name, needle@),
        Keep::Passing(shorts, mode) => match mode {
            TokenMode::Any => texts(shorts@).len() == 0 || exists|t: Seq<char>| #[trigger]
                texts(shorts@).contains(t) && lower_contains(name, t),
            _ => forall|t: Seq<char>| #[trigger]
                texts(shorts@).contains(t) ==> lower_contains(name, t),
        },
    }
}

/// Whether a scan keeps the name at a position.
fn keeps_at(table: &Table, i: usize, keep: &Keep<'_>) -> (r: bool)
    requires
        i < table.names().len(),
    ensures
        r == keeps(*keep, table.names()[i as int]),
{
    match keep {
        Keep::Every => true,
        Keep::Holding(needle) => contains(table.lower_name(i).as_slice(), needle.as_slice()),
        Keep::Passing(shorts, mode) => {
            match mode {
                TokenMode::Any => {
                    proof {
                        assert(texts(shorts@).len() == shorts@.len());
                    }
                    shorts.len() == 0 || any_contained(table.lower_name(i).as_slice(), shorts)
                },
                _ => all_contained(table.lower_name(i).as_slice(), shorts),
            }
        },
    }
}

/// The positions among `base` whose names a scan keeps.
fn refine(table: &Table, base: &Vec<usize>, keep: &Keep<'_>) -> (r: Vec<usize>)
    requires
        strictly_increasing(base@),
        forall|k: int| 0 <= k < base.len() ==> #[trigger] base@[k] < table.names().len(),
    ensures
        strictly_increasing(r@),
        forall|x: usize| #[trigger]
            r@.contains(x) <==> (base@.contains(x) && keeps(*keep, table.names()[x as int])),
{
    let ghost names = table.names();
    let mut out: Vec<usize> = Vec::new();
    let mut k: usize = 0;
    while k < base.len()
        invariant
            k <= base.len(),
            names == table.names(),
            strictly_increasing(base@),
            forall|j: int| 0 <= j < base.len() ==> #[trigger] base@[j] < names.len(),
            strictly_increasing(out@),
            forall|j: int| 0 <= j < out.len() && k < base.len() ==> #[trigger] out@[j] < base@[k as int],
            forall|j: int| 0 <= j < out.len() && k > 0 ==> #[trigger] out@[j] <= base@[k - 1],
            forall|x: usize| #[trigger]
                out@.contains(x) <==> ((exists|j: int| 0 <= j < k && base@[j] == x) && keeps(
                    *keep,
                    names[x as int],
                )),
        decreases base.len() - k,
    {
        let c = base[k];
        let ghost prev = out@;
        let kept = keeps_at(table, c, keep);
        if kept {
            out.push(c);
            proof {
                lemma_push_members(prev, c);
            }
        }
        proof {
            assert forall|x: usize| #[trigger]
                out@.contains(x) <==> ((exists|j: int| 0 <= j < k + 1 && base@[j] == x) && keeps(
                    *keep,
                    names[x as int],
                )) by {
                if prev.contains(x) {
                    let j = choose|j: int| 0 <= j < k && base@[j] == x;
                    assert(0 <= j < k + 1 && base@[j] == x);
                }
                if x == c {
                    assert(0 <= k < k + 1 && base@[k as int] == x);
                }
                if (exists|j: int| 0 <= j < k + 1 && base@[j] == x) && keeps(*keep, names[x as int]) {
                    let j = choose|j: int| 0 <= j < k + 1 && base@[j] == x;
                    if j < k {
                        assert(prev.contains(x));
                    }
                }
            }
            assert forall|j: int| 0 <= j < out.len() && k + 1 < base.len() implies #[trigger] out@[j]
                < base@[k + 1] by {
                assert(base@[k as int] < base@[k + 1]);
            }
        }
        k += 1;
    }
    proof {
        assert forall|x: usize| base@.contains(x) <==> (exists|j: int|
            0 <= j < base.len() && base@[j] == x) by {
            if base@.contains(x) {
                let j = choose|j: int| 0 <= j < base@.len() && base@[j] == x;
                assert(0 <= j < base.len() && base@[j] == x);
            }
        }
    }
    out
}

/// What the token index says of the long tokens of a query.
enum Merged {
    /// Mode `All`, and some long token is no token of any name.
    Missing,
    /// No long token is a token of any name.
    Unknown,
    /// The positions whose names pass the long tokens.
    Found(Vec<usize>),
}

/// The posting lists of the long tokens that are known to the index, with
/// the tokens whose lists they are.
fn known_lists<'a>(table: &'a Table, longs: &Vec<Vec<char>>) -> (r: (
    Vec<&'a Vec<usize>>,
    bool,
    Ghost<Seq<Seq<char>>>,
))
    ensures
        r.1 == forall|t: Seq<char>| #[trigger]
            texts(longs@).contains(t) ==> token_known(table.names(), t),
        r.2@.len() == r.0.len(),
        forall|l: int|
            #![trigger r.2@[l]]
            0 <= l < r.0.len() ==> r.0@[l]@ == posting_list(table.names(), r.2@[l]) && texts(
                longs@,
            ).contains(r.2@[l]) && token_known(table.names(), r.2@[l]),
        forall|t: Seq<char>| #[trigger]
            texts(longs@).contains(t) && token_known(table.names(), t) ==> r.2@.contains(t),
{
    let ghost names = table.names();
    let ghost ls = texts(longs@);
    let index = table.index();
    let mut lists: Vec<&'a Vec<usize>> = Vec::new();
    let ghost mut known: Seq<Seq<char>> = seq![];
    let mut complete = true;
    let mut k: usize = 0;
    while k < longs.len()
        invariant
            k <= longs.len(),
            ls == texts(longs@),
            names == table.names(),
            index.names() == names,
            complete == forall|m: int| 0 <= m < k ==> token_known(names, #[trigger] ls[m]),
            known.len() == lists.len(),
            forall|l: int|
                #![trigger known[l]]
                0 <= l < lists.len() ==> lists@[l]@ == posting_list(names, known[l]) && ls.contains(
                    known[l],
                ) && token_known(names, known[l]),
            forall|m: int|
                0 <= m < k && token_known(names, #[trigger] ls[m]) ==> known.contains(ls[m]),
        decreases longs.len() - k,
    {
        let ghost before = known;
        proof {
            assert(ls[k as int] == longs@[k as int]@);
            assert(ls.contains(ls[k as int]));
        }
        match index.lookup(longs[k].as_slice()) {
            Some(list) => {
                lists.push(list);
                proof {
                    known = known.push(ls[k as int]);
                    lemma_contains_after_push(before, ls[k as int]);
                }
            },
            None => {
                complete = false;
            },
        }
        k += 1;
    }
    proof {
        assert forall|t: Seq<char>| #[trigger] ls.contains(t) && token_known(
            names,
            t,
        ) implies known.contains(t) by {
            let m = choose|m: int| 0 <= m < ls.len() && ls[m] == t;
            assert(token_known(names, ls[m]));
        }
        if complete {
            assert forall|t: Seq<char>| #[trigger] ls.contains(t) implies token_known(names, t) by {
                let m = choose|m: int| 0 <= m < ls.len() && ls[m] == t;
                assert(token_known(names, ls[m]));
            }
        } else {
            let m = choose|m: int| 0 <= m < k && !token_known(names, #[trigger] ls[m]);
            assert(ls.contains(ls[m]));
        }
    }
    (lists, complete, Ghost(known))
}

/// The intersection (`all`) or the union of the lists, shortest list first.
fn merge_lists(lists: &Vec<&Vec<usize>>, all: bool) -> (r: Vec<usize>)
    requires
        lists.len() > 0,
        forall|l: int| 0 <= l < lists.len() ==> strictly_increasing((#[trigger] lists@[l])@),
    ensures
        strictly_increasing(r@),
        all ==> forall|x: usize| #[trigger]
            r@.contains(x) <==> forall|l: int|
                0 <= l < lists.len() ==> (#[trigger] lists@[l])@.contains(x),
        !all ==> forall|x: usize| #[trigger]
            r@.contains(x) <==> exists|l: int|
                0 <= l < lists.len() && (#[trigger] lists@[l])@.contains(x),
{
    let mut keys: Vec<SortKey> = Vec::new();
    let mut i: usize = 0;
    while i < lists.len()
        invariant
            i <= lists.len(),
            keys.len() == i,
        decreases lists.len() - i,
    {
        keys.push(SortKey { major: lists[i].len() as u64, minor: 0, text: Vec::new() });
        i += 1;
    }
    let order = sort_positions(&keys);
    proof {
        lemma_sorted_positions(key_views(keys@), keys.len() as nat);
        assert(order@.contains(order@[0]));
    }
    let first = lists[order[0]];
    let mut cur: Vec<usize> = Vec::new();
    let mut c: usize = 0;
    while c < first.len()
        invariant
            c <= first.len(),
            cur@ == first@.take(c as int),
        decreases first.len() - c,
    {
        cur.push(first[c]);
        proof {
            assert(first@.take(c + 1) =~= first@.take(c as int).push(first@[c as int]));
        }
        c += 1;
    }
    proof {
        assert(first@.take(first.len() as int) =~= first@);
    }
    let mut m: usize = 1;
    while m < order.len()
        invariant
            1 <= m <= order.len(),
            order.len() == lists.len(),
            forall|x: usize| #[trigger] order@.contains(x) <==> x < lists.len(),
            forall|l: int| 0 <= l < lists.len() ==> strictly_increasing((#[trigger] lists@[l])@),
            strictly_increasing(cur@),
            all ==> forall|x: usize| #[trigger]
                cur@.contains(x) <==> forall|j: int|
                    0 <= j < m ==> lists@[#[trigger] order@[j] as int]@.contains(x),
            !all ==> forall|x: usize| #[trigger]
                cur@.contains(x) <==> exists|j: int|
                    0 <= j < m && lists@[#[trigger] order@[j] as int]@.contains(x),
        decreases order.len() - m,
    {
        proof {
            assert(order@.contains(order@[m as int]));
        }
        let next = lists[order[m]];
        let ghost before = cur@;
        if all {
            cur = intersect_sorted_slices(cur.as_slice(), next.as_slice());
            proof {
                assert forall|x: usize| #[trigger]
                    cur@.contains(x) <==> forall|j: int|
                        0 <= j < m + 1 ==> lists@[#[trigger] order@[j] as int]@.contains(x) by {
                    if cur@.contains(x) {
                        assert(before.contains(x));
                        assert forall|j: int| 0 <= j < m + 1 implies lists@[#[trigger] order@[j] as int]@.contains(
                            x,
                        ) by {
                            if j < m {
                            }
                        }
                    }
                    if forall|j: int|
                        0 <= j < m + 1 ==> lists@[#[trigger] order@[j] as int]@.contains(x) {
                        assert(lists@[order@[m as int] as int]@.contains(x));
                        assert(before.contains(x));
                    }
                }
            }
        } else {
            cur = union_sorted_slices(cur.as_slice(), next.as_slice());
            proof {
                assert forall|x: usize| #[trigger]
                    cur@.contains(x) <==> exists|j: int|
                        0 <= j < m + 1 && lists@[#[trigger] order@[j] as int]@.contains(x) by {
                    if before.contains(x) {
                        let j = choose|j: int|
                            0 <= j < m && lists@[#[trigger] order@[j] as int]@.contains(x);
                        assert(0 <= j < m + 1 && lists@[order@[j] as int]@.contains(x));
                    }
                    if next@.contains(x) {
                        assert(0 <= m < m + 1 && lists@[order@[m as int] as int]@.contains(x));
                    }
                    if exists|j: int|
                        0 <= j < m + 1 && lists@[#[trigger] order@[j] as int]@.contains(x) {
                        let j = choose|j: int|
                            0 <= j < m + 1 && lists@[#[trigger] order@[j] as int]@.contains(x);
                        if j < m {
                            assert(before.contains(x));
                        }
                    }
                }
            }
        }
        m += 1;
    }
    proof {
        // every list stands somewhere in the order
        assert forall|x: usize| all implies (#[trigger] cur@.contains(x) <==> forall|l: int|
            0 <= l < lists.len() ==> (#[trigger] lists@[l])@.contains(x)) by {
            if cur@.contains(x) {
                assert forall|l: int| 0 <= l < lists.len() implies (#[trigger] lists@[l])@.contains(
                    x,
                ) by {
                    assert(order@.contains(l as usize));
                    let j = choose|j: int| 0 <= j < order@.len() && order@[j] == l as usize;
                    assert(lists@[order@[j] as int]@.contains(x));
                }
            }
            if forall|l: int| 0 <= l < lists.len() ==> (#[trigger] lists@[l])@.contains(x) {
                assert forall|j: int| 0 <= j < m implies lists@[#[trigger] order@[j] as int]@.contains(
                    x,
                ) by {
                    assert(order@.contains(order@[j]));
                }
            }
        }
        assert forall|x: usize| !all implies (#[trigger] cur@.contains(x) <==> exists|l: int|
            0 <= l < lists.len() && (#[trigger] lists@[l])@.contains(x)) by {
            if cur@.contains(x) {
                let j = choose|j: int| 0 <= j < m && lists@[#[trigger] order@[j] as int]@.contains(x);
                assert(order@.contains(order@[j]));
                let l = order@[j] as int;
                assert(0 <= l < lists.len() && lists@[l]@.contains(x));
            }
            if exists|l: int| 0 <= l < lists.len() && (#[trigger] lists@[l])@.contains(x) {
                let l = choose|l: int| 0 <= l < lists.len() && (#[trigger] lists@[l])@.contains(x);
                assert(order@.contains(l as usize));
                let j = choose|j: int| 0 <= j < order@.len() && order@[j] == l as usize;
                assert(0 <= j < m && lists@[order@[j] as int]@.contains(x));
            }
        }
    }
    cur
}

/// A scan that keeps what passes the short tokens keeps what `passes_short`
/// says.
proof fn lemma_keep_passing(tk: Seq<Seq<char>>, shorts: &Vec<Vec<char>>, name: Seq<char>, mode: TokenMode)
    requires
        forall|t: Seq<char>| #[trigger]
            texts(shorts@).contains(t) <==> (tk.contains(t) && !is_long(t)),
    ensures
        keeps(Keep::Passing(shorts, mode), name) == passes_short(tk, name, mode),
{
    let ss = texts(shorts@);
    if ss.len() > 0 {
        assert(ss.contains(ss[0]));
        assert(tk.contains(ss[0]) && !is_long(ss[0]));
    }
    if has_short(tk) {
        let t = choose|t: Seq<char>| #[trigger] tk.contains(t) && !is_long(t);
        assert(ss.contains(t));
    }
    if any_short_in(tk, name) {
        let t = choose|t: Seq<char>| #[trigger]
            tk.contains(t) && !is_long(t) && lower_contains(name, t);
        assert(ss.contains(t));
    }
    if exists|t: Seq<char>| #[trigger] ss.contains(t) && lower_contains(name, t) {
        let t = choose|t: Seq<char>| #[trigger] ss.contains(t) && lower_contains(name, t);
        assert(tk.contains(t) && !is_long(t) && lower_contains(name, t));
    }
    if all_short_in(tk, name) {
        assert forall|t: Seq<char>| #[trigger] ss.contains(t) implies lower_contains(name, t) by {
            assert(tk.contains(t) && !is_long(t));
        }
    }
    if forall|t: Seq<char>| #[trigger] ss.contains(t) ==> lower_contains(name, t) {
        assert forall|t: Seq<char>| #[trigger] tk.contains(t) && !is_long(t) implies lower_contains(
            name,
            t,
        ) by {
            assert(ss.contains(t));
        }
    }
}

/// An ascending list that holds exactly what the plan selects is the list
/// of candidates.
proof fn lemma_selected(
    r: Seq<usize>,
    names: Seq<Seq<char>>,
    is_all: bool,
    q: Seq<char>,
    mode: TokenMode,
    plan: Plan,
)
    requires
        names.len() <= usize::MAX,
        strictly_increasing(r),
        plan == plan_for(names, is_all, q, mode),
        forall|x: usize| #[trigger]
            r.contains(x) <==> (x < names.len() && plan_selects(plan, names[x as int], q, mode)),
    ensures
        r == candidates(names, is_all, q, mode),
{
    lemma_positions_where_unique(r, names.len(), |i: int| selects(names, is_all, q, mode, i));
}

/// The positions whose lowercase names hold the lowercase query.
fn scan_whole_query(table: &Table, q: &[char]) -> (r: Vec<usize>)
    ensures
        strictly_increasing(r@),
        forall|x: usize| #[trigger]
            r@.contains(x) <==> (x < table.names().len() && lower_contains(
                table.names()[x as int],
                unicode_lowercase(q@),
            )),
{
    let qlc = lowercase(q);
    let base = positions_upto(table.len());
    refine(table, &base, &Keep::Holding(&qlc))
}

/// The positions whose names pass the short tokens.
fn scan_short_tokens(
    table: &Table,
    shorts: &Vec<Vec<char>>,
    mode: TokenMode,
    Ghost(tk): Ghost<Seq<Seq<char>>>,
) -> (r: Vec<usize>)
    requires
        forall|t: Seq<char>| #[trigger]
            texts(shorts@).contains(t) <==> (tk.contains(t) && !is_long(t)),
    ensures
        strictly_increasing(r@),
        forall|x: usize| #[trigger]
            r@.contains(x) <==> (x < table.names().len() && passes_short(
                tk,
                table.names()[x as int],
                mode,
            )),
{
    let base = positions_upto(table.len());
    let r = refine(table, &base, &Keep::Passing(shorts, mode));
    proof {
        assert forall|x: usize| #[trigger]
            r@.contains(x) <==> (x < table.names().len() && passes_short(
                tk,
                table.names()[x as int],
                mode,
            )) by {
            lemma_keep_passing(tk, shorts, table.names()[x as int], mode);
        }
    }
    r
}

/// Every wanted token is a token of some name.
pub open spec fn all_known(names: Seq<Seq<char>>, wanted: Seq<Seq<char>>) -> bool {
    forall|t: Seq<char>| #[trigger] wanted.contains(t) ==> token_known(names, t)
}

/// Some wanted token is a token of some name.
pub open spec fn any_known(names: Seq<Seq<char>>, wanted: Seq<Seq<char>>) -> bool {
    exists|t: Seq<char>| #[trigger] wanted.contains(t) && token_known(names, t)
}

/// The name has every wanted token.
pub open spec fn has_all_tokens(name: Seq<char>, wanted: Seq<Seq<char>>) -> bool {
    forall|t: Seq<char>| #[trigger] wanted.contains(t) ==> has_token(name, t)
}

/// The name has some wanted token.
pub open spec fn has_any_token(name: Seq<char>, wanted: Seq<Seq<char>>) -> bool {
    exists|t: Seq<char>| #[trigger] wanted.contains(t) && has_token(name, t)
}

/// The positions whose names have all, or any, of the wanted tokens, where
/// the index knows enough of them.
fn merge_tokens(table: &Table, wanted: &Vec<Vec<char>>, all: bool) -> (r: Merged)
    ensures
        match r {
            Merged::Missing => all && !all_known(table.names(), texts(wanted@)),
            Merged::Unknown => !(all && !all_known(table.names(), texts(wanted@))) && !any_known(
                table.names(),
                texts(wanted@),
            ),
            Merged::Found(cur) => {
                &&& !(all && !all_known(table.names(), texts(wanted@)))
                &&& any_known(table.names(), texts(wanted@))
                &&& strictly_increasing(cur@)
                &&& forall|x: usize| #[trigger]
                    cur@.contains(x) <==> (x < table.names().len() && if all {
                        has_all_tokens(table.names()[x as int], texts(wanted@))
                    } else {
                        has_any_token(table.names()[x as int], texts(wanted@))
                    })
            },
        },
{
    let ghost names = table.names();
    let ghost ls = texts(wanted@);
    let n = table.len();
    let (lists, complete, Ghost(known)) = known_lists(table, wanted);
    if all && !complete {
        return Merged::Missing;
    }
    if lists.len() == 0 {
        proof {
            if any_known(names, ls) {
                let t = choose|t: Seq<char>| #[trigger] ls.contains(t) && token_known(names, t);
                assert(known.contains(t));
            }
        }
        return Merged::Unknown;
    }
    proof {
        assert(ls.contains(known[0]) && token_known(names, known[0]));
        assert forall|l: int| 0 <= l < lists.len() implies strictly_increasing(
            (#[trigger] lists@[l])@,
        ) by {
            lemma_posting_list(names, known[l]);
        }
    }
    let cur = merge_lists(&lists, all);
    proof {
        assert forall|x: usize| #[trigger]
            cur@.contains(x) <==> (x < names.len() && if all {
                has_all_tokens(names[x as int], ls)
            } else {
                has_any_token(names[x as int], ls)
            }) by {
            assert forall|l: int| 0 <= l < lists.len() implies ((#[trigger] lists@[l])@.contains(x)
                <==> (x < names.len() && has_token(names[x as int], known[l]))) by {
                lemma_posting_list(names, known[l]);
            }
            if all {
                if cur@.contains(x) {
                    assert(lists@[0]@.contains(x));
                    assert forall|t: Seq<char>| #[trigger] ls.contains(t) implies has_token(
                        names[x as int],
                        t,
                    ) by {
                        assert(known.contains(t));
                        let l = choose|l: int| 0 <= l < known.len() && known[l] == t;
                        assert(lists@[l]@.contains(x));
                    }
                }
                if x < names.len() && has_all_tokens(names[x as int], ls) {
                    assert forall|l: int| 0 <= l < lists.len() implies (
                    #[trigger] lists@[l])@.contains(x) by {
                        assert(ls.contains(known[l]));
                    }
                }
            } else {
                if cur@.contains(x) {
                    let l = choose|l: int|
                        0 <= l < lists.len() && (#[trigger] lists@[l])@.contains(x);
                    assert(ls.contains(known[l]) && has_token(names[x as int], known[l]));
                }
                if x < names.len() && has_any_token(names[x as int], ls) {
                    let t = choose|t: Seq<char>| #[trigger]
                        ls.contains(t) && has_token(names[x as int], t);
                    assert(token_known(names, t));
                    assert(known.contains(t));
                    let l = choose|l: int| 0 <= l < known.len() && known[l] == t;
                    assert(lists@[l]@.contains(x));
                }
            }
        }
    }
    Merged::Found(cur)
}

/// The positions whose names pass the long tokens, where the index knows
/// enough of them.
fn merge_postings(
    table: &Table,
    longs: &Vec<Vec<char>>,
    mode: TokenMode,
    Ghost(tk): Ghost<Seq<Seq<char>>>,
) -> (r: Merged)
    requires
        forall|t: Seq<char>| #[trigger]
            texts(longs@).contains(t) <==> (tk.contains(t) && is_long(t)),
    ensures
        match r {
            Merged::Missing => mode == TokenMode::All && !all_long_known(table.names(), tk),
            Merged::Unknown => !(mode == TokenMode::All && !all_long_known(table.names(), tk))
                && !any_long_known(table.names(), tk),
            Merged::Found(cur) => {
                &&& !(mode == TokenMode::All && !all_long_known(table.names(), tk))
                &&& any_long_known(table.names(), tk)
                &&& strictly_increasing(cur@)
                &&& forall|x: usize| #[trigger]
                    cur@.contains(x) <==> (x < table.names().len() && passes_long(
                        tk,
                        table.names()[x as int],
                        mode,
                    ))
            },
        },
{
    let ghost names = table.names();
    let ghost ls = texts(longs@);
    let all = mode == TokenMode::All;
    let r = merge_tokens(table, longs, all);
    proof {
        lemma_long_tokens(names, tk, ls);
        match &r {
            Merged::Found(cur) => {
                assert forall|x: usize| #[trigger]
                    cur@.contains(x) <==> (x < names.len() && passes_long(
                        tk,
                        names[x as int],
                        mode,
                    )) by {
                    if x < names.len() {
                        lemma_long_tokens_of_name(names[x as int], tk, ls);
                    }
                }
            },
            _ => {},
        }
    }
    r
}

/// What is known of the long tokens is what is known of the tokens wanted.
proof fn lemma_long_tokens(names: Seq<Seq<char>>, tk: Seq<Seq<char>>, ls: Seq<Seq<char>>)
    requires
        forall|t: Seq<char>| #[trigger] ls.contains(t) <==> (tk.contains(t) && is_long(t)),
    ensures
        all_known(names, ls) == all_long_known(names, tk),
        any_known(names, ls) == any_long_known(names, tk),
{
    if all_known(names, ls) {
        assert forall|t: Seq<char>| #[trigger] tk.contains(t) && is_long(t) implies token_known(
            names,
            t,
        ) by {
            assert(ls.contains(t));
        }
    }
    if all_long_known(names, tk) {
        assert forall|t: Seq<char>| #[trigger] ls.contains(t) implies token_known(names, t) by {
            assert(tk.contains(t) && is_long(t));
        }
    }
    if any_known(names, ls) {
        let t = choose|t: Seq<char>| #[trigger] ls.contains(t) && token_known(names, t);
        assert(tk.contains(t) && is_long(t) && token_known(names, t));
    }
    if any_long_known(names, tk) {
        let t = choose|t: Seq<char>| #[trigger]
            tk.contains(t) && is_long(t) && token_known(names, t);
        assert(ls.contains(t));
    }
}

/// A name has the long tokens as it has the tokens wanted.
proof fn lemma_long_tokens_of_name(name: Seq<char>, tk: Seq<Seq<char>>, ls: Seq<Seq<char>>)
    requires
        forall|t: Seq<char>| #[trigger] ls.contains(t) <==> (tk.contains(t) && is_long(t)),
    ensures
        has_all_tokens(name, ls) == all_long_in(tk, name),
        has_any_token(name, ls) == any_long_in(tk, name),
{
    if has_all_tokens(name, ls) {
        assert forall|t: Seq<char>| #[trigger] tk.contains(t) && is_long(t) implies has_token(
            name,
            t,
        ) by {
            assert(ls.contains(t));
        }
    }
    if all_long_in(tk, name) {
        assert forall|t: Seq<char>| #[trigger] ls.contains(t) implies has_token(name, t) by {
            assert(tk.contains(t) && is_long(t));
        }
    }
    if has_any_token(name, ls) {
        let t = choose|t: Seq<char>| #[trigger] ls.contains(t) && has_token(name, t);
        assert(tk.contains(t) && is_long(t) && has_token(name, t));
    }
    if any_long_in(tk, name) {
        let t = choose|t: Seq<char>| #[trigger] tk.contains(t) && is_long(t) && has_token(name, t);
        assert(ls.contains(t));
    }
}

/// The positions that the trimmed query selects, ascending.
pub fn select_positions(table: &Table, is_all: bool, q: &[char], mode: TokenMode) -> (r: Vec<usize>)
    ensures
        r@ == candidates(table.names(), is_all, q@, mode),
        forall|k: int| 0 <= k < r.len() ==> #[trigger] r@[k] < table.names().len(),
{
    let ghost names = table.names();
    let n = table.len();
    let r = select_by_plan(table, is_all, q, mode);
    proof {
        lemma_positions_where(
            names.len(),
            |i: int| selects(names, is_all, q@, mode, i),
        );
        assert forall|k: int| 0 <= k < r.len() implies #[trigger] r@[k] < names.len() by {
            assert(r@.contains(r@[k]));
        }
    }
    r
}

fn select_by_plan(table: &Table, is_all: bool, q: &[char], mode: TokenMode) -> (r: Vec<usize>)
    ensures
        r@ == candidates(table.names(), is_all, q@, mode),
{
    let ghost names = table.names();
    let n = table.len();
    if q.len() == 0 {
        if is_all {
            let r: Vec<usize> = Vec::new();
            proof {
                assert forall|x: usize| #[trigger] r@.contains(x) <==> (x < names.len()
                    && plan_selects(Plan::Nothing, names[x as int], q@, mode)) by {
                    if r@.contains(x) {
                        let k = choose|k: int| 0 <= k < r@.len() && r@[k] == x;
                    }
                }
                lemma_selected(r@, names, is_all, q@, mode, Plan::Nothing);
            }
            return r;
        } else {
            let r = positions_upto(n);
            proof {
                lemma_selected(r@, names, is_all, q@, mode, Plan::Everything);
            }
            return r;
        }
    }
    let toks = tokenize(q);
    let ghost tk = texts(toks@);
    let (longs, shorts) = split_tokens(toks);
    proof {
        assert(tk == tokens_of(q@));
        let ls = texts(longs@);
        if ls.len() > 0 {
            assert(ls.contains(ls[0]));
            assert(tk.contains(ls[0]) && is_long(ls[0]));
        }
        if has_long(tk) {
            let t = choose|t: Seq<char>| #[trigger] tk.contains(t) && is_long(t);
            assert(ls.contains(t));
        }
        assert(ls.len() == longs.len());
        let ss = texts(shorts@);
        if ss.len() > 0 {
            assert(ss.contains(ss[0]));
            assert(tk.contains(ss[0]) && !is_long(ss[0]));
        }
        if has_short(tk) {
            let t = choose|t: Seq<char>| #[trigger] tk.contains(t) && !is_long(t);
            assert(ss.contains(t));
        }
        assert(ss.len() == shorts.len());
    }
    if longs.len() == 0 {
        if is_all {
            let r = scan_whole_query(table, q);
            proof {
                lemma_selected(r@, names, is_all, q@, mode, Plan::WholeQuery);
            }
            return r;
        } else {
            let r = scan_short_tokens(table, &shorts, mode, Ghost(tk));
            proof {
                lemma_selected(r@, names, is_all, q@, mode, Plan::ShortTokens);
            }
            return r;
        }
    }
    match merge_postings(table, &longs, mode, Ghost(tk)) {
        Merged::Missing => {
            let r: Vec<usize> = Vec::new();
            proof {
                assert forall|x: usize| #[trigger] r@.contains(x) <==> (x < names.len()
                    && plan_selects(Plan::Nothing, names[x as int], q@, mode)) by {
                    if r@.contains(x) {
                        let k = choose|k: int| 0 <= k < r@.len() && r@[k] == x;
                    }
                }
                lemma_selected(r@, names, is_all, q@, mode, Plan::Nothing);
            }
            r
        },
        Merged::Unknown => {
            if is_all || shorts.len() == 0 {
                let r = scan_whole_query(table, q);
                proof {
                    lemma_selected(r@, names, is_all, q@, mode, Plan::WholeQuery);
                }
                r
            } else {
                let r = scan_short_tokens(table, &shorts, mode, Ghost(tk));
                proof {
                    lemma_selected(r@, names, is_all, q@, mode, Plan::ShortTokens);
                }
                r
            }
        },
        Merged::Found(cur) => {
            proof {
                if cur.len() > 0 {
                    assert(cur@.contains(cur@[0]));
                    let i = cur@[0] as int;
                    assert(0 <= i < names.len() && passes_long(tk, names[i], mode));
                }
                if index_hits(names, tk, mode) {
                    let i = choose|i: int|
                        0 <= i < names.len() && passes_long(tk, #[trigger] names[i], mode);
                    assert(cur@.contains(i as usize));
                }
            }
            if cur.len() == 0 {
                let r = scan_whole_query(table, q);
                proof {
                    lemma_selected(r@, names, is_all, q@, mode, Plan::WholeQuery);
                }
                r
            } else {
                proof {
                    assert forall|k: int| 0 <= k < cur.len() implies #[trigger] cur@[k]
                        < names.len() by {
                        assert(cur@.contains(cur@[k]));
                    }
                }
                let r = refine(table, &cur, &Keep::Passing(&shorts, mode));
                proof {
                    assert forall|x: usize| #[trigger] r@.contains(x) <==> (x < names.len()
                        && plan_selects(Plan::Indexed, names[x as int], q@, mode)) by {
                        lemma_keep_passing(tk, &shorts, names[x as int], mode);
                    }
                    lemma_selected(r@, names, is_all, q@, mode, Plan::Indexed);
                }
                r
            }
        },
    }
}

/// Cuts a list of positions off at the limit.
pub(crate) fn cap(positions: &mut Vec<usize>, limit: usize)
    ensures
        final(positions)@ == capped(old(positions)@, limit),
{
    if positions.len() > limit {
        positions.truncate(limit);
        proof {
            assert(positions@ =~= old(positions)@.take(limit as int));
        }
    }
}

/// The entries at the given positions.
pub fn entries_for(entries: &[(HexCode, ColorName)], positions: &Vec<usize>) -> (r: Vec<
    (HexCode, ColorName),
>)
    requires
        forall|k: int| 0 <= k < positions.len() ==> #[trigger] positions@[k] < entries.len(),
    ensures
        r@ == entries_at(entries@, positions@),
{
    let mut out: Vec<(HexCode, ColorName)> = Vec::new();
    let mut k: usize = 0;
    while k < positions.len()
        invariant
            k <= positions.len(),
            forall|j: int| 0 <= j < positions.len() ==> #[trigger] positions@[j] < entries.len(),
            out@ == entries_at(entries@, positions@.take(k as int)),
        decreases positions.len() - k,
    {
        out.push(entries[positions[k]]);
        proof {
            assert(positions@.take(k + 1) =~= positions@.take(k as int).push(positions@[k as int]));
            assert(out@ =~= entries_at(entries@, positions@.take(k + 1)));
        }
        k += 1;
    }
    proof {
        assert(positions@.take(positions.len() as int) =~= positions@);
    }
    out
}

/// The positions, in the origin's table, of the entries that a search
/// returns, in the order in which it returns them.
pub fn search_positions(reg: &Registry, origin: Origin, query: &str, mode: TokenMode) -> (r: Vec<
    usize,
>)
    ensures
        r@ == result_positions(reg@, origin, query@, mode, reg.limit()),
        r.len() <= reg.limit(),
        forall|k: int| 0 <= k < r.len() ==> #[trigger] r@[k] < table_of(reg@, origin).len(),
{
    let qc = chars_of(query);
    let q = trim(qc.as_slice());
    let table = reg.table(origin);
    let is_all = origin == Origin::All;
    let ghost entries = table_of(reg@, origin);
    proof {
        assert(names_of(entries).len() == entries.len());
    }
    let mut ranked = if is_all {
        let selected = select_positions(table, is_all, q.as_slice(), mode);
        let qlc = lowercase(q.as_slice());
        rank_positions(reg, qlc.as_slice(), &selected)
    } else if q.len() == 0 {
        let listed = sorted_name_positions(reg, origin);
        proof {
            assert forall|k: int| 0 <= k < listed.len() implies #[trigger] listed@[k]
                < entries.len() by {
                assert(listed@.contains(listed@[k]));
            }
        }
        listed
    } else {
        select_positions(table, is_all, q.as_slice(), mode)
    };
    cap(&mut ranked, reg.max_results());
    ranked
}

/// Searches the table of an origin by name.
///
/// The empty query finds nothing among all origins together and lists
/// any other origin whole, in alphabetical order of the names. Every other
/// query is trimmed and split into tokens. Tokens of three characters
/// or more are looked up in the token index and combined as the mode says;
/// shorter ones must occur in the lowercase name. Where the index has no
/// answer, the entries whose lowercase name holds the whole lowercase query
/// are taken. For `Origin::All` the entries are ranked, exact matches
/// first. No more entries than the registry's limit are returned.
pub fn search_in_origin(reg: &Registry, origin: Origin, query: &str, mode: TokenMode) -> (r: Vec<
    (HexCode, ColorName),
>)
    ensures
        r@ == search_results(reg@, origin, query@, mode, reg.limit()),
        r.len() <= reg.limit(),
{
    let positions = search_positions(reg, origin, query, mode);
    entries_for(reg.entries(origin), &positions)
}

/// Searches all origins together.
pub fn search_colors(reg: &Registry, query: &str, mode: TokenMode) -> (r: Vec<(HexCode, ColorName)>)
    ensures
        r@ == search_results(reg@, Origin::All, query@, mode, reg.limit()),
        r.len() <= reg.limit(),
{
    search_in_origin(reg, Origin::All, query, mode)
}

/// The positions of all entries whose lowercase name holds the lowercase
/// query, ranked and cut off at the limit.
pub open spec fn substring_positions(cats: Seq<ColorCatalog>, query: Seq<char>, limit: usize) -> Seq<
    usize,
> {
    let names = names_of(combined_of(cats));
    let qlc = unicode_lowercase(query);
    capped(
        ranked_positions(
            cats,
            qlc,
            positions_where(names.len(), |i: int| lower_contains(names[i], qlc)),
        ),
        limit,
    )
}

/// All entries whose lowercase name holds the lowercase query, ranked and
/// cut off at the limit. The query is taken as it is, whitespace included.
pub fn search_substring(reg: &Registry, query: &str) -> (r: Vec<(HexCode, ColorName)>)
    ensures
        r@ == entries_at(combined_of(reg@), substring_positions(reg@, query@, reg.limit())),
        r.len() <= reg.limit(),
{
    let q = chars_of(query);
    let table = reg.table(Origin::All);
    let ghost names = table.names();
    let n = table.len();
    proof {
        assert(names_of(combined_of(reg@)).len() == combined_of(reg@).len());
    }
    let found = scan_whole_query(table, q.as_slice());
    let qlc = lowercase(q.as_slice());
    proof {
        lemma_positions_where_unique(
            found@,
            names.len(),
            |i: int| lower_contains(names[i], unicode_lowercase(query@)),
        );
        assert forall|k: int| 0 <= k < found.len() implies #[trigger] found@[k] < names.len() by {
            assert(found@.contains(found@[k]));
        }
    }
    let mut ranked = rank_positions(reg, qlc.as_slice(), &found);
    cap(&mut ranked, reg.max_results());
    entries_for(reg.entries(Origin::All), &ranked)
}

/// The positions of all entries whose names have any (or, with `all`,
/// every) token of the query, ranked and cut off at the limit. A query
/// without tokens selects nothing.
pub open spec fn token_positions(
    cats: Seq<ColorCatalog>,
    query: Seq<char>,
    all: bool,
    limit: usize,
) -> Seq<usize> {
    let names = names_of(combined_of(cats));
    let toks = tokens_of(query);
    capped(
        ranked_positions(
            cats,
            unicode_lowercase(query),
            positions_where(
                names.len(),
                |i: int|
                    if all {
                        toks.len() > 0 && has_all_tokens(names[i], toks)
                    } else {
                        has_any_token(names[i], toks)
                    },
            ),
        ),
        limit,
    )
}

fn search_tokens(reg: &Registry, query: &str, all: bool) -> (r: Vec<(HexCode, ColorName)>)
    ensures
        r@ == entries_at(combined_of(reg@), token_positions(reg@, query@, all, reg.limit())),
        r.len() <= reg.limit(),
{
    let q = chars_of(query);
    let table = reg.table(Origin::All);
    let ghost names = table.names();
    let n = table.len();
    let toks = tokenize(q.as_slice());
    let ghost tk = texts(toks@);
    proof {
        assert(names_of(combined_of(reg@)).len() == combined_of(reg@).len());
        assert(tk.len() == toks.len());
        if tk.len() > 0 {
            assert(tk.contains(tk[0]));
        }
    }
    let found = match merge_tokens(table, &toks, all) {
        Merged::Found(cur) => cur,
        _ => Vec::new(),
    };
    proof {
        let pred = |i: int|
            if all {
                tk.len() > 0 && has_all_tokens(names[i], tk)
            } else {
                has_any_token(names[i], tk)
            };
        assert forall|x: usize| #[trigger] found@.contains(x) <==> (x < names.len() && pred(
            x as int,
        )) by {
            if found@.len() == 0 {
                if found@.contains(x) {
                    let k = choose|k: int| 0 <= k < found@.len() && found@[k] == x;
                }
            }
            if x < names.len() && pred(x as int) {
                if all {
                    assert(token_known(names, tk[0]));
                    assert forall|t: Seq<char>| #[trigger] tk.contains(t) implies token_known(
                        names,
                        t,
                    ) by {
                        assert(has_token(names[x as int], t));
                    }
                } else {
                    let t = choose|t: Seq<char>| #[trigger]
                        tk.contains(t) && has_token(names[x as int], t);
                    assert(token_known(names, t));
                }
            }
        }
        lemma_positions_where_unique(found@, names.len(), pred);
        assert forall|k: int| 0 <= k < found.len() implies #[trigger] found@[k] < names.len() by {
            assert(found@.contains(found@[k]));
        }
    }
    let qlc = lowercase(q.as_slice());
    let mut ranked = rank_positions(reg, qlc.as_slice(), &found);
    cap(&mut ranked, reg.max_results());
    entries_for(reg.entries(Origin::All), &ranked)
}

/// All entries whose names have any token of the query, ranked and cut off
/// at the limit. Tokens of every length are looked up in the token index.
pub fn search_tokens_any(reg: &Registry, query: &str) -> (r: Vec<(HexCode, ColorName)>)
    ensures
        r@ == entries_at(combined_of(reg@), token_positions(reg@, query@, false, reg.limit())),
        r.len() <= reg.limit(),
{
    search_tokens(reg, query, false)
}

/// All entries whose names have every token of the query, ranked and cut
/// off at the limit. A query without tokens finds nothing.
pub fn search_tokens_all(reg: &Registry, query: &str) -> (r: Vec<(HexCode, ColorName)>)
    ensures
        r@ == entries_at(combined_of(reg@), token_positions(reg@, query@, true, reg.limit())),
        r.len() <= reg.limit(),
{
    search_tokens(reg, query, true)
}

} // verus!
