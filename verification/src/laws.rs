//! What holds of every search, stated over the search's own definitions.

use vstd::prelude::*;
use crate::catalog::{ColorCatalog, combined_of, table_of};
use crate::color_types::{ColorName, HexCode, names_of};
use crate::index::{has_token, lemma_positions_where, token_known};
use crate::names::{alphabetical_positions, name_key, name_keys, sorted_names};
use crate::origin::Origin;
use crate::postings::strictly_increasing;
use crate::ranking::{entries_at, exact_flag, rank_key, rank_keys, ranked_positions};
use crate::search::{
    all_long_in, all_long_known, all_short_in, any_long_in, any_long_known, any_short_in,
    candidates, capped, has_long, has_short, index_hits, lower_contains, passes_long, Plan,
    plan_for, plan_selects, result_positions, search_results, selects, TokenMode,
};
use crate::sorting::{
    key_lt, lemma_least_key_first, lemma_sorted_positions, sorted_positions, text_lt,
};
use crate::text::{
    ascii_lowercase, lemma_trim_bounds, skip_whitespace, trimmed, unicode_alphanumeric,
    unicode_lowercase, unicode_whitespace,
};
use crate::tokens::{is_long, tokens_of, words, words_from};

verus! {

// ---------------------------------------------------------------------------
// The limit
// ---------------------------------------------------------------------------

/// A search returns no more entries than the limit, whatever the origin,
/// the query and the mode.
pub proof fn law_results_within_limit(
    cats: Seq<ColorCatalog>,
    origin: Origin,
    query: Seq<char>,
    mode: TokenMode,
    limit: usize,
)
    ensures
        search_results(cats, origin, query, mode, limit).len() <= limit,
        result_positions(cats, origin, query, mode, limit).len() <= limit,
{
}

// ---------------------------------------------------------------------------
// The same arguments give the same results
// ---------------------------------------------------------------------------

/// Two searches with the same arguments return the same entries in the same
/// order: what a search returns is a function of the catalogues, the
/// origin, the query, the mode and the limit alone.
pub proof fn law_search_repeats(
    cats: Seq<ColorCatalog>,
    origin: Origin,
    query: Seq<char>,
    mode: TokenMode,
    limit: usize,
    first: Seq<(HexCode, ColorName)>,
    second: Seq<(HexCode, ColorName)>,
)
    requires
        first == search_results(cats, origin, query, mode, limit),
        second == search_results(cats, origin, query, mode, limit),
    ensures
        first == second,
{
}

// ---------------------------------------------------------------------------
// Whitespace
// ---------------------------------------------------------------------------

/// Nothing but whitespace.
pub open spec fn is_blank(s: Seq<char>) -> bool {
    forall|i: int| 0 <= i < s.len() ==> unicode_whitespace(#[trigger] s[i])
}

proof fn lemma_skip_blank(s: Seq<char>, i: int)
    requires
        is_blank(s),
        0 <= i <= s.len(),
    ensures
        skip_whitespace(s, i) == s.len(),
    decreases s.len() - i,
{
    if i < s.len() {
        lemma_skip_blank(s, i + 1);
    }
}

/// A blank text trims to the empty text.
pub proof fn lemma_blank_trims_to_empty(s: Seq<char>)
    requires
        is_blank(s),
    ensures
        trimmed(s) == Seq::<char>::empty(),
{
    lemma_skip_blank(s, 0);
    lemma_trim_bounds(s);
    assert(trimmed(s) =~= Seq::<char>::empty());
}

/// A query of nothing but whitespace is answered as the empty query is.
pub proof fn law_blank_query_is_empty_query(
    cats: Seq<ColorCatalog>,
    origin: Origin,
    query: Seq<char>,
    mode: TokenMode,
    limit: usize,
)
    requires
        is_blank(query),
    ensures
        search_results(cats, origin, query, mode, limit) == search_results(
            cats,
            origin,
            Seq::<char>::empty(),
            mode,
            limit,
        ),
{
    lemma_blank_trims_to_empty(query);
    lemma_blank_trims_to_empty(Seq::<char>::empty());
}

/// The empty query finds nothing in `All`. In any other origin it lists,
/// where the limit allows, every entry of the table once, and the names in
/// the order in which `origin_names` gives them.
pub proof fn law_empty_query(cats: Seq<ColorCatalog>, origin: Origin, mode: TokenMode, limit: usize)
    requires
        table_of(cats, origin).len() <= usize::MAX,
    ensures
        origin == Origin::All ==> search_results(
            cats,
            origin,
            Seq::<char>::empty(),
            mode,
            limit,
        ).len() == 0,
        origin != Origin::All && table_of(cats, origin).len() <= limit ==> {
            &&& search_results(cats, origin, Seq::<char>::empty(), mode, limit).len()
                == table_of(cats, origin).len()
            &&& names_of(search_results(cats, origin, Seq::<char>::empty(), mode, limit))
                == sorted_names(cats, origin)
            &&& forall|x: usize|
                x < table_of(cats, origin).len() <==> #[trigger] result_positions(
                    cats,
                    origin,
                    Seq::<char>::empty(),
                    mode,
                    limit,
                ).contains(x)
        },
{
    let query = Seq::<char>::empty();
    lemma_blank_trims_to_empty(query);
    let es = table_of(cats, origin);
    let names = names_of(es);
    let is_all = origin == Origin::All;
    let pred = |i: int| selects(names, is_all, query, mode, i);
    let c = candidates(names, is_all, query, mode);
    lemma_positions_where(names.len(), pred);
    if is_all {
        if c.len() > 0 {
            assert(c.contains(c[0]));
        }
        let r = ranked_positions(cats, unicode_lowercase(query), c);
        assert(r.len() == 0);
    } else {
        lemma_sorted_positions(name_keys(cats, origin, es), es.len());
    }
}

/// The empty query lists an origin other than `All` in alphabetical order:
/// of two names that it returns, the lowercase form of the later one does
/// not come before the lowercase form of the earlier one.
pub proof fn law_empty_query_is_alphabetical(
    cats: Seq<ColorCatalog>,
    origin: Origin,
    mode: TokenMode,
    limit: usize,
    a: int,
    b: int,
)
    requires
        origin != Origin::All,
        table_of(cats, origin).len() <= usize::MAX,
        0 <= a < b < search_results(cats, origin, Seq::<char>::empty(), mode, limit).len(),
    ensures
        !text_lt(
            ascii_lowercase(search_results(cats, origin, Seq::<char>::empty(), mode, limit)[b].1@),
            ascii_lowercase(search_results(cats, origin, Seq::<char>::empty(), mode, limit)[a].1@),
        ),
{
    let query = Seq::<char>::empty();
    lemma_blank_trims_to_empty(query);
    let es = table_of(cats, origin);
    let keys = name_keys(cats, origin, es);
    let order = alphabetical_positions(cats, origin);
    lemma_sorted_positions(keys, es.len());
    let r = result_positions(cats, origin, query, mode, limit);
    assert(r == capped(order, limit));
    assert(r[a] == order[a] && r[b] == order[b]);
    assert(order.contains(order[a]) && order.contains(order[b]));
    assert(crate::sorting::placed_before(keys, order[a], order[b]));
    assert(keys[order[a] as int] == name_key(cats, origin, es[order[a] as int]));
    assert(keys[order[b] as int] == name_key(cats, origin, es[order[b] as int]));
    if key_lt(keys[order[a] as int], keys[order[b] as int]) {
        crate::sorting::lemma_key_lt_asymmetric(keys[order[a] as int], keys[order[b] as int]);
    }
}

/// Where the predicate holds everywhere, every position is listed at its
/// own place.
proof fn lemma_all_selected(n: nat, pred: spec_fn(int) -> bool)
    requires
        forall|i: int| 0 <= i < n ==> #[trigger] pred(i),
        n <= usize::MAX,
    ensures
        crate::index::positions_where(n, pred).len() == n,
        forall|i: int| 0 <= i < n ==> #[trigger] crate::index::positions_where(n, pred)[i] == i,
    decreases n,
{
    if n > 0 {
        lemma_all_selected((n - 1) as nat, pred);
    }
}

// ---------------------------------------------------------------------------
// Ranking and the limit keep the selected positions
// ---------------------------------------------------------------------------

/// Ranking reorders positions: none is added, lost or repeated.
pub proof fn lemma_ranking_permutes(
    cats: Seq<ColorCatalog>,
    query_lc: Seq<char>,
    positions: Seq<usize>,
)
    requires
        positions.len() <= usize::MAX,
    ensures
        ranked_positions(cats, query_lc, positions).len() == positions.len(),
        forall|x: usize| #[trigger]
            ranked_positions(cats, query_lc, positions).contains(x) <==> positions.contains(x),
{
    let keys = rank_keys(cats, query_lc, entries_at(combined_of(cats), positions));
    let order = sorted_positions(keys, positions.len());
    lemma_sorted_positions(keys, positions.len());
    let r = ranked_positions(cats, query_lc, positions);
    assert forall|x: usize| #[trigger] r.contains(x) <==> positions.contains(x) by {
        if r.contains(x) {
            let k = choose|k: int| 0 <= k < r.len() && r[k] == x;
            assert(order.contains(order[k]));
            assert(positions[order[k] as int] == x);
        }
        if positions.contains(x) {
            let p = choose|p: int| 0 <= p < positions.len() && positions[p] == x;
            assert(order.contains(p as usize));
            let k = choose|k: int| 0 <= k < order.len() && order[k] == p as usize;
            assert(r[k] == x);
        }
    }
}

/// The positions that a search returns are among the selected ones, and
/// where the selected ones do not exceed the limit, they are all returned.
pub proof fn law_results_are_the_selected(
    cats: Seq<ColorCatalog>,
    origin: Origin,
    query: Seq<char>,
    mode: TokenMode,
    limit: usize,
)
    requires
        table_of(cats, origin).len() <= usize::MAX,
    ensures
        forall|x: usize| #[trigger]
            result_positions(cats, origin, query, mode, limit).contains(x) ==> candidates(
                names_of(table_of(cats, origin)),
                origin == Origin::All,
                trimmed(query),
                mode,
            ).contains(x),
        candidates(
            names_of(table_of(cats, origin)),
            origin == Origin::All,
            trimmed(query),
            mode,
        ).len() <= limit ==> forall|x: usize| #[trigger]
            result_positions(cats, origin, query, mode, limit).contains(x) <==> candidates(
                names_of(table_of(cats, origin)),
                origin == Origin::All,
                trimmed(query),
                mode,
            ).contains(x),
{
    let names = names_of(table_of(cats, origin));
    let is_all = origin == Origin::All;
    let q = trimmed(query);
    let c = candidates(names, is_all, q, mode);
    lemma_positions_where(names.len(), |i: int| selects(names, is_all, q, mode, i));
    let full = if is_all {
        ranked_positions(cats, unicode_lowercase(q), c)
    } else if q.len() == 0 {
        alphabetical_positions(cats, origin)
    } else {
        c
    };
    if is_all {
        lemma_ranking_permutes(cats, unicode_lowercase(q), c);
    } else if q.len() == 0 {
        // the empty query selects every position, and the alphabetical
        // order holds every position once
        let es = table_of(cats, origin);
        lemma_sorted_positions(name_keys(cats, origin, es), es.len());
        assert(full.len() == names.len());
        lemma_all_selected(names.len(), |i: int| selects(names, is_all, q, mode, i));
    }
    let r = result_positions(cats, origin, query, mode, limit);
    assert(r == capped(full, limit));
    assert forall|x: usize| #[trigger] r.contains(x) implies c.contains(x) by {
        let k = choose|k: int| 0 <= k < r.len() && r[k] == x;
        assert(full[k] == x);
        assert(full.contains(x));
    }
}

/// A position is selected exactly where it lies in the table and the plan
/// for the query selects its name.
pub proof fn lemma_candidates(
    names: Seq<Seq<char>>,
    is_all: bool,
    q: Seq<char>,
    mode: TokenMode,
)
    requires
        names.len() <= usize::MAX,
    ensures
        strictly_increasing(candidates(names, is_all, q, mode)),
        forall|x: usize| #[trigger]
            candidates(names, is_all, q, mode).contains(x) <==> (x < names.len() && selects(
                names,
                is_all,
                q,
                mode,
                x as int,
            )),
{
    lemma_positions_where(names.len(), |i: int| selects(names, is_all, q, mode, i));
}

// ---------------------------------------------------------------------------
// Several words
// ---------------------------------------------------------------------------

/// A word: one or more alphanumeric characters and nothing else.
pub open spec fn is_word(a: Seq<char>) -> bool {
    a.len() > 0 && forall|i: int| 0 <= i < a.len() ==> unicode_alphanumeric(#[trigger] a[i])
}

/// A part of a query that the origin `All` answers token by token: one
/// with a long token, or a single word.
pub open spec fn read_by_tokens(a: Seq<char>) -> bool {
    has_long(tokens_of(a)) || is_word(a)
}

proof fn lemma_word_from(a: Seq<char>, i: int)
    requires
        is_word(a),
        0 <= i <= a.len(),
    ensures
        words_from(a, i, a.take(i)) == seq![a],
    decreases a.len() - i,
{
    if i < a.len() {
        assert(a.take(i).push(a[i]) =~= a.take(i + 1));
        lemma_word_from(a, i + 1);
    } else {
        assert(a.take(i) =~= a);
    }
}

/// A word is its own and only word, and its lowercase form its only token.
pub proof fn lemma_word_is_its_token(a: Seq<char>)
    requires
        is_word(a),
    ensures
        words(a) == seq![a],
        tokens_of(a) == seq![unicode_lowercase(a)],
        forall|t: Seq<char>| #[trigger] tokens_of(a).contains(t) <==> t == unicode_lowercase(a),
{
    assert(a.take(0) =~= Seq::<char>::empty());
    lemma_word_from(a, 0);
    let toks = tokens_of(a);
    assert(toks =~= seq![unicode_lowercase(a)]);
    assert(toks[0] == unicode_lowercase(a));
    assert forall|t: Seq<char>| #[trigger] toks.contains(t) implies t == unicode_lowercase(a) by {
        let k = choose|k: int| 0 <= k < toks.len() && toks[k] == t;
    }
}

proof fn lemma_second_word_from(s: Seq<char>, b: Seq<char>, start: int, j: int)
    requires
        is_word(b),
        0 <= start,
        0 <= j <= b.len(),
        s.len() == start + b.len(),
        s.skip(start) == b,
    ensures
        words_from(s, start + j, b.take(j)) == seq![b],
    decreases b.len() - j,
{
    if j < b.len() {
        assert(s[start + j] == s.skip(start)[j]);
        assert(b.take(j).push(b[j]) =~= b.take(j + 1));
        lemma_second_word_from(s, b, start, j + 1);
    } else {
        assert(b.take(j) =~= b);
    }
}

proof fn lemma_first_word_from(s: Seq<char>, a: Seq<char>, b: Seq<char>, i: int)
    requires
        is_word(a),
        is_word(b),
        0 <= i <= a.len(),
        s.len() == a.len() + 1 + b.len(),
        s.take(a.len() as int) == a,
        !unicode_alphanumeric(s[a.len() as int]),
        s.skip(a.len() as int + 1) == b,
    ensures
        words_from(s, i, a.take(i)) == seq![a, b],
    decreases a.len() - i,
{
    if i < a.len() {
        assert(s[i] == s.take(a.len() as int)[i]);
        assert(a.take(i).push(a[i]) =~= a.take(i + 1));
        lemma_first_word_from(s, a, b, i + 1);
    } else {
        assert(a.take(i) =~= a);
        assert(b.take(0) =~= Seq::<char>::empty());
        lemma_second_word_from(s, b, a.len() as int + 1, 0);
        assert(seq![a] + seq![b] =~= seq![a, b]);
    }
}

/// Two words with one character between them that is no letter and no
/// digit: the tokens of the whole are the tokens of the two words.
pub proof fn lemma_two_words(a: Seq<char>, sep: char, b: Seq<char>)
    requires
        is_word(a),
        is_word(b),
        !unicode_alphanumeric(sep),
    ensures
        words(a.push(sep) + b) == seq![a, b],
        tokens_joined(a.push(sep) + b, a, b),
{
    let s = a.push(sep) + b;
    assert(s.take(a.len() as int) =~= a);
    assert(s.skip(a.len() as int + 1) =~= b);
    assert(s[a.len() as int] == sep);
    assert(a.take(0) =~= Seq::<char>::empty());
    lemma_first_word_from(s, a, b, 0);
    lemma_word_is_its_token(a);
    lemma_word_is_its_token(b);
    let ts = tokens_of(s);
    assert(ts =~= seq![unicode_lowercase(a), unicode_lowercase(b)]);
    assert(ts[0] == unicode_lowercase(a));
    assert(ts[1] == unicode_lowercase(b));
    assert forall|t: Seq<char>| #[trigger]
        ts.contains(t) <==> (tokens_of(a).contains(t) || tokens_of(b).contains(t)) by {
        if ts.contains(t) {
            let k = choose|k: int| 0 <= k < ts.len() && ts[k] == t;
        }
    }
}

/// Among all origins, a single short word selects the names that hold its
/// lowercase form: the names that hold its one token.
proof fn lemma_short_word_in_all(names: Seq<Seq<char>>, a: Seq<char>, name: Seq<char>)
    requires
        is_word(a),
        !has_long(tokens_of(a)),
    ensures
        plan_for(names, true, a, TokenMode::All) == Plan::WholeQuery,
        plan_selects(Plan::WholeQuery, name, a, TokenMode::All) <==> all_short_in(
            tokens_of(a),
            name,
        ),
        all_long_in(tokens_of(a), name),
{
    lemma_word_is_its_token(a);
    let ta = tokens_of(a);
    let lc = unicode_lowercase(a);
    assert(ta.contains(lc));
    assert(!is_long(lc));
}

/// The tokens of `both` are those of `a` and those of `b`.
pub open spec fn tokens_joined(both: Seq<char>, a: Seq<char>, b: Seq<char>) -> bool {
    forall|t: Seq<char>| #[trigger]
        tokens_of(both).contains(t) <==> (tokens_of(a).contains(t) || tokens_of(b).contains(t))
}

/// In mode `All`, a name is selected by "A B" exactly where it is selected
/// by "A" and by "B". The queries are taken trimmed.
///
/// Left out are the queries "A B" that are empty or are answered with the
/// names that hold the whole query: there the search does not go token by
/// token. In the origin `All` a part without a long token is answered so
/// too; there each part has a long token or is a single word, whose one
/// token is the whole part.
pub proof fn law_all_is_intersection(
    names: Seq<Seq<char>>,
    is_all: bool,
    both: Seq<char>,
    a: Seq<char>,
    b: Seq<char>,
    i: int,
)
    requires
        0 <= i < names.len(),
        tokens_joined(both, a, b),
        both.len() > 0,
        plan_for(names, is_all, both, TokenMode::All) != Plan::WholeQuery,
        is_all ==> read_by_tokens(a) && read_by_tokens(b),
    ensures
        selects(names, is_all, both, TokenMode::All, i) <==> (selects(
            names,
            is_all,
            a,
            TokenMode::All,
            i,
        ) && selects(names, is_all, b, TokenMode::All, i)),
{
    let mode = TokenMode::All;
    let tb = tokens_of(both);
    let ta = tokens_of(a);
    let tc = tokens_of(b);
    let name = names[i];
    let plan = plan_for(names, is_all, both, mode);
    lemma_tokens_need_text(a);
    lemma_tokens_need_text(b);
    if plan == Plan::Indexed {
        let w = choose|w: int| 0 <= w < names.len() && passes_long(tb, #[trigger] names[w], mode);
        if !is_all || has_long(ta) {
            lemma_part_of_indexed(names, is_all, both, a, w);
        } else {
            lemma_short_word_in_all(names, a, name);
        }
        if !is_all || has_long(tc) {
            lemma_part_of_indexed(names, is_all, both, b, w);
        } else {
            lemma_short_word_in_all(names, b, name);
        }
        lemma_tokens_of_parts(both, a, b, name);
    } else if plan == Plan::ShortTokens {
        // no long token anywhere: each part is answered from its short tokens
        assert(!has_long(ta)) by {
            if has_long(ta) {
                let t = choose|t: Seq<char>| #[trigger] ta.contains(t) && is_long(t);
                assert(tb.contains(t));
            }
        }
        assert(!has_long(tc)) by {
            if has_long(tc) {
                let t = choose|t: Seq<char>| #[trigger] tc.contains(t) && is_long(t);
                assert(tb.contains(t));
            }
        }
        lemma_empty_has_no_short(a, name);
        lemma_empty_has_no_short(b, name);
        lemma_tokens_of_parts(both, a, b, name);
    } else {
        // a long token that no name has: the part that has it finds nothing
        assert(plan == Plan::Nothing);
        let t = choose|t: Seq<char>| #[trigger] tb.contains(t) && is_long(t) && !token_known(names, t);
        if ta.contains(t) {
            assert(has_long(ta));
            assert(!all_long_known(names, ta));
            assert(plan_for(names, is_all, a, mode) == Plan::Nothing);
        } else {
            assert(tc.contains(t));
            assert(has_long(tc));
            assert(!all_long_known(names, tc));
            assert(plan_for(names, is_all, b, mode) == Plan::Nothing);
        }
    }
}

/// A name has all long tokens, and holds all short tokens, of "A B" exactly
/// where that is so of "A" and of "B".
proof fn lemma_tokens_of_parts(both: Seq<char>, a: Seq<char>, b: Seq<char>, name: Seq<char>)
    requires
        tokens_joined(both, a, b),
    ensures
        all_long_in(tokens_of(both), name) <==> (all_long_in(tokens_of(a), name) && all_long_in(
            tokens_of(b),
            name,
        )),
        all_short_in(tokens_of(both), name) <==> (all_short_in(tokens_of(a), name)
            && all_short_in(tokens_of(b), name)),
{
    let tb = tokens_of(both);
    let ta = tokens_of(a);
    let tc = tokens_of(b);
    if all_long_in(tb, name) {
        assert forall|t: Seq<char>| #[trigger] ta.contains(t) && is_long(t) implies has_token(
            name,
            t,
        ) by {
            assert(tb.contains(t));
        }
        assert forall|t: Seq<char>| #[trigger] tc.contains(t) && is_long(t) implies has_token(
            name,
            t,
        ) by {
            assert(tb.contains(t));
        }
    }
    if all_long_in(ta, name) && all_long_in(tc, name) {
        assert forall|t: Seq<char>| #[trigger] tb.contains(t) && is_long(t) implies has_token(
            name,
            t,
        ) by {
            assert(ta.contains(t) || tc.contains(t));
        }
    }
    if all_short_in(tb, name) {
        assert forall|t: Seq<char>| #[trigger] ta.contains(t) && !is_long(t) implies lower_contains(
            name,
            t,
        ) by {
            assert(tb.contains(t));
        }
        assert forall|t: Seq<char>| #[trigger] tc.contains(t) && !is_long(t) implies lower_contains(
            name,
            t,
        ) by {
            assert(tb.contains(t));
        }
    }
    if all_short_in(ta, name) && all_short_in(tc, name) {
        assert forall|t: Seq<char>| #[trigger] tb.contains(t) && !is_long(t) implies lower_contains(
            name,
            t,
        ) by {
            assert(ta.contains(t) || tc.contains(t));
        }
    }
}

/// The empty text has no token that a name could lack.
proof fn lemma_empty_has_no_short(s: Seq<char>, name: Seq<char>)
    ensures
        s.len() == 0 ==> all_short_in(tokens_of(s), name) && all_long_in(tokens_of(s), name),
{
    if s.len() == 0 {
        lemma_no_words_in_empty(s);
        let ts = tokens_of(s);
        assert forall|t: Seq<char>| #[trigger] ts.contains(t) implies false by {
            let k = choose|k: int| 0 <= k < ts.len() && ts[k] == t;
        }
    }
}

/// Where the index answers a query in mode `All`, it answers each part of
/// it that has a long token; a part without one is answered from its short
/// tokens, or with every entry where it is empty.
proof fn lemma_part_of_indexed(
    names: Seq<Seq<char>>,
    is_all: bool,
    both: Seq<char>,
    part: Seq<char>,
    w: int,
)
    requires
        forall|t: Seq<char>| #[trigger] tokens_of(part).contains(t) ==> tokens_of(both).contains(t),
        plan_for(names, is_all, both, TokenMode::All) == Plan::Indexed,
        0 <= w < names.len(),
        passes_long(tokens_of(both), names[w], TokenMode::All),
        is_all ==> has_long(tokens_of(part)),
    ensures
        has_long(tokens_of(part)) ==> plan_for(names, is_all, part, TokenMode::All)
            == Plan::Indexed,
        !has_long(tokens_of(part)) && part.len() > 0 ==> plan_for(
            names,
            is_all,
            part,
            TokenMode::All,
        ) == Plan::ShortTokens,
        !has_long(tokens_of(part)) && part.len() == 0 ==> plan_for(
            names,
            is_all,
            part,
            TokenMode::All,
        ) == Plan::Everything && all_short_in(tokens_of(part), names[w]),
        !has_long(tokens_of(part)) ==> all_long_in(tokens_of(part), names[w]),
{
    let mode = TokenMode::All;
    let tb = tokens_of(both);
    let tp = tokens_of(part);
    if has_long(tp) {
        let t0 = choose|t: Seq<char>| #[trigger] tp.contains(t) && is_long(t);
        lemma_tokens_need_text(part);
        assert forall|t: Seq<char>| #[trigger] tp.contains(t) && is_long(t) implies has_token(
            names[w],
            t,
        ) by {
            assert(tb.contains(t));
        }
        assert forall|t: Seq<char>| #[trigger] tp.contains(t) && is_long(t) implies token_known(
            names,
            t,
        ) by {
            assert(has_token(names[w], t));
        }
        assert(token_known(names, t0));
        assert(passes_long(tp, names[w], mode));
    } else {
        if part.len() == 0 {
            lemma_no_words_in_empty(part);
            assert(tp.len() == 0);
            assert forall|t: Seq<char>| #[trigger] tp.contains(t) && !is_long(
                t,
            ) implies lower_contains(names[w], t) by {
                let k = choose|k: int| 0 <= k < tp.len() && tp[k] == t;
            }
        }
        assert forall|t: Seq<char>| #[trigger] tp.contains(t) && is_long(t) implies has_token(
            names[w],
            t,
        ) by {
        }
    }
}

/// The empty text has no words.
pub proof fn lemma_no_words_in_empty(s: Seq<char>)
    requires
        s.len() == 0,
    ensures
        words(s).len() == 0,
        tokens_of(s).len() == 0,
{
}

/// A text with a token is not empty.
pub proof fn lemma_tokens_need_text(s: Seq<char>)
    ensures
        tokens_of(s).len() > 0 ==> s.len() > 0,
        has_long(tokens_of(s)) ==> s.len() > 0,
        has_short(tokens_of(s)) ==> s.len() > 0,
{
    if s.len() == 0 {
        lemma_no_words_in_empty(s);
        if has_long(tokens_of(s)) {
            let t = choose|t: Seq<char>| #[trigger] tokens_of(s).contains(t) && is_long(t);
            let k = choose|k: int| 0 <= k < tokens_of(s).len() && tokens_of(s)[k] == t;
        }
        if has_short(tokens_of(s)) {
            let t = choose|t: Seq<char>| #[trigger] tokens_of(s).contains(t) && !is_long(t);
            let k = choose|k: int| 0 <= k < tokens_of(s).len() && tokens_of(s)[k] == t;
        }
    }
}

/// What mode `All` selects, mode `Any` selects too, unless mode `All` fell
/// back on the whole query after the index found no name with all long
/// tokens.
pub proof fn law_any_selects_what_all_selects(
    names: Seq<Seq<char>>,
    is_all: bool,
    q: Seq<char>,
    i: int,
)
    requires
        0 <= i < names.len(),
        !(has_long(tokens_of(q)) && plan_for(names, is_all, q, TokenMode::All)
            == Plan::WholeQuery),
        selects(names, is_all, q, TokenMode::All, i),
    ensures
        selects(names, is_all, q, TokenMode::Any, i),
{
    let toks = tokens_of(q);
    let name = names[i];
    let plan = plan_for(names, is_all, q, TokenMode::All);
    if plan == Plan::Indexed {
        let t0 = choose|t: Seq<char>| #[trigger] toks.contains(t) && is_long(t);
        assert(has_token(name, t0));
        assert(token_known(names, t0));
        assert(any_long_in(toks, name));
        assert(passes_long(toks, names[i], TokenMode::Any));
        assert(index_hits(names, toks, TokenMode::Any));
        assert(plan_for(names, is_all, q, TokenMode::Any) == Plan::Indexed);
        if has_short(toks) {
            let s = choose|t: Seq<char>| #[trigger] toks.contains(t) && !is_long(t);
            assert(lower_contains(name, s));
        }
    } else if plan == Plan::ShortTokens {
        assert(plan_for(names, is_all, q, TokenMode::Any) == Plan::ShortTokens);
        if has_short(toks) {
            let s = choose|t: Seq<char>| #[trigger] toks.contains(t) && !is_long(t);
            assert(lower_contains(name, s));
        }
    }
}

/// The queries "A B", "A" and "B" are answered in one way: all three from
/// the token index, none with a short token; or, in an origin other than
/// `All`, all three from short tokens alone, of which each part has one.
pub open spec fn answered_alike(
    names: Seq<Seq<char>>,
    is_all: bool,
    both: Seq<char>,
    a: Seq<char>,
    b: Seq<char>,
) -> bool {
    ||| {
        &&& both.len() > 0
        &&& !has_short(tokens_of(both))
        &&& plan_for(names, is_all, a, TokenMode::Any) == Plan::Indexed
        &&& plan_for(names, is_all, b, TokenMode::Any) == Plan::Indexed
    }
    ||| {
        &&& !is_all
        &&& !has_long(tokens_of(both))
        &&& has_short(tokens_of(a))
        &&& has_short(tokens_of(b))
    }
}

/// In mode `Any`, a name is selected by "A B" exactly where it is selected
/// by "A" or by "B", where the three queries are answered alike. The
/// queries are taken trimmed.
///
/// Left out are the queries that mix long and short tokens, where the short
/// ones narrow what the long ones find, and those with a part that the
/// index does not know, which is then looked for as a text.
pub proof fn law_any_is_union(
    names: Seq<Seq<char>>,
    is_all: bool,
    both: Seq<char>,
    a: Seq<char>,
    b: Seq<char>,
    i: int,
)
    requires
        0 <= i < names.len(),
        tokens_joined(both, a, b),
        answered_alike(names, is_all, both, a, b),
    ensures
        selects(names, is_all, both, TokenMode::Any, i) <==> (selects(
            names,
            is_all,
            a,
            TokenMode::Any,
            i,
        ) || selects(names, is_all, b, TokenMode::Any, i)),
{
    let mode = TokenMode::Any;
    let tb = tokens_of(both);
    let ta = tokens_of(a);
    let tc = tokens_of(b);
    let name = names[i];
    lemma_tokens_need_text(both);
    lemma_tokens_need_text(a);
    lemma_tokens_need_text(b);
    if !is_all && !has_long(tb) && has_short(ta) && has_short(tc) {
        let sa = choose|t: Seq<char>| #[trigger] ta.contains(t) && !is_long(t);
        assert(tb.contains(sa));
        assert(has_short(tb));
        assert(!has_long(ta)) by {
            if has_long(ta) {
                let t = choose|t: Seq<char>| #[trigger] ta.contains(t) && is_long(t);
                assert(tb.contains(t));
            }
        }
        assert(!has_long(tc)) by {
            if has_long(tc) {
                let t = choose|t: Seq<char>| #[trigger] tc.contains(t) && is_long(t);
                assert(tb.contains(t));
            }
        }
        if any_short_in(tb, name) {
            let t = choose|t: Seq<char>| #[trigger]
                tb.contains(t) && !is_long(t) && lower_contains(name, t);
            if ta.contains(t) {
                assert(any_short_in(ta, name));
            } else {
                assert(tc.contains(t));
                assert(any_short_in(tc, name));
            }
        }
        if any_short_in(ta, name) {
            let t = choose|t: Seq<char>| #[trigger]
                ta.contains(t) && !is_long(t) && lower_contains(name, t);
            assert(tb.contains(t));
        }
        if any_short_in(tc, name) {
            let t = choose|t: Seq<char>| #[trigger]
                tc.contains(t) && !is_long(t) && lower_contains(name, t);
            assert(tb.contains(t));
        }
    } else {
        // "A" is answered from the index, so one of its long tokens is known
        let w = choose|w: int| 0 <= w < names.len() && passes_long(ta, #[trigger] names[w], mode);
        let t0 = choose|t: Seq<char>| #[trigger]
            ta.contains(t) && is_long(t) && has_token(names[w], t);
        assert(tb.contains(t0));
        assert(token_known(names, t0));
        assert(any_long_in(tb, names[w]));
        assert(passes_long(tb, names[w], mode));
        assert(!has_short(ta)) by {
            if has_short(ta) {
                let s = choose|t: Seq<char>| #[trigger] ta.contains(t) && !is_long(t);
                assert(tb.contains(s));
            }
        }
        assert(!has_short(tc)) by {
            if has_short(tc) {
                let s = choose|t: Seq<char>| #[trigger] tc.contains(t) && !is_long(t);
                assert(tb.contains(s));
            }
        }
        if any_long_in(tb, name) {
            let t = choose|t: Seq<char>| #[trigger]
                tb.contains(t) && is_long(t) && has_token(name, t);
            if ta.contains(t) {
                assert(any_long_in(ta, name));
            } else {
                assert(tc.contains(t));
                assert(any_long_in(tc, name));
            }
        }
        if any_long_in(ta, name) {
            let t = choose|t: Seq<char>| #[trigger]
                ta.contains(t) && is_long(t) && has_token(name, t);
            assert(tb.contains(t));
        }
        if any_long_in(tc, name) {
            let t = choose|t: Seq<char>| #[trigger]
                tc.contains(t) && is_long(t) && has_token(name, t);
            assert(tb.contains(t));
        }
    }
}

/// The positions that a search would return without its limit.
pub open spec fn selected(
    cats: Seq<ColorCatalog>,
    origin: Origin,
    query: Seq<char>,
    mode: TokenMode,
) -> Seq<usize> {
    candidates(names_of(table_of(cats, origin)), origin == Origin::All, trimmed(query), mode)
}

/// In mode `All`, the entries returned for "A B" are those returned both
/// for "A" and for "B" in the same origin, where "A B" is not empty and not
/// answered with the names that hold the whole query, and none of the
/// three searches is cut off by the limit. In the origin `All` each part
/// has a long token or is a single word.
pub proof fn law_all_results_are_intersection(
    cats: Seq<ColorCatalog>,
    origin: Origin,
    both: Seq<char>,
    a: Seq<char>,
    b: Seq<char>,
    limit: usize,
)
    requires
        table_of(cats, origin).len() <= usize::MAX,
        tokens_joined(trimmed(both), trimmed(a), trimmed(b)),
        trimmed(both).len() > 0,
        plan_for(
            names_of(table_of(cats, origin)),
            origin == Origin::All,
            trimmed(both),
            TokenMode::All,
        ) != Plan::WholeQuery,
        origin == Origin::All ==> read_by_tokens(trimmed(a)) && read_by_tokens(trimmed(b)),
        selected(cats, origin, both, TokenMode::All).len() <= limit,
        selected(cats, origin, a, TokenMode::All).len() <= limit,
        selected(cats, origin, b, TokenMode::All).len() <= limit,
    ensures
        forall|x: usize| #[trigger]
            result_positions(cats, origin, both, TokenMode::All, limit).contains(x) <==> (
            result_positions(cats, origin, a, TokenMode::All, limit).contains(x)
                && result_positions(cats, origin, b, TokenMode::All, limit).contains(x)),
{
    let names = names_of(table_of(cats, origin));
    let is_all = origin == Origin::All;
    let mode = TokenMode::All;
    law_results_are_the_selected(cats, origin, both, mode, limit);
    law_results_are_the_selected(cats, origin, a, mode, limit);
    law_results_are_the_selected(cats, origin, b, mode, limit);
    lemma_candidates(names, is_all, trimmed(both), mode);
    lemma_candidates(names, is_all, trimmed(a), mode);
    lemma_candidates(names, is_all, trimmed(b), mode);
    assert forall|x: usize| #[trigger]
        result_positions(cats, origin, both, mode, limit).contains(x) <==> (result_positions(
            cats,
            origin,
            a,
            mode,
            limit,
        ).contains(x) && result_positions(cats, origin, b, mode, limit).contains(x)) by {
        if x < names.len() {
            law_all_is_intersection(names, is_all, trimmed(both), trimmed(a), trimmed(b), x as int);
        }
    }
}

/// In mode `All`, the entries returned for two words with a space between
/// them are those returned both for the one word and for the other, in
/// every origin, where the search for the two is not answered with the
/// names that hold the whole query and none of the three searches is cut
/// off by the limit.
///
/// That the space is no letter and no digit, and that trimming leaves the
/// three queries as they are, is asked of the caller: the standard library
/// decides both, and a caller can ask it.
pub proof fn law_two_words_in_mode_all(
    cats: Seq<ColorCatalog>,
    origin: Origin,
    a: Seq<char>,
    b: Seq<char>,
    limit: usize,
)
    requires
        table_of(cats, origin).len() <= usize::MAX,
        is_word(a),
        is_word(b),
        !unicode_alphanumeric(' '),
        trimmed(a) == a,
        trimmed(b) == b,
        trimmed(a.push(' ') + b) == a.push(' ') + b,
        plan_for(
            names_of(table_of(cats, origin)),
            origin == Origin::All,
            a.push(' ') + b,
            TokenMode::All,
        ) != Plan::WholeQuery,
        selected(cats, origin, a.push(' ') + b, TokenMode::All).len() <= limit,
        selected(cats, origin, a, TokenMode::All).len() <= limit,
        selected(cats, origin, b, TokenMode::All).len() <= limit,
    ensures
        forall|x: usize| #[trigger]
            result_positions(cats, origin, a.push(' ') + b, TokenMode::All, limit).contains(x)
                <==> (result_positions(cats, origin, a, TokenMode::All, limit).contains(x)
                && result_positions(cats, origin, b, TokenMode::All, limit).contains(x)),
{
    lemma_two_words(a, ' ', b);
    law_all_results_are_intersection(cats, origin, a.push(' ') + b, a, b, limit);
}

/// In mode `All`, where some name has all tokens of a query of long tokens,
/// the names selected are exactly the names that have every token of the
/// query.
pub proof fn law_all_selects_names_with_every_token(
    names: Seq<Seq<char>>,
    is_all: bool,
    q: Seq<char>,
    i: int,
)
    requires
        0 <= i < names.len(),
        has_long(tokens_of(q)),
        !has_short(tokens_of(q)),
        index_hits(names, tokens_of(q), TokenMode::All),
    ensures
        selects(names, is_all, q, TokenMode::All, i) <==> all_long_in(tokens_of(q), names[i]),
        plan_for(names, is_all, q, TokenMode::All) == Plan::Indexed,
{
    let toks = tokens_of(q);
    lemma_tokens_need_text(q);
    let w = choose|w: int|
        0 <= w < names.len() && passes_long(toks, #[trigger] names[w], TokenMode::All);
    assert forall|t: Seq<char>| #[trigger] toks.contains(t) && is_long(t) implies token_known(
        names,
        t,
    ) by {
        assert(has_token(names[w], t));
    }
    let t0 = choose|t: Seq<char>| #[trigger] toks.contains(t) && is_long(t);
    assert(token_known(names, t0));
}

/// The entries returned for a query in mode `All` are returned for it in
/// mode `Any` too, where mode `All` did not fall back on the whole query
/// after the index found no name with all long tokens, and the search in
/// mode `Any` is not cut off by the limit.
pub proof fn law_any_results_hold_all_results(
    cats: Seq<ColorCatalog>,
    origin: Origin,
    query: Seq<char>,
    limit: usize,
)
    requires
        table_of(cats, origin).len() <= usize::MAX,
        !(has_long(tokens_of(trimmed(query))) && plan_for(
            names_of(table_of(cats, origin)),
            origin == Origin::All,
            trimmed(query),
            TokenMode::All,
        ) == Plan::WholeQuery),
        selected(cats, origin, query, TokenMode::Any).len() <= limit,
    ensures
        forall|x: usize| #[trigger]
            result_positions(cats, origin, query, TokenMode::All, limit).contains(x)
                ==> result_positions(cats, origin, query, TokenMode::Any, limit).contains(x),
{
    let names = names_of(table_of(cats, origin));
    let is_all = origin == Origin::All;
    law_results_are_the_selected(cats, origin, query, TokenMode::All, limit);
    law_results_are_the_selected(cats, origin, query, TokenMode::Any, limit);
    lemma_candidates(names, is_all, trimmed(query), TokenMode::All);
    lemma_candidates(names, is_all, trimmed(query), TokenMode::Any);
    assert forall|x: usize| #[trigger]
        result_positions(cats, origin, query, TokenMode::All, limit).contains(
            x,
        ) implies result_positions(cats, origin, query, TokenMode::Any, limit).contains(x) by {
        assert(selected(cats, origin, query, TokenMode::All).contains(x));
        law_any_selects_what_all_selects(names, is_all, trimmed(query), x as int);
    }
}

/// In mode `Any`, the entries returned for "A B" are those returned for
/// "A" or for "B" in the same origin, where the three queries are answered
/// alike and none of the three searches is cut off by the limit.
pub proof fn law_any_results_are_union(
    cats: Seq<ColorCatalog>,
    origin: Origin,
    both: Seq<char>,
    a: Seq<char>,
    b: Seq<char>,
    limit: usize,
)
    requires
        table_of(cats, origin).len() <= usize::MAX,
        tokens_joined(trimmed(both), trimmed(a), trimmed(b)),
        answered_alike(
            names_of(table_of(cats, origin)),
            origin == Origin::All,
            trimmed(both),
            trimmed(a),
            trimmed(b),
        ),
        selected(cats, origin, both, TokenMode::Any).len() <= limit,
        selected(cats, origin, a, TokenMode::Any).len() <= limit,
        selected(cats, origin, b, TokenMode::Any).len() <= limit,
    ensures
        forall|x: usize| #[trigger]
            result_positions(cats, origin, both, TokenMode::Any, limit).contains(x) <==> (
            result_positions(cats, origin, a, TokenMode::Any, limit).contains(x)
                || result_positions(cats, origin, b, TokenMode::Any, limit).contains(x)),
{
    let names = names_of(table_of(cats, origin));
    let is_all = origin == Origin::All;
    let mode = TokenMode::Any;
    law_results_are_the_selected(cats, origin, both, mode, limit);
    law_results_are_the_selected(cats, origin, a, mode, limit);
    law_results_are_the_selected(cats, origin, b, mode, limit);
    lemma_candidates(names, is_all, trimmed(both), mode);
    lemma_candidates(names, is_all, trimmed(a), mode);
    lemma_candidates(names, is_all, trimmed(b), mode);
    assert forall|x: usize| #[trigger]
        result_positions(cats, origin, both, mode, limit).contains(x) <==> (result_positions(
            cats,
            origin,
            a,
            mode,
            limit,
        ).contains(x) || result_positions(cats, origin, b, mode, limit).contains(x)) by {
        if x < names.len() {
            law_any_is_union(names, is_all, trimmed(both), trimmed(a), trimmed(b), x as int);
        }
    }
}

// ---------------------------------------------------------------------------
// One character
// ---------------------------------------------------------------------------

/// A query of one character selects exactly the names whose lowercase form
/// holds the lowercase character, in every mode: in the origin `All` for
/// every character, in the other origins for every alphanumeric one. The
/// lowercase form of a character is taken to be short, as that of every
/// character is.
///
/// Left out is the character that is no letter and no digit in an origin
/// other than `All`: it is no token, and a query without tokens selects
/// every entry there.
pub proof fn law_single_character(
    names: Seq<Seq<char>>,
    is_all: bool,
    c: char,
    mode: TokenMode,
    i: int,
)
    requires
        0 <= i < names.len(),
        is_all || unicode_alphanumeric(c),
        !is_long(unicode_lowercase(seq![c])),
    ensures
        selects(names, is_all, seq![c], mode, i) <==> lower_contains(
            names[i],
            unicode_lowercase(seq![c]),
        ),
{
    let q = seq![c];
    let toks = tokens_of(q);
    let lc = unicode_lowercase(q);
    assert(Seq::<char>::empty().push(q[0]) =~= seq![c]);
    if unicode_alphanumeric(c) {
        assert(words_from(q, 1, seq![c]) == seq![seq![c]]);
        assert(words(q) == seq![seq![c]]);
        assert(toks =~= seq![lc]);
        assert(toks[0] == lc);
        assert(toks.contains(lc));
        assert(has_short(toks));
    } else {
        assert(words_from(q, 1, seq![]) =~= Seq::<Seq<char>>::empty());
        assert(words(q) =~= Seq::<Seq<char>>::empty());
        assert(toks.len() == 0);
    }
    assert forall|t: Seq<char>| #[trigger] toks.contains(t) implies t == lc by {
        let k = choose|k: int| 0 <= k < toks.len() && toks[k] == t;
    }
    assert(!has_long(toks)) by {
        if has_long(toks) {
            let t = choose|t: Seq<char>| #[trigger] toks.contains(t) && is_long(t);
        }
    }
    let name = names[i];
    if any_short_in(toks, name) {
        let t = choose|t: Seq<char>| #[trigger]
            toks.contains(t) && !is_long(t) && lower_contains(name, t);
    }
}

// ---------------------------------------------------------------------------
// A name finds its own entry
// ---------------------------------------------------------------------------

/// What holds of a name as the standard library trims, splits and
/// lowercases it: trimming adds no token, every short token of the trimmed
/// name occurs in the lowercase name, and so does the lowercase form of
/// the trimmed name.
pub open spec fn name_reads_as_itself(name: Seq<char>) -> bool {
    let q = trimmed(name);
    &&& forall|t: Seq<char>| #[trigger] tokens_of(q).contains(t) ==> tokens_of(name).contains(t)
    &&& forall|t: Seq<char>| #[trigger]
        tokens_of(q).contains(t) && !is_long(t) ==> lower_contains(name, t)
    &&& lower_contains(name, unicode_lowercase(q))
}

/// A search in mode `Any` for a name of the table, copied as it stands,
/// selects the entry of that name. Left out are the names that are blank,
/// which the origin `All` answers with nothing.
pub proof fn law_name_selects_its_entry(names: Seq<Seq<char>>, is_all: bool, i: int)
    requires
        0 <= i < names.len(),
        name_reads_as_itself(names[i]),
        !(is_all && trimmed(names[i]).len() == 0),
    ensures
        selects(names, is_all, trimmed(names[i]), TokenMode::Any, i),
{
    let name = names[i];
    let q = trimmed(name);
    let toks = tokens_of(q);
    let mode = TokenMode::Any;
    lemma_tokens_need_text(q);
    if q.len() == 0 {
    } else if !has_long(toks) {
        if !is_all && has_short(toks) {
            let s = choose|t: Seq<char>| #[trigger] toks.contains(t) && !is_long(t);
            assert(lower_contains(name, s));
            assert(any_short_in(toks, name));
        }
    } else {
        let t0 = choose|t: Seq<char>| #[trigger] toks.contains(t) && is_long(t);
        assert(has_token(name, t0));
        assert(token_known(names, t0));
        assert(any_long_known(names, toks));
        assert(any_long_in(toks, name));
        assert(passes_long(toks, names[i], mode));
        assert(index_hits(names, toks, mode));
        assert(plan_for(names, is_all, q, mode) == Plan::Indexed);
        if has_short(toks) {
            let s = choose|t: Seq<char>| #[trigger] toks.contains(t) && !is_long(t);
            assert(lower_contains(name, s));
            assert(any_short_in(toks, name));
        }
    }
}

/// A search in mode `Any` for a name of the origin's table returns the
/// entry of that name, where the search selects no more positions than the
/// limit.
pub proof fn law_name_finds_its_entry(
    cats: Seq<ColorCatalog>,
    origin: Origin,
    i: int,
    limit: usize,
)
    requires
        0 <= i < table_of(cats, origin).len(),
        table_of(cats, origin).len() <= usize::MAX,
        name_reads_as_itself(table_of(cats, origin)[i].1@),
        !(origin == Origin::All && trimmed(table_of(cats, origin)[i].1@).len() == 0),
        candidates(
            names_of(table_of(cats, origin)),
            origin == Origin::All,
            trimmed(table_of(cats, origin)[i].1@),
            TokenMode::Any,
        ).len() <= limit,
    ensures
        result_positions(
            cats,
            origin,
            table_of(cats, origin)[i].1@,
            TokenMode::Any,
            limit,
        ).contains(i as usize),
{
    let es = table_of(cats, origin);
    let names = names_of(es);
    let is_all = origin == Origin::All;
    let name = es[i].1@;
    assert(names[i] == name);
    law_name_selects_its_entry(names, is_all, i);
    lemma_candidates(names, is_all, trimmed(name), TokenMode::Any);
    law_results_are_the_selected(cats, origin, name, TokenMode::Any, limit);
}

/// A name without whitespace around it and without short tokens is
/// selected by itself in mode `Any`, whatever the standard library makes of
/// its characters. Left out is the empty name among all origins.
pub proof fn law_plain_name_selects_its_entry(names: Seq<Seq<char>>, is_all: bool, i: int)
    requires
        0 <= i < names.len(),
        trimmed(names[i]) == names[i],
        !has_short(tokens_of(names[i])),
        !(is_all && names[i].len() == 0),
    ensures
        selects(names, is_all, names[i], TokenMode::Any, i),
{
    let name = names[i];
    let lc = unicode_lowercase(name);
    assert(crate::text::occurs_at(lc, lc, 0)) by {
        assert(lc.subrange(0, lc.len() as int) =~= lc);
    }
    assert(name_reads_as_itself(name));
    law_name_selects_its_entry(names, is_all, i);
}

/// Among all origins, a search in mode `Any` for a name, copied as it
/// stands, returns the entry of that name first, where no other entry has
/// the same lowercase name. The name has no whitespace around it and is not
/// empty.
pub proof fn law_unique_name_comes_first(cats: Seq<ColorCatalog>, i: usize, limit: usize)
    requires
        limit > 0,
        combined_of(cats).len() <= usize::MAX,
        i < combined_of(cats).len(),
        trimmed(combined_of(cats)[i as int].1@) == combined_of(cats)[i as int].1@,
        combined_of(cats)[i as int].1@.len() > 0,
        name_reads_as_itself(combined_of(cats)[i as int].1@),
        forall|j: int|
            0 <= j < combined_of(cats).len() && j != i ==> unicode_lowercase(
                #[trigger] combined_of(cats)[j].1@,
            ) != unicode_lowercase(combined_of(cats)[i as int].1@),
    ensures
        search_results(
            cats,
            Origin::All,
            combined_of(cats)[i as int].1@,
            TokenMode::Any,
            limit,
        ).len() > 0,
        search_results(cats, Origin::All, combined_of(cats)[i as int].1@, TokenMode::Any, limit)[0]
            == combined_of(cats)[i as int],
{
    let all = combined_of(cats);
    let names = names_of(all);
    let name = all[i as int].1@;
    assert(names[i as int] == name);
    law_name_selects_its_entry(names, true, i as int);
    lemma_candidates(names, true, trimmed(name), TokenMode::Any);
    let c = candidates(names, true, trimmed(name), TokenMode::Any);
    assert(c.contains(i));
    assert forall|j: usize| j != i && #[trigger] c.contains(j) implies exact_flag(
        all[j as int].1@,
        unicode_lowercase(trimmed(name)),
    ) == 1 by {
        assert(j < names.len());
    }
    law_exact_match_first(cats, name, TokenMode::Any, limit, i);
    let r = result_positions(cats, Origin::All, name, TokenMode::Any, limit);
    assert(search_results(cats, Origin::All, name, TokenMode::Any, limit)[0] == all[r[0] as int]);
}

/// In the origin `All`, a selected entry whose name is the query up to the
/// case of ASCII letters, and the only selected one of which that holds, is
/// returned first.
pub proof fn law_exact_match_first(
    cats: Seq<ColorCatalog>,
    query: Seq<char>,
    mode: TokenMode,
    limit: usize,
    i: usize,
)
    requires
        limit > 0,
        combined_of(cats).len() <= usize::MAX,
        candidates(names_of(combined_of(cats)), true, trimmed(query), mode).contains(i),
        exact_flag(combined_of(cats)[i as int].1@, unicode_lowercase(trimmed(query))) == 0,
        forall|j: usize|
            j != i && #[trigger] candidates(
                names_of(combined_of(cats)),
                true,
                trimmed(query),
                mode,
            ).contains(j) ==> exact_flag(
                combined_of(cats)[j as int].1@,
                unicode_lowercase(trimmed(query)),
            ) == 1,
    ensures
        result_positions(cats, Origin::All, query, mode, limit).len() > 0,
        result_positions(cats, Origin::All, query, mode, limit)[0] == i,
        search_results(cats, Origin::All, query, mode, limit)[0] == combined_of(cats)[i as int],
{
    let all = combined_of(cats);
    let names = names_of(all);
    let q = trimmed(query);
    let qlc = unicode_lowercase(q);
    let c = candidates(names, true, q, mode);
    lemma_candidates(names, true, q, mode);
    let p = choose|p: int| 0 <= p < c.len() && c[p] == i;
    let es = entries_at(all, c);
    let keys = rank_keys(cats, qlc, es);
    assert(keys[p] == rank_key(cats, qlc, all[i as int]));
    assert forall|x: usize| x < c.len() && x != p implies key_lt(
        keys[p],
        #[trigger] keys[x as int],
    ) by {
        assert(c.contains(c[x as int]));
        if x < p {
            assert(c[x as int] < c[p]);
        } else {
            assert(c[p] < c[x as int]);
        }
        assert(keys[x as int] == rank_key(cats, qlc, all[c[x as int] as int]));
    }
    lemma_positions_where(names.len(), |k: int| selects(names, true, q, mode, k));
    lemma_least_key_first(keys, c.len(), p as usize);
    lemma_sorted_positions(keys, c.len());
    let ranked = ranked_positions(cats, qlc, c);
    assert(ranked[0] == i);
    let r = result_positions(cats, Origin::All, query, mode, limit);
    assert(r == capped(ranked, limit));
    assert(r[0] == i);
}

/// The entries of `All` are returned in the order of their keys: of two
/// returned entries, the key of the later one does not come before the key
/// of the earlier one.
pub proof fn law_results_are_ranked(
    cats: Seq<ColorCatalog>,
    query: Seq<char>,
    mode: TokenMode,
    limit: usize,
    a: int,
    b: int,
)
    requires
        combined_of(cats).len() <= usize::MAX,
        0 <= a < b < search_results(cats, Origin::All, query, mode, limit).len(),
    ensures
        !key_lt(
            rank_key(
                cats,
                unicode_lowercase(trimmed(query)),
                search_results(cats, Origin::All, query, mode, limit)[b],
            ),
            rank_key(
                cats,
                unicode_lowercase(trimmed(query)),
                search_results(cats, Origin::All, query, mode, limit)[a],
            ),
        ),
{
    let all = combined_of(cats);
    let names = names_of(all);
    let q = trimmed(query);
    let qlc = unicode_lowercase(q);
    let c = candidates(names, true, q, mode);
    lemma_positions_where(names.len(), |k: int| selects(names, true, q, mode, k));
    let es = entries_at(all, c);
    let keys = rank_keys(cats, qlc, es);
    let order = sorted_positions(keys, c.len());
    lemma_sorted_positions(keys, c.len());
    let ranked = ranked_positions(cats, qlc, c);
    let r = result_positions(cats, Origin::All, query, mode, limit);
    assert(r == capped(ranked, limit));
    assert(r[a] == ranked[a] && r[b] == ranked[b]);
    assert(order.contains(order[a]) && order.contains(order[b]));
    assert(crate::sorting::placed_before(keys, order[a], order[b]));
    assert(keys[order[a] as int] == rank_key(cats, qlc, all[c[order[a] as int] as int]));
    assert(keys[order[b] as int] == rank_key(cats, qlc, all[c[order[b] as int] as int]));
    if key_lt(keys[order[a] as int], keys[order[b] as int]) {
        crate::sorting::lemma_key_lt_asymmetric(keys[order[a] as int], keys[order[b] as int]);
    }
}

// ---------------------------------------------------------------------------
// The picker
// ---------------------------------------------------------------------------

/// In the picker, a name query of one character against all origins
/// together lists nothing and closes the dropdown.
pub proof fn law_picker_holds_short_queries_back(
    cats: Seq<ColorCatalog>,
    s: crate::picker::PickerView,
    query: Seq<char>,
    limit: usize,
)
    requires
        s.selected_origin == Origin::All,
        trimmed(query).len() == 1,
        crate::hex::hex_query(trimmed(query)) is None,
    ensures
        crate::picker::with_query(cats, s, query, limit).results_idx.len() == 0,
        !crate::picker::with_query(cats, s, query, limit).dropdown_open,
        crate::picker::with_query(cats, s, query, limit).sel_pos is None,
{
}

/// The picker never lists more rows for a query than the dropdown has, and
/// no more than the registry's limit.
pub proof fn law_picker_rows_within_limit(
    cats: Seq<ColorCatalog>,
    s: crate::picker::PickerView,
    query: Seq<char>,
    limit: usize,
)
    requires
        trimmed(query).len() > 0,
    ensures
        crate::picker::with_query(cats, s, query, limit).results_idx.len()
            <= crate::picker::DROPDOWN_ROWS,
{
}

/// Moving the selection keeps it on a row of the list.
pub proof fn law_selection_stays_on_a_row(s: crate::picker::PickerView, delta: int)
    requires
        s.results_idx.len() > 0,
        s.results_idx.len() <= usize::MAX,
    ensures
        crate::picker::with_selection_moved(s, delta).sel_pos is Some,
        crate::picker::with_selection_moved(s, delta).sel_pos->0 < s.results_idx.len(),
{
    let cur: int = match s.sel_pos {
        Some(p) => p as int,
        None => 0,
    };
    vstd::arithmetic::div_mod::lemma_mod_bound(cur + delta, s.results_idx.len() as int);
}

} // verus!
