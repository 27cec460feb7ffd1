//! The token index of a colour table: for every token of every name, the
//! positions of the entries whose name has that token.

use vstd::prelude::*;
use crate::color_types::{ColorName, HexCode, names_of};
use crate::postings::{lemma_posting_list_unique, lemma_push_members, strictly_increasing};
use crate::text::{chars_eq, chars_of};
use crate::tokens::{texts, tokenize, tokens_of};

verus! {

/// The positions below `n` of which `pred` holds, ascending.
pub open spec fn positions_where(n: nat, pred: spec_fn(int) -> bool) -> Seq<usize>
    decreases n,
{
    if n == 0 {
        seq![]
    } else {
        let rest = positions_where((n - 1) as nat, pred);
        if pred(n - 1) {
            rest.push((n - 1) as usize)
        } else {
            rest
        }
    }
}

/// `positions_where` lists exactly the positions of which `pred` holds, in
/// ascending order.
pub proof fn lemma_positions_where(n: nat, pred: spec_fn(int) -> bool)
    requires
        n <= usize::MAX,
    ensures
        strictly_increasing(positions_where(n, pred)),
        forall|x: usize| #[trigger] positions_where(n, pred).contains(x) <==> (x < n && pred(x as int)),
        positions_where(n, pred).len() <= n,
    decreases n,
{
    let s = positions_where(n, pred);
    if n == 0 {
        assert forall|x: usize| #[trigger] s.contains(x) <==> (x < n && pred(x as int)) by {
            if s.contains(x) {
                let k = choose|k: int| 0 <= k < s.len() && s[k] == x;
            }
        }
    } else {
        let rest = positions_where((n - 1) as nat, pred);
        lemma_positions_where((n - 1) as nat, pred);
        if pred(n - 1) {
            lemma_push_members(rest, (n - 1) as usize);
            assert forall|i: int, j: int| 0 <= i < j < s.len() implies s[i] < s[j] by {
                assert(rest.contains(rest[i]));
                if j < rest.len() {
                    assert(s[j] == rest[j]);
                }
            }
            assert forall|x: usize| #[trigger] s.contains(x) <==> (x < n && pred(x as int)) by {
                assert(rest.contains(x) <==> (x < n - 1 && pred(x as int)));
                assert(s.contains(x) <==> (rest.contains(x) || x == (n - 1) as usize));
            }
        } else {
            assert forall|x: usize| #[trigger] s.contains(x) <==> (x < n && pred(x as int)) by {
                assert(rest.contains(x) <==> (x < n - 1 && pred(x as int)));
            }
        }
    }
}

/// An ascending list that holds exactly the positions of which `pred` holds
/// is `positions_where`.
pub proof fn lemma_positions_where_unique(s: Seq<usize>, n: nat, pred: spec_fn(int) -> bool)
    requires
        n <= usize::MAX,
        strictly_increasing(s),
        forall|x: usize| #[trigger] s.contains(x) <==> (x < n && pred(x as int)),
    ensures
        s == positions_where(n, pred),
{
    lemma_positions_where(n, pred);
    lemma_posting_list_unique(s, positions_where(n, pred));
}

/// Every position below `n`, ascending.
pub open spec fn all_positions(n: nat) -> Seq<usize> {
    Seq::new(n, |i: int| i as usize)
}

/// Every position below `n`, ascending.
pub fn positions_upto(n: usize) -> (r: Vec<usize>)
    ensures
        r@ == all_positions(n as nat),
        r.len() == n,
        strictly_increasing(r@),
        forall|x: usize| #[trigger] r@.contains(x) <==> x < n,
{
    let mut out: Vec<usize> = Vec::new();
    let mut i: usize = 0;
    while i < n
        invariant
            i <= n,
            out.len() == i,
            forall|k: int| 0 <= k < i ==> #[trigger] out@[k] == k,
        decreases n - i,
    {
        out.push(i);
        i += 1;
    }
    proof {
        assert(out@ =~= all_positions(n as nat));
        assert forall|x: usize| #[trigger] out@.contains(x) <==> x < n by {
            if x < n {
                assert(out@[x as int] == x);
            }
        }
    }
    out
}

/// The name has the token.
pub open spec fn has_token(name: Seq<char>, t: Seq<char>) -> bool {
    tokens_of(name).contains(t)
}

/// The positions of the names that have the token, ascending.
pub open spec fn posting_list(names: Seq<Seq<char>>, t: Seq<char>) -> Seq<usize> {
    positions_where(names.len(), |i: int| has_token(names[i], t))
}

/// The posting list of a token holds exactly the positions of the names that
/// have the token, ascending.
pub proof fn lemma_posting_list(names: Seq<Seq<char>>, t: Seq<char>)
    requires
        names.len() <= usize::MAX,
    ensures
        strictly_increasing(posting_list(names, t)),
        forall|x: usize| #[trigger]
            posting_list(names, t).contains(x) <==> (x < names.len() && has_token(
                names[x as int],
                t,
            )),
{
    lemma_positions_where(names.len(), |i: int| has_token(names[i], t));
}

/// Some name has the token.
pub open spec fn token_known(names: Seq<Seq<char>>, t: Seq<char>) -> bool {
    exists|i: int| 0 <= i < names.len() && has_token(names[i], t)
}

/// What a vector of posting lists holds.
pub open spec fn lists(v: Seq<Vec<usize>>) -> Seq<Seq<usize>> {
    v.map_values(|l: Vec<usize>| l@)
}

/// The state of an index under construction: complete for the names before
/// position `i`, and holding position `i` under the tokens in `seen`.
pub open spec fn partial_index(
    tokens: Seq<Seq<char>>,
    postings: Seq<Seq<usize>>,
    names: Seq<Seq<char>>,
    i: int,
    seen: Seq<Seq<char>>,
) -> bool {
    &&& tokens.len() == postings.len()
    &&& 0 <= i <= names.len()
    &&& forall|s: int|
        0 <= s < postings.len() ==> strictly_increasing(#[trigger] postings[s]) && postings[s].len()
            > 0
    &&& forall|s: int, x: usize|
        0 <= s < postings.len() ==> (#[trigger] postings[s].contains(x) <==> ((x < i && has_token(
            names[x as int],
            tokens[s],
        )) || (x == i && seen.contains(tokens[s]))))
    &&& forall|s1: int, s2: int|
        0 <= s1 < tokens.len() && 0 <= s2 < tokens.len() && s1 != s2 ==> #[trigger] tokens[s1]
            != #[trigger] tokens[s2]
    &&& forall|x: int, t: Seq<char>|
        0 <= x < i && #[trigger] has_token(names[x], t) ==> tokens.contains(t)
    &&& forall|t: Seq<char>| #[trigger] seen.contains(t) ==> tokens.contains(t)
}

/// A token index: tokens, each with its posting list.
///
/// The tokens stand in a table of their own that is searched from the
/// front. A hashed map keyed by strings would do the same work, but what a
/// lookup in it returns could not be proved; here it is.
pub struct TokenIndex {
    tokens: Vec<Vec<char>>,
    postings: Vec<Vec<usize>>,
    names: Ghost<Seq<Seq<char>>>,
}

impl TokenIndex {
    #[verifier::type_invariant]
    spec fn well_formed(self) -> bool {
        &&& self.names@.len() <= usize::MAX
        &&& partial_index(
            texts(self.tokens@),
            lists(self.postings@),
            self.names@,
            self.names@.len() as int,
            seq![],
        )
    }

    /// The names that are indexed, in the order of their positions.
    pub closed spec fn names(self) -> Seq<Seq<char>> {
        self.names@
    }

    /// The posting list of a token: the positions of the names that have it,
    /// ascending; `None` where no name has it.
    pub fn lookup(&self, token: &[char]) -> (r: Option<&Vec<usize>>)
        ensures
            r is Some <==> token_known(self.names(), token@),
            r is Some ==> r->0@ == posting_list(self.names(), token@) && r->0@.len() > 0,
    {
        proof {
            use_type_invariant(self);
        }
        let ghost names = self.names@;
        let ghost toks = texts(self.tokens@);
        let ghost posts = lists(self.postings@);
        match find_token(&self.tokens, token) {
            Some(s) => {
                let list = &self.postings[s];
                proof {
                    assert(posts[s as int] == list@);
                    let pred = |i: int| has_token(names[i], token@);
                    assert forall|x: usize| #[trigger]
                        list@.contains(x) <==> (x < names.len() && pred(x as int)) by {
                        assert(posts[s as int].contains(x) <==> ((x < names.len() && has_token(
                            names[x as int],
                            toks[s as int],
                        )) || (x == names.len() && Seq::<Seq<char>>::empty().contains(
                            toks[s as int],
                        ))));
                    }
                    lemma_positions_where_unique(list@, names.len(), pred);
                    assert(list@.contains(list@[0]));
                    assert(has_token(names[list@[0] as int], token@));
                }
                Some(list)
            },
            None => {
                proof {
                    if token_known(names, token@) {
                        let x = choose|x: int| 0 <= x < names.len() && has_token(names[x], token@);
                        assert(toks.contains(token@));
                        let k = choose|k: int| 0 <= k < toks.len() && toks[k] == token@;
                        assert(false);
                    }
                }
                None
            },
        }
    }
}

/// The slot that holds the token, if one does.
fn find_token(tokens: &Vec<Vec<char>>, token: &[char]) -> (r: Option<usize>)
    ensures
        match r {
            Some(s) => s < tokens.len() && texts(tokens@)[s as int] == token@,
            None => forall|k: int| 0 <= k < tokens.len() ==> #[trigger] texts(tokens@)[k] != token@,
        },
{
    let mut s: usize = 0;
    while s < tokens.len()
        invariant
            s <= tokens.len(),
            forall|k: int| 0 <= k < s ==> #[trigger] texts(tokens@)[k] != token@,
        decreases tokens.len() - s,
    {
        if chars_eq(tokens[s].as_slice(), token) {
            return Some(s);
        }
        s += 1;
    }
    None
}

/// What a list of texts holds after one more text is appended.
pub proof fn lemma_contains_after_push(s: Seq<Seq<char>>, v: Seq<char>)
    ensures
        forall|t: Seq<char>| #[trigger] s.push(v).contains(t) <==> (s.contains(t) || t == v),
{
    assert forall|t: Seq<char>| #[trigger] s.push(v).contains(t) <==> (s.contains(t) || t == v) by {
        if s.push(v).contains(t) {
            let k = choose|k: int| 0 <= k < s.push(v).len() && s.push(v)[k] == t;
            if k < s.len() {
                assert(s[k] == t);
            }
        }
        if s.contains(t) {
            let k = choose|k: int| 0 <= k < s.len() && s[k] == t;
            assert(s.push(v)[k] == t);
        }
        if t == v {
            assert(s.push(v)[s.len() as int] == t);
        }
    }
}

/// Records that the name at position `i` has the token `tok`.
fn add_posting(
    tokens: &mut Vec<Vec<char>>,
    postings: &mut Vec<Vec<usize>>,
    tok: Vec<char>,
    i: usize,
    Ghost(names): Ghost<Seq<Seq<char>>>,
    Ghost(seen): Ghost<Seq<Seq<char>>>,
)
    requires
        partial_index(texts(old(tokens)@), lists(old(postings)@), names, i as int, seen),
        i < names.len(),
    ensures
        partial_index(
            texts(final(tokens)@),
            lists(final(postings)@),
            names,
            i as int,
            seen.push(tok@),
        ),
{
    let ghost toks0 = texts(tokens@);
    let ghost posts0 = lists(postings@);
    let ghost seen1 = seen.push(tok@);
    proof {
        lemma_contains_after_push(seen, tok@);
    }
    let found = find_token(tokens, tok.as_slice());
    if let Some(s) = found {
        proof {
            assert(toks0[s as int] == tok@);
            assert(posts0[s as int] == postings@[s as int]@);
            assert(toks0.contains(tok@));
        }
        let n = postings[s].len();
        if postings[s][n - 1] != i {
            let ghost before = postings@[s as int]@;
            proof {
                assert(before.contains(before[n - 1]));
                assert(posts0[s as int].contains(before[n - 1]));
                assert(before[n - 1] < i);
                lemma_push_members(before, i);
            }
            postings[s].push(i);
            proof {
                let posts1 = lists(postings@);
                let after = before.push(i);
                assert(posts1[s as int] == after);
                assert(strictly_increasing(after)) by {
                    assert forall|a: int, b: int| 0 <= a < b < after.len() implies after[a]
                        < after[b] by {
                        if b == n {
                            if a < n - 1 {
                                assert(before[a] < before[n - 1]);
                            }
                        } else {
                            assert(before[a] < before[b]);
                        }
                    }
                }
                assert forall|k: int| 0 <= k < posts1.len() implies strictly_increasing(
                    #[trigger] posts1[k],
                ) && posts1[k].len() > 0 by {
                    if k != s {
                        assert(posts1[k] == posts0[k]);
                    }
                }
                assert forall|k: int, x: usize| 0 <= k < posts1.len() implies (
                #[trigger] posts1[k].contains(x) <==> ((x < i && has_token(
                    names[x as int],
                    toks0[k],
                )) || (x == i && seen1.contains(toks0[k])))) by {
                    if k != s {
                        assert(posts1[k] == posts0[k]);
                        assert(toks0[k] != toks0[s as int]);
                    } else {
                        assert(posts0[k].contains(x) <==> before.contains(x));
                    }
                }
            }
        } else {
            proof {
                let list = postings@[s as int]@;
                assert(list.contains(list[n - 1]));
                assert(posts0[s as int].contains(i));
                assert(seen.contains(tok@));
                assert forall|k: int, x: usize| 0 <= k < posts0.len() implies (
                #[trigger] posts0[k].contains(x) <==> ((x < i && has_token(
                    names[x as int],
                    toks0[k],
                )) || (x == i && seen1.contains(toks0[k])))) by {
                    if k != s {
                        assert(toks0[k] != toks0[s as int]);
                    }
                }
            }
        }
        return ;
    }
    let ghost tokv = tok@;
    tokens.push(tok);
    let mut list: Vec<usize> = Vec::new();
    list.push(i);
    postings.push(list);
    proof {
        let toks1 = texts(tokens@);
        let posts1 = lists(postings@);
        assert(toks1 =~= toks0.push(tokv));
        assert(posts1 =~= posts0.push(seq![i]));
        lemma_contains_after_push(toks0, tokv);
        assert forall|k: int| 0 <= k < posts1.len() implies strictly_increasing(
            #[trigger] posts1[k],
        ) && posts1[k].len() > 0 by {
            if k < posts0.len() {
                assert(posts1[k] == posts0[k]);
            }
        }
        assert forall|k: int, x: usize| 0 <= k < posts1.len() implies (#[trigger] posts1[k].contains(
            x,
        ) <==> ((x < i && has_token(names[x as int], toks1[k])) || (x == i && seen1.contains(
            toks1[k],
        )))) by {
            if k < posts0.len() {
                assert(posts1[k] == posts0[k]);
                assert(toks1[k] == toks0[k]);
                assert(toks0[k] != tokv);
            } else {
                assert(posts1[k] == seq![i]);
                assert(toks1[k] == tokv);
                if posts1[k].contains(x) {
                    let m = choose|m: int| 0 <= m < posts1[k].len() && posts1[k][m] == x;
                    assert(x == i);
                }
                if x == i {
                    assert(posts1[k][0] == x);
                }
                if x < i && has_token(names[x as int], tokv) {
                    assert(toks0.contains(tokv));
                    let m = choose|m: int| 0 <= m < toks0.len() && toks0[m] == tokv;
                    assert(false);
                }
            }
        }
        assert forall|s1: int, s2: int|
            0 <= s1 < toks1.len() && 0 <= s2 < toks1.len() && s1 != s2 implies #[trigger] toks1[s1]
                != #[trigger] toks1[s2] by {
            if s1 < toks0.len() && s2 < toks0.len() {
                assert(toks0[s1] != toks0[s2]);
            } else if s1 < toks0.len() {
                assert(toks0[s1] != tokv);
            } else {
                assert(toks0[s2] != tokv);
            }
        }
    }
}

/// Builds the token index of a table's names.
pub fn build_token_index_for(slice: &[(HexCode, ColorName)]) -> (idx: TokenIndex)
    ensures
        idx.names() == names_of(slice@),
{
    let ghost names = names_of(slice@);
    let mut tokens: Vec<Vec<char>> = Vec::new();
    let mut postings: Vec<Vec<usize>> = Vec::new();
    let mut i: usize = 0;
    while i < slice.len()
        invariant
            i <= slice.len(),
            names == names_of(slice@),
            partial_index(texts(tokens@), lists(postings@), names, i as int, seq![]),
        decreases slice.len() - i,
    {
        let name = chars_of(slice[i].1.as_str());
        let mut toks = tokenize(name.as_slice());
        let ghost all = texts(toks@);
        proof {
            assert(names[i as int] == name@);
            assert(all == tokens_of(names[i as int]));
        }
        let ghost mut seen: Seq<Seq<char>> = seq![];
        let mut k: usize = toks.len();
        // Tokens are taken from the back; the index does not depend on the order.
        while k > 0
            invariant
                k == toks.len(),
                k <= all.len(),
                i < slice.len(),
                names == names_of(slice@),
                texts(toks@) == all.take(k as int),
                partial_index(texts(tokens@), lists(postings@), names, i as int, seen),
                forall|t: Seq<char>|
                    #[trigger] seen.contains(t) <==> (exists|m: int|
                        k <= m < all.len() && all[m] == t),
            decreases k,
        {
            let tok = toks.pop().unwrap();
            proof {
                assert(texts(toks@) =~= all.take(k - 1));
                assert(all.take(k as int)[k - 1] == tok@);
                lemma_contains_after_push(seen, tok@);
            }
            add_posting(&mut tokens, &mut postings, tok, i, Ghost(names), Ghost(seen));
            proof {
                let seen1 = seen.push(tok@);
                assert forall|t: Seq<char>| #[trigger]
                    seen1.contains(t) <==> (exists|m: int| k - 1 <= m < all.len() && all[m] == t) by {
                    if seen1.contains(t) {
                        if t == tok@ {
                            assert(all[k - 1] == t);
                        } else {
                            let m = choose|m: int| k <= m < all.len() && all[m] == t;
                            assert(k - 1 <= m < all.len() && all[m] == t);
                        }
                    }
                    if exists|m: int| k - 1 <= m < all.len() && all[m] == t {
                        let m = choose|m: int| k - 1 <= m < all.len() && all[m] == t;
                        if m >= k {
                            assert(seen.contains(t));
                        }
                    }
                }
                seen = seen1;
            }
            k -= 1;
        }
        proof {
            // every token of the name has been seen
            assert forall|t: Seq<char>| #[trigger] seen.contains(t) <==> has_token(
                names[i as int],
                t,
            ) by {
                if has_token(names[i as int], t) {
                    let m = choose|m: int| 0 <= m < all.len() && all[m] == t;
                    assert(0 <= m < all.len() && all[m] == t);
                }
            }
            let tk = texts(tokens@);
            let ps = lists(postings@);
            assert forall|s: int, x: usize| 0 <= s < ps.len() implies (#[trigger] ps[s].contains(x)
                <==> ((x < i + 1 && has_token(names[x as int], tk[s])) || (x == i + 1
                && Seq::<Seq<char>>::empty().contains(tk[s])))) by {
                assert(ps[s].contains(x) <==> ((x < i && has_token(names[x as int], tk[s])) || (x
                    == i && seen.contains(tk[s]))));
            }
            assert forall|x: int, t: Seq<char>| 0 <= x < i + 1 && #[trigger] has_token(
                names[x],
                t,
            ) implies tk.contains(t) by {
                if x == i {
                    assert(seen.contains(t));
                }
            }
        }
        i += 1;
    }
    TokenIndex { tokens, postings, names: Ghost(names) }
}

} // verus!
