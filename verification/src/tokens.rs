//! Tokens: the lowercase alphanumeric words of a name or of a query.

use vstd::prelude::*;
use crate::text::{
    chars_of, is_alphanumeric, lowercase, string_of, unicode_alphanumeric, unicode_lowercase,
};

verus! {

/// Tokens with at least this many characters are looked up in the token
/// index; shorter ones are matched as substrings of the lowercase name.
pub const SUBSTRING_THRESHOLD: usize = 3;

/// The words of `s` from position `i` on, where `cur` holds the characters of
/// the word that is being read. A word is a maximal run of alphanumeric
/// characters; every other character separates words.
pub open spec fn words_from(s: Seq<char>, i: int, cur: Seq<char>) -> Seq<Seq<char>>
    decreases s.len() - i,
{
    if i < 0 || i >= s.len() {
        if cur.len() > 0 {
            seq![cur]
        } else {
            seq![]
        }
    } else if unicode_alphanumeric(s[i]) {
        words_from(s, i + 1, cur.push(s[i]))
    } else if cur.len() > 0 {
        seq![cur] + words_from(s, i + 1, seq![])
    } else {
        words_from(s, i + 1, seq![])
    }
}

/// The words of `s`, in order.
pub open spec fn words(s: Seq<char>) -> Seq<Seq<char>> {
    words_from(s, 0, seq![])
}

/// The tokens of `s`: its words, each in lowercase.
pub open spec fn tokens_of(s: Seq<char>) -> Seq<Seq<char>> {
    lowercase_each(words(s))
}

/// Each of the given words in lowercase.
pub open spec fn lowercase_each(ws: Seq<Seq<char>>) -> Seq<Seq<char>> {
    ws.map_values(|w: Seq<char>| unicode_lowercase(w))
}

/// A token long enough for the token index.
pub open spec fn is_long(t: Seq<char>) -> bool {
    t.len() >= SUBSTRING_THRESHOLD
}

/// What a vector of character vectors holds, as texts.
pub open spec fn texts(v: Seq<Vec<char>>) -> Seq<Seq<char>> {
    v.map_values(|x: Vec<char>| x@)
}

/// What a vector of strings holds, as texts.
pub open spec fn string_texts(v: Seq<String>) -> Seq<Seq<char>> {
    v.map_values(|x: String| x@)
}

/// Every word is a non-empty run of alphanumeric characters, provided the
/// word being read is one.
pub proof fn lemma_words_from_alphanumeric(s: Seq<char>, i: int, cur: Seq<char>)
    requires
        0 <= i,
        forall|k: int| 0 <= k < cur.len() ==> unicode_alphanumeric(#[trigger] cur[k]),
    ensures
        forall|w: int|
            0 <= w < words_from(s, i, cur).len() ==> {
                let word = #[trigger] words_from(s, i, cur)[w];
                &&& word.len() > 0
                &&& forall|k: int| 0 <= k < word.len() ==> unicode_alphanumeric(#[trigger] word[k])
            },
    decreases s.len() - i,
{
    let all = words_from(s, i, cur);
    if i >= s.len() {
        if cur.len() > 0 {
            assert(all == seq![cur]);
            assert(all[0] == cur);
        } else {
            assert(all.len() == 0);
        }
    } else if unicode_alphanumeric(s[i]) {
        let next = cur.push(s[i]);
        assert forall|k: int| 0 <= k < next.len() implies unicode_alphanumeric(
            #[trigger] next[k],
        ) by {
            if k < cur.len() {
                assert(next[k] == cur[k]);
            }
        }
        lemma_words_from_alphanumeric(s, i + 1, next);
        assert(all == words_from(s, i + 1, next));
    } else {
        lemma_words_from_alphanumeric(s, i + 1, seq![]);
        let rest = words_from(s, i + 1, seq![]);
        if cur.len() > 0 {
            assert(all == seq![cur] + rest);
            assert forall|w: int| 0 <= w < all.len() implies {
                let word = #[trigger] all[w];
                &&& word.len() > 0
                &&& forall|k: int| 0 <= k < word.len() ==> unicode_alphanumeric(#[trigger] word[k])
            } by {
                if w > 0 {
                    assert(all[w] == rest[w - 1]);
                } else {
                    assert(all[w] == cur);
                }
            }
        } else {
            assert(all == rest);
        }
    }
}

/// Every word of a text is a non-empty run of alphanumeric characters.
pub proof fn lemma_words_alphanumeric(s: Seq<char>)
    ensures
        forall|w: int|
            0 <= w < words(s).len() ==> {
                let word = #[trigger] words(s)[w];
                &&& word.len() > 0
                &&& forall|k: int| 0 <= k < word.len() ==> unicode_alphanumeric(#[trigger] word[k])
            },
{
    lemma_words_from_alphanumeric(s, 0, seq![]);
}

proof fn lemma_texts_push(out: Seq<Vec<char>>, lc: Vec<char>, done: Seq<Seq<char>>, w: Seq<char>)
    requires
        texts(out) == lowercase_each(done),
        lc@ == unicode_lowercase(w),
    ensures
        texts(out.push(lc)) == lowercase_each(done.push(w)),
{
    assert(texts(out).len() == out.len());
    assert(lowercase_each(done).len() == done.len());
    assert forall|k: int| 0 <= k < out.len() + 1 implies texts(out.push(lc))[k] == lowercase_each(
        done.push(w),
    )[k] by {
        if k < out.len() {
            assert(texts(out)[k] == out[k]@);
            assert(lowercase_each(done)[k] == unicode_lowercase(done[k]));
        }
    }
    assert(texts(out.push(lc)) =~= lowercase_each(done.push(w)));
}

/// The tokens of a text given as characters.
pub fn tokenize(s: &[char]) -> (r: Vec<Vec<char>>)
    ensures
        texts(r@) == tokens_of(s@),
{
    let mut out: Vec<Vec<char>> = Vec::new();
    let mut cur: Vec<char> = Vec::new();
    let ghost mut done: Seq<Seq<char>> = seq![];
    let mut i: usize = 0;
    while i < s.len()
        invariant
            i <= s.len(),
            words(s@) == done + words_from(s@, i as int, cur@),
            texts(out@) == lowercase_each(done),
        decreases s.len() - i,
    {
        let c = s[i];
        if is_alphanumeric(c) {
            cur.push(c);
        } else if cur.len() > 0 {
            let lc = lowercase(cur.as_slice());
            proof {
                let ghost tail = words_from(s@, i + 1, seq![]);
                assert(words_from(s@, i as int, cur@) == seq![cur@] + tail);
                assert(done + (seq![cur@] + tail) =~= done.push(cur@) + tail);
                lemma_texts_push(out@, lc, done, cur@);
                done = done.push(cur@);
            }
            out.push(lc);
            cur = Vec::new();
        } else {
            proof {
                assert(cur@ =~= seq![]);
            }
        }
        i += 1;
    }
    if cur.len() > 0 {
        let lc = lowercase(cur.as_slice());
        proof {
            assert(words_from(s@, i as int, cur@) == seq![cur@]);
            assert(done + seq![cur@] =~= done.push(cur@));
            lemma_texts_push(out@, lc, done, cur@);
        }
        out.push(lc);
    } else {
        proof {
            assert(done + words_from(s@, i as int, cur@) =~= done);
        }
    }
    out
}

/// The tokens of a text: split on every character that is not alphanumeric,
/// empty pieces dropped, each piece in lowercase.
pub fn tokenize_lc(s: &str) -> (r: Vec<String>)
    ensures
        string_texts(r@) == tokens_of(s@),
{
    let cs = chars_of(s);
    let toks = tokenize(cs.as_slice());
    let mut out: Vec<String> = Vec::new();
    let mut i: usize = 0;
    while i < toks.len()
        invariant
            i <= toks.len(),
            out.len() == i,
            forall|k: int| 0 <= k < i ==> (#[trigger] out@[k])@ == toks@[k]@,
        decreases toks.len() - i,
    {
        out.push(string_of(toks[i].as_slice()));
        i += 1;
    }
    proof {
        assert(string_texts(out@) =~= texts(toks@));
    }
    out
}

} // verus!
