//! Stable ordering of positions by a three-part key: two numbers, then a
//! text compared character by character.

use vstd::prelude::*;
use crate::postings::lemma_push_members;

verus! {

/// What a position is ordered by.
pub struct SortKey {
    pub major: u64,
    pub minor: u64,
    pub text: Vec<char>,
}

/// A key as plain values.
pub type Key = (u64, u64, Seq<char>);

impl View for SortKey {
    type V = Key;

    open spec fn view(&self) -> Key {
        (self.major, self.minor, self.text@)
    }
}

/// The keys that a vector holds, as plain values.
pub open spec fn key_views(v: Seq<SortKey>) -> Seq<Key> {
    v.map_values(|k: SortKey| k@)
}

/// `a` comes before `b` in dictionary order by character code; a text comes
/// after each of its proper prefixes.
pub open spec fn text_lt(a: Seq<char>, b: Seq<char>) -> bool
    decreases a.len(),
{
    if b.len() == 0 {
        false
    } else if a.len() == 0 {
        true
    } else if a[0] != b[0] {
        a[0] < b[0]
    } else {
        text_lt(a.skip(1), b.skip(1))
    }
}

/// `x` comes before `y`: by the first number, then the second, then the text.
pub open spec fn key_lt(x: Key, y: Key) -> bool {
    x.0 < y.0 || (x.0 == y.0 && (x.1 < y.1 || (x.1 == y.1 && text_lt(x.2, y.2))))
}

/// No text comes before itself.
pub proof fn lemma_text_lt_irreflexive(a: Seq<char>)
    ensures
        !text_lt(a, a),
    decreases a.len(),
{
    if a.len() > 0 {
        lemma_text_lt_irreflexive(a.skip(1));
    }
}

/// What comes before a text comes before what that text comes before.
pub proof fn lemma_text_lt_transitive(a: Seq<char>, b: Seq<char>, c: Seq<char>)
    requires
        text_lt(a, b),
        text_lt(b, c),
    ensures
        text_lt(a, c),
    decreases a.len(),
{
    if a.len() > 0 && a[0] == b[0] && b[0] == c[0] {
        lemma_text_lt_transitive(a.skip(1), b.skip(1), c.skip(1));
    }
}

/// Of two different texts one comes before the other.
pub proof fn lemma_text_lt_total(a: Seq<char>, b: Seq<char>)
    ensures
        text_lt(a, b) || text_lt(b, a) || a == b,
    decreases a.len(),
{
    if a.len() == 0 || b.len() == 0 {
        if a.len() == 0 && b.len() == 0 {
            assert(a =~= b);
        }
    } else if a[0] == b[0] {
        lemma_text_lt_total(a.skip(1), b.skip(1));
        if a.skip(1) == b.skip(1) {
            assert(a =~= seq![a[0]] + a.skip(1));
            assert(b =~= seq![b[0]] + b.skip(1));
        }
    }
}

/// No key comes before itself.
pub proof fn lemma_key_lt_irreflexive(x: Key)
    ensures
        !key_lt(x, x),
{
    lemma_text_lt_irreflexive(x.2);
}

/// What comes before a key comes before what that key comes before.
pub proof fn lemma_key_lt_transitive(x: Key, y: Key, z: Key)
    requires
        key_lt(x, y),
        key_lt(y, z),
    ensures
        key_lt(x, z),
{
    if x.0 == y.0 && y.0 == z.0 && x.1 == y.1 && y.1 == z.1 {
        lemma_text_lt_transitive(x.2, y.2, z.2);
    }
}

/// Of two keys at most one comes before the other.
pub proof fn lemma_key_lt_asymmetric(x: Key, y: Key)
    requires
        key_lt(x, y),
    ensures
        !key_lt(y, x),
{
    if key_lt(y, x) {
        lemma_key_lt_transitive(x, y, x);
        lemma_key_lt_irreflexive(x);
    }
}

/// Of two different keys one comes before the other.
pub proof fn lemma_key_lt_total(x: Key, y: Key)
    ensures
        key_lt(x, y) || key_lt(y, x) || x == y,
{
    lemma_text_lt_total(x.2, y.2);
}

/// What does not come after comes before, transitively.
pub proof fn lemma_key_not_after(x: Key, y: Key, z: Key)
    requires
        !key_lt(y, x),
        !key_lt(z, y),
    ensures
        !key_lt(z, x),
{
    lemma_key_lt_total(x, y);
    lemma_key_lt_total(y, z);
    if key_lt(z, x) {
        if key_lt(x, y) {
            lemma_key_lt_transitive(z, x, y);
        }
    }
}

/// Whether `a` comes before `b` in dictionary order.
pub fn text_less(a: &[char], b: &[char]) -> (r: bool)
    ensures
        r == text_lt(a@, b@),
{
    let mut i: usize = 0;
    proof {
        assert(a@.skip(0) =~= a@);
        assert(b@.skip(0) =~= b@);
    }
    while i < a.len() && i < b.len()
        invariant
            i <= a.len(),
            i <= b.len(),
            text_lt(a@, b@) == text_lt(a@.skip(i as int), b@.skip(i as int)),
        decreases a.len() - i,
    {
        proof {
            assert(a@.skip(i as int)[0] == a@[i as int]);
            assert(b@.skip(i as int)[0] == b@[i as int]);
            assert(a@.skip(i as int).skip(1) =~= a@.skip(i + 1));
            assert(b@.skip(i as int).skip(1) =~= b@.skip(i + 1));
        }
        if a[i] != b[i] {
            return a[i] < b[i];
        }
        i += 1;
    }
    i < b.len()
}

/// Whether `x` comes before `y`.
pub fn key_less(x: &SortKey, y: &SortKey) -> (r: bool)
    ensures
        r == key_lt(x@, y@),
{
    if x.major != y.major {
        x.major < y.major
    } else if x.minor != y.minor {
        x.minor < y.minor
    } else {
        text_less(x.text.as_slice(), y.text.as_slice())
    }
}

/// Position `x` is placed before position `y`: by key, and by position where
/// neither key comes before the other.
pub open spec fn placed_before(keys: Seq<Key>, x: usize, y: usize) -> bool {
    key_lt(keys[x as int], keys[y as int]) || (!key_lt(keys[y as int], keys[x as int]) && x < y)
}

/// Each position of `s` is placed before those that follow it.
pub open spec fn in_order(keys: Seq<Key>, s: Seq<usize>) -> bool {
    forall|a: int, b: int| 0 <= a < b < s.len() ==> placed_before(keys, s[a], s[b])
}

/// `sorted` with `p` put behind the last position whose key does not come
/// after the key of `p`.
pub open spec fn insert_position(keys: Seq<Key>, sorted: Seq<usize>, p: usize) -> Seq<usize>
    decreases sorted.len(),
{
    if sorted.len() == 0 {
        seq![p]
    } else if key_lt(keys[p as int], keys[sorted.last() as int]) {
        insert_position(keys, sorted.drop_last(), p).push(sorted.last())
    } else {
        sorted.push(p)
    }
}

/// The first `n` positions in the order of their keys; positions with equal
/// keys keep their order.
pub open spec fn sorted_positions(keys: Seq<Key>, n: nat) -> Seq<usize>
    decreases n,
{
    if n == 0 {
        seq![]
    } else {
        insert_position(keys, sorted_positions(keys, (n - 1) as nat), (n - 1) as usize)
    }
}

/// Inserting adds the position and keeps the others.
pub proof fn lemma_insert_position_members(keys: Seq<Key>, sorted: Seq<usize>, p: usize)
    ensures
        insert_position(keys, sorted, p).len() == sorted.len() + 1,
        forall|x: usize| #[trigger]
            insert_position(keys, sorted, p).contains(x) <==> (sorted.contains(x) || x == p),
    decreases sorted.len(),
{
    let r = insert_position(keys, sorted, p);
    if sorted.len() == 0 {
        assert(r[0] == p);
        assert forall|x: usize| r.contains(x) <==> (sorted.contains(x) || x == p) by {
            if r.contains(x) {
                let k = choose|k: int| 0 <= k < r.len() && r[k] == x;
            }
        }
    } else if key_lt(keys[p as int], keys[sorted.last() as int]) {
        let init = sorted.drop_last();
        let q = insert_position(keys, init, p);
        lemma_insert_position_members(keys, init, p);
        assert forall|x: usize| r.contains(x) <==> (sorted.contains(x) || x == p) by {
            if r.contains(x) {
                let k = choose|k: int| 0 <= k < r.len() && r[k] == x;
                if k < q.len() {
                    assert(q[k] == x);
                    assert(q.contains(x));
                    if init.contains(x) {
                        let m = choose|m: int| 0 <= m < init.len() && init[m] == x;
                        assert(sorted[m] == x);
                    }
                } else {
                    assert(sorted[sorted.len() - 1] == x);
                }
            }
            if sorted.contains(x) {
                let m = choose|m: int| 0 <= m < sorted.len() && sorted[m] == x;
                if m < init.len() {
                    assert(init[m] == x);
                    assert(init.contains(x));
                    assert(q.contains(x));
                    let k = choose|k: int| 0 <= k < q.len() && q[k] == x;
                    assert(r[k] == x);
                } else {
                    assert(r[q.len() as int] == x);
                }
            }
            if x == p {
                assert(q.contains(x));
                let k = choose|k: int| 0 <= k < q.len() && q[k] == x;
                assert(r[k] == x);
            }
        }
    } else {
        assert forall|x: usize| r.contains(x) <==> (sorted.contains(x) || x == p) by {
            if r.contains(x) {
                let k = choose|k: int| 0 <= k < r.len() && r[k] == x;
                if k < sorted.len() {
                    assert(sorted[k] == x);
                }
            }
            if sorted.contains(x) {
                let m = choose|m: int| 0 <= m < sorted.len() && sorted[m] == x;
                assert(r[m] == x);
            }
            if x == p {
                assert(r[sorted.len() as int] == x);
            }
        }
    }
}

/// Inserting a position that lies behind all others keeps the order.
pub proof fn lemma_insert_position_in_order(keys: Seq<Key>, sorted: Seq<usize>, p: usize)
    requires
        in_order(keys, sorted),
        forall|k: int| 0 <= k < sorted.len() ==> #[trigger] sorted[k] < p,
    ensures
        in_order(keys, insert_position(keys, sorted, p)),
    decreases sorted.len(),
{
    let r = insert_position(keys, sorted, p);
    if sorted.len() == 0 {
    } else if key_lt(keys[p as int], keys[sorted.last() as int]) {
        let init = sorted.drop_last();
        let last = sorted.last();
        let q = insert_position(keys, init, p);
        assert(in_order(keys, init)) by {
            assert forall|a: int, b: int| 0 <= a < b < init.len() implies placed_before(
                keys,
                init[a],
                init[b],
            ) by {
                assert(placed_before(keys, sorted[a], sorted[b]));
            }
        }
        assert forall|k: int| 0 <= k < init.len() implies #[trigger] init[k] < p by {
            assert(sorted[k] < p);
        }
        lemma_insert_position_in_order(keys, init, p);
        lemma_insert_position_members(keys, init, p);
        assert forall|a: int, b: int| 0 <= a < b < r.len() implies placed_before(
            keys,
            r[a],
            r[b],
        ) by {
            if b < q.len() {
                assert(placed_before(keys, q[a], q[b]));
            } else {
                assert(r[b] == last);
                assert(r[a] == q[a]);
                assert(q.contains(q[a]));
                if q[a] == p {
                } else {
                    assert(init.contains(q[a]));
                    let m = choose|m: int| 0 <= m < init.len() && init[m] == q[a];
                    assert(placed_before(keys, sorted[m], sorted[sorted.len() - 1]));
                }
            }
        }
    } else {
        let last = sorted.last();
        assert forall|a: int, b: int| 0 <= a < b < r.len() implies placed_before(
            keys,
            r[a],
            r[b],
        ) by {
            if b < sorted.len() {
                assert(placed_before(keys, sorted[a], sorted[b]));
            } else {
                assert(r[b] == p);
                assert(r[a] == sorted[a]);
                assert(sorted[a] < p);
                if a < sorted.len() - 1 {
                    assert(placed_before(keys, sorted[a], sorted[sorted.len() - 1]));
                    if key_lt(keys[sorted[a] as int], keys[last as int]) {
                        lemma_key_lt_asymmetric(keys[sorted[a] as int], keys[last as int]);
                    }
                    // key[a] does not come after key[last], which does not come after key[p]
                    lemma_key_not_after(
                        keys[sorted[a] as int],
                        keys[last as int],
                        keys[p as int],
                    );
                }
            }
        }
    }
}

/// The sorted positions are the first `n` positions, each once, in the order
/// of their keys.
pub proof fn lemma_sorted_positions(keys: Seq<Key>, n: nat)
    requires
        n <= usize::MAX,
    ensures
        sorted_positions(keys, n).len() == n,
        forall|x: usize| #[trigger] sorted_positions(keys, n).contains(x) <==> x < n,
        in_order(keys, sorted_positions(keys, n)),
    decreases n,
{
    if n > 0 {
        let prev = sorted_positions(keys, (n - 1) as nat);
        lemma_sorted_positions(keys, (n - 1) as nat);
        lemma_insert_position_members(keys, prev, (n - 1) as usize);
        assert forall|k: int| 0 <= k < prev.len() implies #[trigger] prev[k] < (n - 1) as usize by {
            assert(prev.contains(prev[k]));
        }
        lemma_insert_position_in_order(keys, prev, (n - 1) as usize);
    } else {
        assert forall|x: usize| sorted_positions(keys, n).contains(x) <==> x < n by {
            if sorted_positions(keys, n).contains(x) {
                let k = choose|k: int|
                    0 <= k < sorted_positions(keys, n).len() && sorted_positions(keys, n)[k] == x;
            }
        }
    }
}

/// A position whose key comes before every other key is sorted first.
pub proof fn lemma_least_key_first(keys: Seq<Key>, n: nat, p: usize)
    requires
        n <= usize::MAX,
        p < n,
        forall|x: usize| x < n && x != p ==> key_lt(keys[p as int], #[trigger] keys[x as int]),
    ensures
        sorted_positions(keys, n)[0] == p,
{
    let s = sorted_positions(keys, n);
    lemma_sorted_positions(keys, n);
    assert(s.contains(p));
    let b = choose|b: int| 0 <= b < s.len() && s[b] == p;
    if b > 0 {
        assert(placed_before(keys, s[0], s[b]));
        assert(s.contains(s[0]));
        assert(s[0] < n);
        if s[0] != p {
            assert(key_lt(keys[p as int], keys[s[0] as int]));
            lemma_key_lt_transitive(keys[p as int], keys[s[0] as int], keys[p as int]);
            lemma_key_lt_irreflexive(keys[p as int]);
        }
    }
}

/// What comes before a key comes before whatever that key does not come
/// after.
pub proof fn lemma_key_lt_then_not_after(x: Key, y: Key, z: Key)
    requires
        key_lt(x, y),
        !key_lt(z, y),
    ensures
        key_lt(x, z),
{
    lemma_key_lt_total(y, z);
    if key_lt(y, z) {
        lemma_key_lt_transitive(x, y, z);
    }
}

/// Of two positions that are placed before each other there are none.
pub proof fn lemma_placed_before_asymmetric(keys: Seq<Key>, x: usize, y: usize)
    requires
        placed_before(keys, x, y),
    ensures
        !placed_before(keys, y, x),
{
    if key_lt(keys[x as int], keys[y as int]) {
        lemma_key_lt_asymmetric(keys[x as int], keys[y as int]);
    }
    if key_lt(keys[y as int], keys[x as int]) {
        lemma_key_lt_asymmetric(keys[y as int], keys[x as int]);
    }
}

/// The order of positions is determined by the positions: two lists that
/// are in order and hold the same positions are the same list.
pub proof fn lemma_order_unique(keys: Seq<Key>, a: Seq<usize>, b: Seq<usize>)
    requires
        in_order(keys, a),
        in_order(keys, b),
        forall|x: usize| a.contains(x) <==> b.contains(x),
    ensures
        a == b,
    decreases a.len(),
{
    if a.len() == 0 {
        if b.len() > 0 {
            assert(b.contains(b[0]));
        }
        assert(a =~= b);
    } else {
        assert(a.contains(a[0]));
        let j = choose|j: int| 0 <= j < b.len() && b[j] == a[0];
        assert(b.contains(b[0]));
        let i = choose|i: int| 0 <= i < a.len() && a[i] == b[0];
        if j > 0 {
            assert(placed_before(keys, b[0], b[j]));
            if i > 0 {
                assert(placed_before(keys, a[0], a[i]));
                lemma_placed_before_asymmetric(keys, a[0], a[i]);
            } else {
                lemma_key_lt_irreflexive(keys[a[0] as int]);
            }
        }
        assert(a[0] == b[0]);
        let a1 = a.drop_first();
        let b1 = b.drop_first();
        assert(in_order(keys, a1)) by {
            assert forall|p: int, q: int| 0 <= p < q < a1.len() implies placed_before(
                keys,
                a1[p],
                a1[q],
            ) by {
                assert(placed_before(keys, a[p + 1], a[q + 1]));
            }
        }
        assert(in_order(keys, b1)) by {
            assert forall|p: int, q: int| 0 <= p < q < b1.len() implies placed_before(
                keys,
                b1[p],
                b1[q],
            ) by {
                assert(placed_before(keys, b[p + 1], b[q + 1]));
            }
        }
        assert forall|x: usize| a1.contains(x) <==> b1.contains(x) by {
            if a1.contains(x) {
                let p = choose|p: int| 0 <= p < a1.len() && a1[p] == x;
                assert(a[p + 1] == x);
                assert(a.contains(x));
                assert(placed_before(keys, a[0], a[p + 1]));
                lemma_key_lt_irreflexive(keys[a[0] as int]);
                assert(x != a[0]);
                let q = choose|q: int| 0 <= q < b.len() && b[q] == x;
                assert(b1[q - 1] == x);
            }
            if b1.contains(x) {
                let p = choose|p: int| 0 <= p < b1.len() && b1[p] == x;
                assert(b[p + 1] == x);
                assert(b.contains(x));
                assert(placed_before(keys, b[0], b[p + 1]));
                lemma_key_lt_irreflexive(keys[b[0] as int]);
                assert(x != b[0]);
                let q = choose|q: int| 0 <= q < a.len() && a[q] == x;
                assert(a1[q - 1] == x);
            }
        }
        lemma_order_unique(keys, a1, b1);
        assert(a =~= seq![a[0]] + a1);
        assert(b =~= seq![b[0]] + b1);
    }
}

/// Merges two runs of positions that are in order into one; every position
/// of the first run lies before every position of the second.
fn merge_runs(keys: &Vec<SortKey>, left: &Vec<usize>, right: &Vec<usize>) -> (out: Vec<usize>)
    requires
        in_order(key_views(keys@), left@),
        in_order(key_views(keys@), right@),
        forall|p: int, q: int|
            0 <= p < left.len() && 0 <= q < right.len() ==> #[trigger] left@[p]
                < #[trigger] right@[q],
        forall|p: int| 0 <= p < left.len() ==> #[trigger] left@[p] < keys.len(),
        forall|q: int| 0 <= q < right.len() ==> #[trigger] right@[q] < keys.len(),
    ensures
        in_order(key_views(keys@), out@),
        forall|x: usize| #[trigger] out@.contains(x) <==> (left@.contains(x) || right@.contains(x)),
{
    let ghost kv = key_views(keys@);
    let mut out: Vec<usize> = Vec::new();
    let mut i: usize = 0;
    let mut j: usize = 0;
    while i < left.len() || j < right.len()
        invariant
            i <= left.len(),
            j <= right.len(),
            kv == key_views(keys@),
            in_order(kv, left@),
            in_order(kv, right@),
            forall|p: int, q: int|
                0 <= p < left.len() && 0 <= q < right.len() ==> #[trigger] left@[p]
                    < #[trigger] right@[q],
            forall|p: int| 0 <= p < left.len() ==> #[trigger] left@[p] < keys.len(),
            forall|q: int| 0 <= q < right.len() ==> #[trigger] right@[q] < keys.len(),
            in_order(kv, out@),
            forall|o: int, p: int|
                0 <= o < out.len() && i <= p < left.len() ==> placed_before(
                    kv,
                    #[trigger] out@[o],
                    #[trigger] left@[p],
                ),
            forall|o: int, q: int|
                0 <= o < out.len() && j <= q < right.len() ==> placed_before(
                    kv,
                    #[trigger] out@[o],
                    #[trigger] right@[q],
                ),
            forall|x: usize| #[trigger]
                out@.contains(x) <==> ((exists|p: int| 0 <= p < i && left@[p] == x) || (exists|
                    q: int,
                | 0 <= q < j && right@[q] == x)),
        decreases left.len() - i + right.len() - j,
    {
        let ghost prev = out@;
        let take_left = if j >= right.len() {
            true
        } else if i >= left.len() {
            false
        } else {
            !key_less(&keys[right[j]], &keys[left[i]])
        };
        if take_left {
            let e = left[i];
            out.push(e);
            proof {
                lemma_push_members(prev, e);
                assert(kv[e as int] == keys@[e as int]@);
                assert forall|o: int, q: int|
                    0 <= o < out.len() && j <= q < right.len() implies placed_before(
                    kv,
                    #[trigger] out@[o],
                    #[trigger] right@[q],
                ) by {
                    if o == prev.len() {
                        let rj = right@[j as int];
                        let rq = right@[q];
                        assert(kv[rj as int] == keys@[rj as int]@);
                        assert(e < rq);
                        if q > j {
                            assert(placed_before(kv, rj, rq));
                            if key_lt(kv[rj as int], kv[rq as int]) {
                                lemma_key_lt_asymmetric(kv[rj as int], kv[rq as int]);
                            }
                            lemma_key_not_after(kv[e as int], kv[rj as int], kv[rq as int]);
                        }
                    } else {
                        assert(out@[o] == prev[o]);
                    }
                }
                assert forall|o: int, p: int|
                    0 <= o < out.len() && i + 1 <= p < left.len() implies placed_before(
                    kv,
                    #[trigger] out@[o],
                    #[trigger] left@[p],
                ) by {
                    if o == prev.len() {
                        assert(placed_before(kv, left@[i as int], left@[p]));
                    } else {
                        assert(out@[o] == prev[o]);
                    }
                }
                assert forall|a: int, b: int| 0 <= a < b < out.len() implies placed_before(
                    kv,
                    out@[a],
                    out@[b],
                ) by {
                    if b == prev.len() {
                        assert(out@[a] == prev[a]);
                        assert(placed_before(kv, prev[a], left@[i as int]));
                    } else {
                        assert(placed_before(kv, prev[a], prev[b]));
                    }
                }
                assert forall|x: usize| #[trigger]
                    out@.contains(x) <==> ((exists|p: int| 0 <= p < i + 1 && left@[p] == x) || (
                    exists|q: int| 0 <= q < j && right@[q] == x)) by {
                    if prev.contains(x) {
                        if exists|p: int| 0 <= p < i && left@[p] == x {
                            let p = choose|p: int| 0 <= p < i && left@[p] == x;
                            assert(0 <= p < i + 1 && left@[p] == x);
                        }
                    }
                    if x == e {
                        assert(0 <= i < i + 1 && left@[i as int] == x);
                    }
                    if exists|p: int| 0 <= p < i + 1 && left@[p] == x {
                        let p = choose|p: int| 0 <= p < i + 1 && left@[p] == x;
                        if p < i {
                            assert(prev.contains(x));
                        }
                    }
                }
            }
            i += 1;
        } else {
            let e = right[j];
            out.push(e);
            proof {
                lemma_push_members(prev, e);
                assert(kv[e as int] == keys@[e as int]@);
                assert forall|o: int, p: int|
                    0 <= o < out.len() && i <= p < left.len() implies placed_before(
                    kv,
                    #[trigger] out@[o],
                    #[trigger] left@[p],
                ) by {
                    if o == prev.len() {
                        let li = left@[i as int];
                        let lp = left@[p];
                        assert(kv[li as int] == keys@[li as int]@);
                        assert(key_lt(kv[e as int], kv[li as int]));
                        if p > i {
                            assert(placed_before(kv, li, lp));
                            if key_lt(kv[li as int], kv[lp as int]) {
                                lemma_key_lt_asymmetric(kv[li as int], kv[lp as int]);
                            }
                            lemma_key_lt_then_not_after(kv[e as int], kv[li as int], kv[lp as int]);
                        }
                    } else {
                        assert(out@[o] == prev[o]);
                    }
                }
                assert forall|o: int, q: int|
                    0 <= o < out.len() && j + 1 <= q < right.len() implies placed_before(
                    kv,
                    #[trigger] out@[o],
                    #[trigger] right@[q],
                ) by {
                    if o == prev.len() {
                        assert(placed_before(kv, right@[j as int], right@[q]));
                    } else {
                        assert(out@[o] == prev[o]);
                    }
                }
                assert forall|a: int, b: int| 0 <= a < b < out.len() implies placed_before(
                    kv,
                    out@[a],
                    out@[b],
                ) by {
                    if b == prev.len() {
                        assert(out@[a] == prev[a]);
                        assert(placed_before(kv, prev[a], right@[j as int]));
                    } else {
                        assert(placed_before(kv, prev[a], prev[b]));
                    }
                }
                assert forall|x: usize| #[trigger]
                    out@.contains(x) <==> ((exists|p: int| 0 <= p < i && left@[p] == x) || (exists|
                        q: int,
                    | 0 <= q < j + 1 && right@[q] == x)) by {
                    if prev.contains(x) {
                        if exists|q: int| 0 <= q < j && right@[q] == x {
                            let q = choose|q: int| 0 <= q < j && right@[q] == x;
                            assert(0 <= q < j + 1 && right@[q] == x);
                        }
                    }
                    if x == e {
                        assert(0 <= j < j + 1 && right@[j as int] == x);
                    }
                    if exists|q: int| 0 <= q < j + 1 && right@[q] == x {
                        let q = choose|q: int| 0 <= q < j + 1 && right@[q] == x;
                        if q < j {
                            assert(prev.contains(x));
                        }
                    }
                }
            }
            j += 1;
        }
    }
    proof {
        assert forall|x: usize| #[trigger] out@.contains(x) <==> (left@.contains(x)
            || right@.contains(x)) by {
            if left@.contains(x) {
                let p = choose|p: int| 0 <= p < left@.len() && left@[p] == x;
                assert(0 <= p < i && left@[p] == x);
            }
            if right@.contains(x) {
                let q = choose|q: int| 0 <= q < right@.len() && right@[q] == x;
                assert(0 <= q < j && right@[q] == x);
            }
        }
    }
    out
}

/// The positions from `lo` up to `hi` in the order of their keys.
fn sort_range(keys: &Vec<SortKey>, lo: usize, hi: usize) -> (r: Vec<usize>)
    requires
        lo <= hi <= keys.len(),
    ensures
        in_order(key_views(keys@), r@),
        forall|x: usize| #[trigger] r@.contains(x) <==> lo <= x < hi,
    decreases hi - lo,
{
    let mut out: Vec<usize> = Vec::new();
    if hi - lo == 0 {
        proof {
            assert forall|x: usize| #[trigger] out@.contains(x) <==> lo <= x < hi by {
                if out@.contains(x) {
                    let k = choose|k: int| 0 <= k < out@.len() && out@[k] == x;
                }
            }
        }
        return out;
    }
    if hi - lo == 1 {
        out.push(lo);
        proof {
            assert forall|x: usize| #[trigger] out@.contains(x) <==> lo <= x < hi by {
                if out@.contains(x) {
                    let k = choose|k: int| 0 <= k < out@.len() && out@[k] == x;
                }
                if lo <= x < hi {
                    assert(out@[0] == x);
                }
            }
        }
        return out;
    }
    let mid = lo + (hi - lo) / 2;
    let left = sort_range(keys, lo, mid);
    let right = sort_range(keys, mid, hi);
    proof {
        assert forall|p: int, q: int|
            0 <= p < left.len() && 0 <= q < right.len() implies #[trigger] left@[p]
            < #[trigger] right@[q] by {
            assert(left@.contains(left@[p]));
            assert(right@.contains(right@[q]));
        }
        assert forall|p: int| 0 <= p < left.len() implies #[trigger] left@[p] < keys.len() by {
            assert(left@.contains(left@[p]));
        }
        assert forall|q: int| 0 <= q < right.len() implies #[trigger] right@[q] < keys.len() by {
            assert(right@.contains(right@[q]));
        }
    }
    merge_runs(keys, &left, &right)
}

/// The positions of the keys in the order of the keys. Positions with equal
/// keys stay in their order.
pub fn sort_positions(keys: &Vec<SortKey>) -> (r: Vec<usize>)
    ensures
        r@ == sorted_positions(key_views(keys@), keys.len() as nat),
{
    let r = sort_range(keys, 0, keys.len());
    proof {
        let kv = key_views(keys@);
        let want = sorted_positions(kv, keys.len() as nat);
        lemma_sorted_positions(kv, keys.len() as nat);
        assert forall|x: usize| r@.contains(x) <==> want.contains(x) by {
            assert(r@.contains(x) <==> x < keys.len());
            assert(want.contains(x) <==> x < keys.len());
        }
        lemma_order_unique(kv, r@, want);
    }
    r
}

} // verus!
