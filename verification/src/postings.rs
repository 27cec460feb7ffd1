//! Posting lists: strictly increasing sequences of entry positions, and the
//! two-pointer merges that intersect and unite them.

use vstd::prelude::*;

verus! {

/// Ascending with no position twice.
pub open spec fn strictly_increasing(s: Seq<usize>) -> bool {
    forall|i: int, j: int| 0 <= i < j < s.len() ==> s[i] < s[j]
}

/// Two posting lists hold the same positions.
pub open spec fn same_members(a: Seq<usize>, b: Seq<usize>) -> bool {
    forall|x: usize| a.contains(x) <==> b.contains(x)
}

/// A posting list is determined by the positions it holds.
pub proof fn lemma_posting_list_unique(a: Seq<usize>, b: Seq<usize>)
    requires
        strictly_increasing(a),
        strictly_increasing(b),
        same_members(a, b),
    ensures
        a == b,
    decreases a.len(),
{
    if a.len() == 0 {
        if b.len() > 0 {
            assert(b.contains(b[0]));
            assert(a.contains(b[0]));
        }
        assert(a =~= b);
    } else {
        assert(a.contains(a[0]));
        assert(b.contains(a[0]));
        let k = choose|k: int| 0 <= k < b.len() && b[k] == a[0];
        assert(b.contains(b[0]));
        assert(a.contains(b[0]));
        let m = choose|m: int| 0 <= m < a.len() && a[m] == b[0];
        // a[0] <= a[m] == b[0] <= b[k] == a[0]
        assert(a[0] == b[0]);
        let a1 = a.drop_first();
        let b1 = b.drop_first();
        assert forall|x: usize| a1.contains(x) <==> b1.contains(x) by {
            if a1.contains(x) {
                let p = choose|p: int| 0 <= p < a1.len() && a1[p] == x;
                assert(a[p + 1] == x);
                assert(a.contains(x));
                assert(x > a[0]);
                let q = choose|q: int| 0 <= q < b.len() && b[q] == x;
                assert(q != 0);
                assert(b1[q - 1] == x);
            }
            if b1.contains(x) {
                let p = choose|p: int| 0 <= p < b1.len() && b1[p] == x;
                assert(b[p + 1] == x);
                assert(b.contains(x));
                assert(x > b[0]);
                let q = choose|q: int| 0 <= q < a.len() && a[q] == x;
                assert(q != 0);
                assert(a1[q - 1] == x);
            }
        }
        assert(strictly_increasing(a1)) by {
            assert forall|i: int, j: int| 0 <= i < j < a1.len() implies a1[i] < a1[j] by {
                assert(a[i + 1] < a[j + 1]);
            }
        }
        assert(strictly_increasing(b1)) by {
            assert forall|i: int, j: int| 0 <= i < j < b1.len() implies b1[i] < b1[j] by {
                assert(b[i + 1] < b[j + 1]);
            }
        }
        lemma_posting_list_unique(a1, b1);
        assert(a =~= seq![a[0]] + a1);
        assert(b =~= seq![b[0]] + b1);
    }
}

/// The positions that both lists hold, ascending.
pub fn intersect_sorted_slices(a: &[usize], b: &[usize]) -> (out: Vec<usize>)
    requires
        strictly_increasing(a@),
        strictly_increasing(b@),
    ensures
        strictly_increasing(out@),
        forall|x: usize| out@.contains(x) <==> (a@.contains(x) && b@.contains(x)),
{
    let mut i: usize = 0;
    let mut j: usize = 0;
    let mut out: Vec<usize> = Vec::new();
    while i < a.len() && j < b.len()
        invariant
            i <= a.len(),
            j <= b.len(),
            strictly_increasing(a@),
            strictly_increasing(b@),
            strictly_increasing(out@),
            forall|x: usize| out@.contains(x) ==> (a@.contains(x) && b@.contains(x)),
            forall|p: int, q: int|
                0 <= p < a.len() && 0 <= q < b.len() && #[trigger] a@[p] == #[trigger] b@[q] && (p
                    < i || q < j) ==> out@.contains(a@[p]),
            forall|k: int| 0 <= k < out.len() && i < a.len() ==> #[trigger] out@[k] < a@[i as int],
            forall|k: int| 0 <= k < out.len() && j < b.len() ==> #[trigger] out@[k] < b@[j as int],
        decreases a.len() - i + b.len() - j,
    {
        let x = a[i];
        let y = b[j];
        if x < y {
            i += 1;
        } else if y < x {
            j += 1;
        } else {
            let ghost prev = out@;
            out.push(x);
            proof {
                assert(out@[prev.len() as int] == x);
                assert forall|v: usize| out@.contains(v) implies (a@.contains(v) && b@.contains(
                    v,
                )) by {
                    let k = choose|k: int| 0 <= k < out@.len() && out@[k] == v;
                    if k < prev.len() {
                        assert(prev[k] == v);
                        assert(prev.contains(v));
                    } else {
                        assert(a@[i as int] == v);
                        assert(b@[j as int] == v);
                    }
                }
                assert forall|p: int, q: int|
                    0 <= p < a.len() && 0 <= q < b.len() && #[trigger] a@[p] == #[trigger] b@[q]
                        && (p < i + 1 || q < j + 1) implies out@.contains(a@[p]) by {
                    if p < i || q < j {
                        assert(prev.contains(a@[p]));
                        let k = choose|k: int| 0 <= k < prev.len() && prev[k] == a@[p];
                        assert(out@[k] == a@[p]);
                    } else if p == i {
                        assert(out@[prev.len() as int] == a@[p]);
                    } else {
                        // q == j and p > i, so a[p] > a[i] == b[j] == b[q]
                        assert(a@[i as int] < a@[p]);
                    }
                }
            }
            i += 1;
            j += 1;
        }
    }
    proof {
        assert forall|x: usize| (a@.contains(x) && b@.contains(x)) implies out@.contains(x) by {
            let p = choose|p: int| 0 <= p < a@.len() && a@[p] == x;
            let q = choose|q: int| 0 <= q < b@.len() && b@[q] == x;
            assert(a@[p] == b@[q]);
        }
    }
    out
}

/// The positions that either list holds, ascending, each once.
pub fn union_sorted_slices(a: &[usize], b: &[usize]) -> (out: Vec<usize>)
    requires
        strictly_increasing(a@),
        strictly_increasing(b@),
    ensures
        strictly_increasing(out@),
        forall|x: usize| out@.contains(x) <==> (a@.contains(x) || b@.contains(x)),
{
    let mut i: usize = 0;
    let mut j: usize = 0;
    let mut out: Vec<usize> = Vec::new();
    while i < a.len() && j < b.len()
        invariant
            i <= a.len(),
            j <= b.len(),
            strictly_increasing(a@),
            strictly_increasing(b@),
            strictly_increasing(out@),
            forall|x: usize| out@.contains(x) ==> (a@.contains(x) || b@.contains(x)),
            forall|p: int| 0 <= p < i ==> out@.contains(#[trigger] a@[p]),
            forall|q: int| 0 <= q < j ==> out@.contains(#[trigger] b@[q]),
            forall|k: int| 0 <= k < out.len() && i < a.len() ==> #[trigger] out@[k] < a@[i as int],
            forall|k: int| 0 <= k < out.len() && j < b.len() ==> #[trigger] out@[k] < b@[j as int],
        decreases a.len() - i + b.len() - j,
    {
        let x = a[i];
        let y = b[j];
        let ghost prev = out@;
        if x < y {
            out.push(x);
            proof {
                lemma_push_members(prev, x);
            }
            i += 1;
        } else if y < x {
            out.push(y);
            proof {
                lemma_push_members(prev, y);
            }
            j += 1;
        } else {
            out.push(x);
            proof {
                lemma_push_members(prev, x);
            }
            i += 1;
            j += 1;
        }
    }
    while i < a.len()
        invariant
            i <= a.len(),
            j <= b.len(),
            strictly_increasing(a@),
            strictly_increasing(out@),
            forall|x: usize| out@.contains(x) ==> (a@.contains(x) || b@.contains(x)),
            forall|p: int| 0 <= p < i ==> out@.contains(#[trigger] a@[p]),
            forall|q: int| 0 <= q < j ==> out@.contains(#[trigger] b@[q]),
            forall|k: int| 0 <= k < out.len() && i < a.len() ==> #[trigger] out@[k] < a@[i as int],
            forall|k: int| 0 <= k < out.len() && j < b.len() ==> #[trigger] out@[k] < b@[j as int],
            i == a.len() || j == b.len(),
        decreases a.len() - i,
    {
        let ghost prev = out@;
        out.push(a[i]);
        proof {
            lemma_push_members(prev, a@[i as int]);
        }
        i += 1;
    }
    while j < b.len()
        invariant
            i == a.len(),
            j <= b.len(),
            strictly_increasing(b@),
            strictly_increasing(out@),
            forall|x: usize| out@.contains(x) ==> (a@.contains(x) || b@.contains(x)),
            forall|p: int| 0 <= p < i ==> out@.contains(#[trigger] a@[p]),
            forall|q: int| 0 <= q < j ==> out@.contains(#[trigger] b@[q]),
            forall|k: int| 0 <= k < out.len() && j < b.len() ==> #[trigger] out@[k] < b@[j as int],
        decreases b.len() - j,
    {
        let ghost prev = out@;
        out.push(b[j]);
        proof {
            lemma_push_members(prev, b@[j as int]);
        }
        j += 1;
    }
    out
}

/// What a list holds after one more position is appended.
pub proof fn lemma_push_members(s: Seq<usize>, v: usize)
    ensures
        forall|x: usize| s.push(v).contains(x) <==> (s.contains(x) || x == v),
        forall|k: int| 0 <= k < s.len() ==> s.push(v)[k] == s[k],
        s.push(v)[s.len() as int] == v,
{
    assert forall|x: usize| s.push(v).contains(x) <==> (s.contains(x) || x == v) by {
        if s.push(v).contains(x) {
            let k = choose|k: int| 0 <= k < s.push(v).len() && s.push(v)[k] == x;
            if k < s.len() {
                assert(s[k] == x);
            }
        }
        if s.contains(x) {
            let k = choose|k: int| 0 <= k < s.len() && s[k] == x;
            assert(s.push(v)[k] == x);
        }
        if x == v {
            assert(s.push(v)[s.len() as int] == x);
        }
    }
}

} // verus!
