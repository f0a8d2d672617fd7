//! Ordering of strings: sorted, duplicate-free lists.

use vstd::prelude::*;

use crate::links::strings_view;
use crate::text::{
    chars_of, contains, lemma_lt_asymmetric, lemma_lt_irreflexive, lemma_lt_transitive,
    lemma_lt_trichotomy, lt, seq_lt,
};

verus! {

/// Strictly increasing in the order of `String`'s `Ord`.
pub open spec fn strictly_sorted(s: Seq<Seq<char>>) -> bool {
    forall|i: int, j: int| 0 <= i < j < s.len() ==> seq_lt(#[trigger] s[i], #[trigger] s[j])
}

/// No string occurs twice.
pub open spec fn distinct(s: Seq<Seq<char>>) -> bool {
    forall|i: int, j: int| 0 <= i < j < s.len() ==> #[trigger] s[i] != #[trigger] s[j]
}

pub fn str_lt(a: &String, b: &String) -> (r: bool)
    ensures
        r == seq_lt(a@, b@),
{
    let x = chars_of(a.as_str());
    let y = chars_of(b.as_str());
    lt(x.as_slice(), y.as_slice())
}

/// The distinct strings of `v`, in increasing order (a sort followed by a
/// dedup).
pub fn sorted_unique(v: Vec<String>) -> (r: Vec<String>)
    ensures
        strictly_sorted(strings_view(r@)),
        forall|t: Seq<char>| strings_view(r@).contains(t) <==> strings_view(v@).contains(t),
{
    let mut r: Vec<String> = Vec::new();
    let mut i: usize = 0;
    while i < v.len()
        invariant
            i <= v@.len(),
            strictly_sorted(strings_view(r@)),
            forall|t: Seq<char>|
                strings_view(r@).contains(t) <==> strings_view(v@).subrange(0, i as int).contains(
                    t,
                ),
        decreases v@.len() - i,
    {
        let x = &v[i];
        let mut k: usize = 0;
        while k < r.len() && str_lt(&r[k], x)
            invariant
                k <= r@.len(),
                forall|m: int| 0 <= m < k ==> seq_lt(#[trigger] strings_view(r@)[m], x@),
            decreases r@.len() - k,
        {
            k += 1;
        }
        let ghost rv = strings_view(r@);
        proof {
            assert(strings_view(v@).subrange(0, i + 1) =~= strings_view(v@).subrange(
                0,
                i as int,
            ).push(x@));
        }
        if k < r.len() && r[k] == *x {
            assert forall|t: Seq<char>|
                strings_view(r@).contains(t) <==> strings_view(v@).subrange(
                    0,
                    i + 1,
                ).contains(t) by {
                if t == x@ {
                    assert(strings_view(r@)[k as int] == t);
                    assert(strings_view(v@).subrange(0, i + 1)[i as int] == t);
                }
                if strings_view(v@).subrange(0, i + 1).contains(t) && t != x@ {
                    let j = choose|j: int|
                        0 <= j < i + 1 && #[trigger] strings_view(v@).subrange(0, i + 1)[j] == t;
                    assert(strings_view(v@).subrange(0, i as int)[j] == t);
                }
            }
        } else {
            proof {
                if k < r@.len() {
                    lemma_lt_trichotomy(rv[k as int], x@);
                }
            }
            r.insert(k, x.clone());
            let ghost nv = strings_view(r@);
            assert(nv =~= rv.insert(k as int, x@));
            assert forall|a: int, b: int| 0 <= a < b < nv.len() implies seq_lt(
                #[trigger] nv[a],
                #[trigger] nv[b],
            ) by {
                if b < k {
                } else if a < k && b == k {
                } else if a < k && b > k {
                    if b - 1 > k {
                        lemma_lt_transitive(x@, rv[k as int], rv[b - 1]);
                    }
                    lemma_lt_transitive(nv[a], x@, nv[b]);
                } else if a == k {
                    if b > k + 1 {
                        lemma_lt_transitive(x@, rv[k as int], nv[b]);
                    }
                } else {
                }
            }
            assert forall|t: Seq<char>|
                nv.contains(t) <==> strings_view(v@).subrange(0, i + 1).contains(t) by {
                if nv.contains(t) {
                    let j = choose|j: int| 0 <= j < nv.len() && #[trigger] nv[j] == t;
                    if j == k {
                        assert(strings_view(v@).subrange(0, i + 1)[i as int] == t);
                    } else if j < k {
                        assert(rv[j] == t);
                        assert(rv.contains(t));
                        let j2 = choose|j2: int|
                            0 <= j2 < i && #[trigger] strings_view(v@).subrange(0, i as int)[j2] == t;
                        assert(strings_view(v@).subrange(0, i + 1)[j2] == t);
                    } else {
                        assert(rv[j - 1] == t);
                        assert(rv.contains(t));
                        let j2 = choose|j2: int|
                            0 <= j2 < i && #[trigger] strings_view(v@).subrange(0, i as int)[j2] == t;
                        assert(strings_view(v@).subrange(0, i + 1)[j2] == t);
                    }
                }
                if strings_view(v@).subrange(0, i + 1).contains(t) {
                    let j = choose|j: int|
                        0 <= j < i + 1 && #[trigger] strings_view(v@).subrange(0, i + 1)[j] == t;
                    if j == i {
                        assert(nv[k as int] == t);
                    } else {
                        assert(strings_view(v@).subrange(0, i as int)[j] == t);
                        assert(rv.contains(t));
                        let m = choose|m: int| 0 <= m < rv.len() && #[trigger] rv[m] == t;
                        if m < k {
                            assert(nv[m] == t);
                        } else {
                            assert(nv[m + 1] == t);
                        }
                    }
                }
            }
        }
        i += 1;
    }
    assert(strings_view(v@).subrange(0, i as int) =~= strings_view(v@));
    r
}

/// A strictly sorted list is determined by the strings it holds.
pub proof fn lemma_sorted_unique_eq(a: Seq<Seq<char>>, b: Seq<Seq<char>>)
    requires
        strictly_sorted(a),
        strictly_sorted(b),
        forall|t: Seq<char>| a.contains(t) <==> b.contains(t),
    ensures
        a == b,
    decreases a.len(),
{
    if a.len() == 0 {
        if b.len() > 0 {
            assert(b.contains(b[0]));
        }
        assert(a =~= b);
    } else {
        assert(a.contains(a[0]));
        assert(b.len() > 0);
        assert(b.contains(b[0]));
        let j = choose|j: int| 0 <= j < b.len() && b[j] == a[0];
        let i = choose|i: int| 0 <= i < a.len() && a[i] == b[0];
        if j > 0 {
            assert(seq_lt(b[0], b[j]));
            if i > 0 {
                assert(seq_lt(a[0], a[i]));
                lemma_lt_asymmetric(a[0], a[i]);
            } else {
                lemma_lt_irreflexive(a[0]);
            }
        }
        assert(a[0] == b[0]);
        let a1 = a.drop_first();
        let b1 = b.drop_first();
        assert forall|t: Seq<char>| a1.contains(t) <==> b1.contains(t) by {
            if a1.contains(t) {
                let m = choose|m: int| 0 <= m < a1.len() && a1[m] == t;
                assert(a[m + 1] == t);
                assert(seq_lt(a[0], a[m + 1]));
                lemma_lt_irreflexive(t);
                assert(a.contains(t));
                let n = choose|n: int| 0 <= n < b.len() && b[n] == t;
                assert(n != 0);
                assert(b1[n - 1] == t);
            }
            if b1.contains(t) {
                let m = choose|m: int| 0 <= m < b1.len() && b1[m] == t;
                assert(b[m + 1] == t);
                assert(seq_lt(b[0], b[m + 1]));
                lemma_lt_irreflexive(t);
                assert(b.contains(t));
                let n = choose|n: int| 0 <= n < a.len() && a[n] == t;
                assert(n != 0);
                assert(a1[n - 1] == t);
            }
        }
        assert forall|x: int, y: int| 0 <= x < y < a1.len() implies seq_lt(
            #[trigger] a1[x],
            #[trigger] a1[y],
        ) by {
            assert(a1[x] == a[x + 1] && a1[y] == a[y + 1]);
        }
        assert forall|x: int, y: int| 0 <= x < y < b1.len() implies seq_lt(
            #[trigger] b1[x],
            #[trigger] b1[y],
        ) by {
            assert(b1[x] == b[x + 1] && b1[y] == b[y + 1]);
        }
        lemma_sorted_unique_eq(a1, b1);
        assert(a =~= seq![a[0]] + a1);
        assert(b =~= seq![b[0]] + b1);
    }
}

} // verus!
