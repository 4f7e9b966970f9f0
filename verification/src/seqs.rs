//! Facts about filtered sequences that the rest of the crate builds on.

use std::collections::VecDeque;
use vstd::prelude::*;

verus! {

/// Filtering keeps the order: two elements of the filtered sequence stand in
/// the same order in the whole sequence.
pub proof fn lemma_filter_order<T>(s: Seq<T>, p: spec_fn(T) -> bool, i: int, j: int)
    requires
        0 <= i < j < s.filter(p).len(),
    ensures
        exists|a: int, b: int|
            0 <= a < b < s.len() && s[a] == s.filter(p)[i] && s[b] == s.filter(p)[j],
    decreases s.len(),
{
    reveal(Seq::filter);
    let f = s.filter(p);
    if s.len() > 0 {
        let rest = s.drop_last();
        let g = rest.filter(p);
        if p(s.last()) && j == g.len() {
            assert(f[i] == g[i]);
            rest.lemma_filter_contains_rev(p, g[i]);
            let a = choose|a: int| 0 <= a < rest.len() && rest[a] == g[i];
            assert(s[a] == f[i] && s[s.len() - 1] == f[j]);
        } else {
            lemma_filter_order(rest, p, i, j);
            let (a, b) = choose|a: int, b: int|
                0 <= a < b < rest.len() && rest[a] == g[i] && rest[b] == g[j];
            assert(s[a] == f[i] && s[b] == f[j]);
        }
    }
}

/// Every element of a filtered sequence is an element of the whole that
/// passes the filter.
pub proof fn lemma_filter_member<T>(s: Seq<T>, p: spec_fn(T) -> bool, i: int)
    requires
        0 <= i < s.filter(p).len(),
    ensures
        p(s.filter(p)[i]),
        exists|a: int| 0 <= a < s.len() && s[a] == s.filter(p)[i],
{
    s.lemma_filter_pred(p, i);
    let x = s.filter(p)[i];
    assert(s.filter(p).contains(x));
    s.lemma_filter_contains_rev(p, x);
    let a = choose|a: int| 0 <= a < s.len() && s[a] == x;
    assert(s[a] == s.filter(p)[i]);
}

/// Every element that passes the filter is kept.
pub proof fn lemma_filter_keeps<T>(s: Seq<T>, p: spec_fn(T) -> bool, a: int)
    requires
        0 <= a < s.len(),
        p(s[a]),
    ensures
        exists|i: int| 0 <= i < s.filter(p).len() && s.filter(p)[i] == s[a],
{
    s.lemma_filter_contains(p, a);
    let i = choose|i: int| 0 <= i < s.filter(p).len() && s.filter(p)[i] == s[a];
    assert(s.filter(p)[i] == s[a]);
}

/// A filter that every element passes changes nothing.
pub proof fn lemma_filter_all<T>(s: Seq<T>, p: spec_fn(T) -> bool)
    requires
        forall|a: int| 0 <= a < s.len() ==> p(#[trigger] s[a]),
    ensures
        s.filter(p) == s,
    decreases s.len(),
{
    reveal(Seq::filter);
    if s.len() > 0 {
        let rest = s.drop_last();
        assert forall|a: int| 0 <= a < rest.len() implies p(#[trigger] rest[a]) by {
            assert(rest[a] == s[a]);
        }
        lemma_filter_all(rest, p);
        assert(rest.push(s.last()) =~= s);
    }
}

/// Keeps the elements of `v` that pass `keep`, in their order. `p` says in
/// specifications what `keep` computes.
pub(crate) fn retain<T: Copy>(v: &mut Vec<T>, keep: impl Fn(&T) -> bool, Ghost(p): Ghost<spec_fn(T) -> bool>)
    requires
        forall|x: T| call_requires(keep, (&x,)),
        forall|x: T, b: bool| call_ensures(keep, (&x,), b) ==> b == p(x),
    ensures
        final(v)@ == old(v)@.filter(p),
{
    let ghost orig = v@;
    let mut kept: Vec<T> = Vec::new();
    let mut i: usize = 0;
    while i < v.len()
        invariant
            i <= v@.len(),
            v@ == orig,
            kept@ == orig.take(i as int).filter(p),
            forall|x: T| call_requires(keep, (&x,)),
            forall|x: T, b: bool| call_ensures(keep, (&x,), b) ==> b == p(x),
        decreases v.len() - i,
    {
        let x = v[i];
        proof {
            assert(orig.take(i + 1) =~= orig.take(i as int).push(x));
            orig.take(i as int).lemma_filter_push(x, p);
        }
        if keep(&x) {
            kept.push(x);
        }
        i += 1;
    }
    assert(orig.take(i as int) =~= orig);
    *v = kept;
}

/// Keeps the elements of `v` that pass `keep`, in their order. `p` says in
/// specifications what `keep` computes.
pub(crate) fn retain_deque<T: Copy>(
    v: &mut VecDeque<T>,
    keep: impl Fn(&T) -> bool,
    Ghost(p): Ghost<spec_fn(T) -> bool>,
)
    requires
        forall|x: T| call_requires(keep, (&x,)),
        forall|x: T, b: bool| call_ensures(keep, (&x,), b) ==> b == p(x),
    ensures
        final(v)@ == old(v)@.filter(p),
{
    let ghost orig = v@;
    let mut kept: VecDeque<T> = VecDeque::new();
    let mut i: usize = 0;
    while i < v.len()
        invariant
            i <= v@.len(),
            v@ == orig,
            kept@ == orig.take(i as int).filter(p),
            forall|x: T| call_requires(keep, (&x,)),
            forall|x: T, b: bool| call_ensures(keep, (&x,), b) ==> b == p(x),
        decreases v.len() - i,
    {
        let x = v[i];
        proof {
            assert(orig.take(i + 1) =~= orig.take(i as int).push(x));
            orig.take(i as int).lemma_filter_push(x, p);
        }
        if keep(&x) {
            kept.push_back(x);
        }
        i += 1;
    }
    assert(orig.take(i as int) =~= orig);
    *v = kept;
}

} // verus!
