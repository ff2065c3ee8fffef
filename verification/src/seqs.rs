//! Sequences of sequences laid end to end.

use vstd::prelude::*;

verus! {

/// What `f` gives for each element, end to end.
pub open spec fn flat<A, B>(f: spec_fn(A) -> Seq<B>, s: Seq<A>) -> Seq<B>
    decreases s.len(),
{
    if s.len() == 0 {
        Seq::<B>::empty()
    } else {
        flat(f, s.drop_last()) + f(s.last())
    }
}

pub proof fn lemma_flat_push<A, B>(f: spec_fn(A) -> Seq<B>, s: Seq<A>, x: A)
    ensures
        flat(f, s.push(x)) == flat(f, s) + f(x),
{
    assert(s.push(x).drop_last() =~= s);
}

pub proof fn lemma_flat_one<A, B>(f: spec_fn(A) -> Seq<B>, x: A)
    ensures
        flat(f, seq![x]) == f(x),
{
    assert(seq![x].drop_last() =~= Seq::<A>::empty());
    assert(flat(f, Seq::<A>::empty()) =~= Seq::<B>::empty());
    assert(flat(f, seq![x]) == flat(f, seq![x].drop_last()) + f(seq![x].last()));
    assert(flat(f, seq![x]) =~= f(x));
}

pub proof fn lemma_flat_append<A, B>(f: spec_fn(A) -> Seq<B>, a: Seq<A>, b: Seq<A>)
    ensures
        flat(f, a + b) == flat(f, a) + flat(f, b),
    decreases b.len(),
{
    if b.len() == 0 {
        assert(a + b =~= a);
        assert(flat(f, a) + flat(f, b) =~= flat(f, a));
    } else {
        assert((a + b).drop_last() =~= a + b.drop_last());
        lemma_flat_append(f, a, b.drop_last());
        assert(flat(f, a + b) =~= flat(f, a) + flat(f, b));
    }
}

/// Elements before, at and after position `i`.
pub proof fn lemma_flat_split<A, B>(f: spec_fn(A) -> Seq<B>, s: Seq<A>, i: int)
    requires
        0 <= i < s.len(),
    ensures
        flat(f, s) == flat(f, s.take(i)) + f(s[i]) + flat(f, s.skip(i + 1)),
        flat(f, s.take(i + 1)) == flat(f, s.take(i)) + f(s[i]),
        flat(f, s.skip(i)) == f(s[i]) + flat(f, s.skip(i + 1)),
{
    assert(s.take(i + 1) =~= s.take(i).push(s[i]));
    lemma_flat_push(f, s.take(i), s[i]);
    assert(s =~= s.take(i + 1) + s.skip(i + 1));
    lemma_flat_append(f, s.take(i + 1), s.skip(i + 1));
    assert(s.skip(i) =~= seq![s[i]] + s.skip(i + 1));
    lemma_flat_append(f, seq![s[i]], s.skip(i + 1));
    lemma_flat_one(f, s[i]);
}

/// Where an inner element stands.
pub proof fn lemma_flat_index<A, B>(f: spec_fn(A) -> Seq<B>, s: Seq<A>, i: int, j: int)
    requires
        0 <= i < s.len(),
        0 <= j < f(s[i]).len(),
    ensures
        flat(f, s.take(i)).len() + j < flat(f, s).len(),
        flat(f, s)[flat(f, s.take(i)).len() + j] == f(s[i])[j],
{
    lemma_flat_split(f, s, i);
}

/// Which outer element an inner one comes from.
pub proof fn lemma_flat_find<A, B>(f: spec_fn(A) -> Seq<B>, s: Seq<A>, n: int) -> (r: (int, int))
    requires
        0 <= n < flat(f, s).len(),
    ensures
        0 <= r.0 < s.len(),
        0 <= r.1 < f(s[r.0]).len(),
        n == flat(f, s.take(r.0)).len() + r.1,
        flat(f, s)[n] == f(s[r.0])[r.1],
    decreases s.len(),
{
    let init = s.drop_last();
    let m = flat(f, init).len() as int;
    if n < m {
        let r = lemma_flat_find(f, init, n);
        assert(init.take(r.0) =~= s.take(r.0));
        r
    } else {
        assert(s.take(s.len() - 1) =~= init);
        (s.len() - 1, n - m)
    }
}

/// Functions that agree on the elements give the same.
pub proof fn lemma_flat_same<A, B>(f: spec_fn(A) -> Seq<B>, g: spec_fn(A) -> Seq<B>, s: Seq<A>)
    requires
        forall|i: int| 0 <= i < s.len() ==> f(#[trigger] s[i]) == g(s[i]),
    ensures
        flat(f, s) == flat(g, s),
    decreases s.len(),
{
    if s.len() > 0 {
        let init = s.drop_last();
        assert forall|i: int| 0 <= i < init.len() implies f(#[trigger] init[i]) == g(init[i]) by {
            assert(init[i] == s[i]);
        }
        lemma_flat_same(f, g, init);
        assert(s.last() == s[s.len() - 1]);
    }
}

} // verus!
