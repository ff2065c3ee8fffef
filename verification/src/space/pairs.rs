//! Pairs of numbers, sorted and each once.

use vstd::prelude::*;

verus! {

/// Pairs order by their first number, then by their second.
pub open spec fn pair_lt(a: (u64, u64), b: (u64, u64)) -> bool {
    a.0 < b.0 || (a.0 == b.0 && a.1 < b.1)
}

/// Strictly rising.
pub open spec fn pairs_rise(v: Seq<(u64, u64)>) -> bool {
    forall|i: int, j: int| 0 <= i < j < v.len() ==> pair_lt(#[trigger] v[i], #[trigger] v[j])
}

/// The same pairs occur in both.
pub open spec fn same_pairs(a: Seq<(u64, u64)>, b: Seq<(u64, u64)>) -> bool {
    forall|x: (u64, u64)| #[trigger] a.contains(x) <==> b.contains(x)
}

/// The pairs of `v`, sorted and each once.
pub open spec fn sorted_pairs(v: Seq<(u64, u64)>) -> Seq<(u64, u64)> {
    choose|r: Seq<(u64, u64)>| #[trigger] pairs_rise(r) && same_pairs(r, v)
}

/// There is such a list.
pub proof fn lemma_sorted_exists(v: Seq<(u64, u64)>)
    ensures
        pairs_rise(sorted_pairs(v)),
        same_pairs(sorted_pairs(v), v),
    decreases v.len(),
{
    if v.len() == 0 {
        assert(pairs_rise(v) && same_pairs(v, v));
    } else {
        let init = v.drop_last();
        lemma_sorted_exists(init);
        let s = sorted_pairs(init);
        let x = v.last();
        let r = lemma_place(s, x, s.len() as int);
        assert forall|y: (u64, u64)| #[trigger] r.contains(y) <==> v.contains(y) by {
            assert(s.contains(y) <==> init.contains(y));
            lemma_contains_push(init, x, y);
            assert(init.push(x) =~= v);
        }
        assert(pairs_rise(r) && same_pairs(r, v));
    }
}

/// A pair put in its place, where everything from `n` on comes after it.
proof fn lemma_place(s: Seq<(u64, u64)>, x: (u64, u64), n: int) -> (r: Seq<(u64, u64)>)
    requires
        pairs_rise(s),
        0 <= n <= s.len(),
        forall|i: int| n <= i < s.len() ==> pair_lt(x, #[trigger] s[i]),
    ensures
        pairs_rise(r),
        forall|y: (u64, u64)| #[trigger] r.contains(y) <==> s.contains(y) || y == x,
    decreases n,
{
    if n > 0 && s[n - 1] == x {
        assert(s.contains(x));
        s
    } else if n > 0 && pair_lt(x, s[n - 1]) {
        lemma_place(s, x, n - 1)
    } else {
        let r = s.insert(n, x);
        assert forall|i: int, j: int| 0 <= i < j < r.len() implies pair_lt(
            #[trigger] r[i],
            #[trigger] r[j],
        ) by {
            let a = if i < n {
                i
            } else {
                i - 1
            };
            let b = if j < n {
                j
            } else {
                j - 1
            };
            if i != n {
                assert(r[i] == s[a]);
            }
            if j != n {
                assert(r[j] == s[b]);
            }
            if j == n && i < n - 1 {
                assert(pair_lt(s[i], s[n - 1]));
            }
        }
        assert forall|y: (u64, u64)| #[trigger] r.contains(y) <==> s.contains(y) || y == x by {
            if r.contains(y) {
                let i = choose|i: int| 0 <= i < r.len() && r[i] == y;
                if i < n {
                    assert(s[i] == y);
                } else if i > n {
                    assert(s[i - 1] == y);
                }
            }
            if s.contains(y) {
                let i = choose|i: int| 0 <= i < s.len() && s[i] == y;
                if i < n {
                    assert(r[i] == y);
                } else {
                    assert(r[i + 1] == y);
                }
            }
            assert(r[n] == x);
        }
        r
    }
}

/// There is one such list.
pub proof fn lemma_sorted_unique(a: Seq<(u64, u64)>, b: Seq<(u64, u64)>)
    requires
        pairs_rise(a),
        pairs_rise(b),
        same_pairs(a, b),
    ensures
        a == b,
    decreases a.len(),
{
    if a.len() == 0 {
        if b.len() > 0 {
            assert(b.contains(b[0]));
            assert(a.contains(b[0]));
        }
        assert(a =~= b);
    } else {
        let x = a.last();
        assert(a[a.len() - 1] == x);
        assert(a.contains(x));
        assert(b.contains(x));
        let y = b.last();
        assert(b[b.len() - 1] == y);
        assert(b.contains(y));
        assert(a.contains(y));
        let i = choose|i: int| 0 <= i < b.len() && b[i] == x;
        let j = choose|j: int| 0 <= j < a.len() && a[j] == y;
        assert(x == y) by {
            if i < b.len() - 1 {
                assert(pair_lt(b[i], b[b.len() - 1]));
            }
            if j < a.len() - 1 {
                assert(pair_lt(a[j], a[a.len() - 1]));
            }
        }
        let a1 = a.drop_last();
        let b1 = b.drop_last();
        assert(pairs_rise(a1)) by {
            assert forall|k: int, m: int| 0 <= k < m < a1.len() implies pair_lt(
                #[trigger] a1[k],
                #[trigger] a1[m],
            ) by {
                assert(a1[k] == a[k] && a1[m] == a[m]);
            }
        }
        assert(pairs_rise(b1)) by {
            assert forall|k: int, m: int| 0 <= k < m < b1.len() implies pair_lt(
                #[trigger] b1[k],
                #[trigger] b1[m],
            ) by {
                assert(b1[k] == b[k] && b1[m] == b[m]);
            }
        }
        assert forall|z: (u64, u64)| #[trigger] a1.contains(z) <==> b1.contains(z) by {
            if a1.contains(z) {
                let k = choose|k: int| 0 <= k < a1.len() && a1[k] == z;
                assert(a[k] == z);
                assert(pair_lt(a[k], a[a.len() - 1]));
                assert(a.contains(z));
                assert(b.contains(z));
                let m = choose|m: int| 0 <= m < b.len() && b[m] == z;
                assert(b1[m] == z);
            }
            if b1.contains(z) {
                let k = choose|k: int| 0 <= k < b1.len() && b1[k] == z;
                assert(b[k] == z);
                assert(pair_lt(b[k], b[b.len() - 1]));
                assert(b.contains(z));
                assert(a.contains(z));
                let m = choose|m: int| 0 <= m < a.len() && a[m] == z;
                assert(a1[m] == z);
            }
        }
        lemma_sorted_unique(a1, b1);
        assert(a =~= a1.push(x));
        assert(b =~= b1.push(x));
    }
}

/// A list is the sorted one.
pub proof fn lemma_sorted_is(r: Seq<(u64, u64)>, v: Seq<(u64, u64)>)
    requires
        pairs_rise(r),
        same_pairs(r, v),
    ensures
        r == sorted_pairs(v),
{
    let t = sorted_pairs(v);
    assert(pairs_rise(t) && same_pairs(t, v));
    assert forall|x: (u64, u64)| #[trigger] r.contains(x) <==> t.contains(x) by {
        assert(r.contains(x) <==> v.contains(x));
        assert(t.contains(x) <==> v.contains(x));
    }
    lemma_sorted_unique(r, t);
}

/// Does the first pair come before the second?
fn is_before(a: (u64, u64), b: (u64, u64)) -> (r: bool)
    ensures
        r == pair_lt(a, b),
{
    a.0 < b.0 || (a.0 == b.0 && a.1 < b.1)
}

/// The first `i` pairs of one list, or the first `j` of another.
spec fn in_either(
    a: Seq<(u64, u64)>,
    i: int,
    b: Seq<(u64, u64)>,
    j: int,
    x: (u64, u64),
) -> bool {
    (exists|k: int| 0 <= k < i && #[trigger] a[k] == x) || (exists|k: int|
        0 <= k < j && #[trigger] b[k] == x)
}

/// One more of the first list.
proof fn lemma_in_either_left(
    a: Seq<(u64, u64)>,
    i: int,
    b: Seq<(u64, u64)>,
    j: int,
    x: (u64, u64),
)
    requires
        0 <= i < a.len(),
    ensures
        in_either(a, i + 1, b, j, x) <==> in_either(a, i, b, j, x) || x == a[i],
{
    if exists|k: int| 0 <= k < i + 1 && #[trigger] a[k] == x {
        let k = choose|k: int| 0 <= k < i + 1 && #[trigger] a[k] == x;
        assert(k < i || x == a[i]);
    }
    if exists|k: int| 0 <= k < i && #[trigger] a[k] == x {
        let k = choose|k: int| 0 <= k < i && #[trigger] a[k] == x;
        assert(0 <= k < i + 1);
    }
}

/// One more of the second list.
proof fn lemma_in_either_right(
    a: Seq<(u64, u64)>,
    i: int,
    b: Seq<(u64, u64)>,
    j: int,
    x: (u64, u64),
)
    requires
        0 <= j < b.len(),
    ensures
        in_either(a, i, b, j + 1, x) <==> in_either(a, i, b, j, x) || x == b[j],
{
    if exists|k: int| 0 <= k < j + 1 && #[trigger] b[k] == x {
        let k = choose|k: int| 0 <= k < j + 1 && #[trigger] b[k] == x;
        assert(k < j || x == b[j]);
    }
    if exists|k: int| 0 <= k < j && #[trigger] b[k] == x {
        let k = choose|k: int| 0 <= k < j && #[trigger] b[k] == x;
        assert(0 <= k < j + 1);
    }
}

/// One more pair on a list.
proof fn lemma_contains_push(out: Seq<(u64, u64)>, p: (u64, u64), x: (u64, u64))
    ensures
        out.push(p).contains(x) <==> out.contains(x) || x == p,
{
    let more = out.push(p);
    if more.contains(x) {
        let k = choose|k: int| 0 <= k < more.len() && more[k] == x;
        if k < out.len() {
            assert(out[k] == x);
        }
    }
    if out.contains(x) {
        let k = choose|k: int| 0 <= k < out.len() && out[k] == x;
        assert(more[k] == x);
    }
    assert(more[out.len() as int] == p);
}

/// Two sorted lists as one, each pair once.
#[verifier::spinoff_prover]
fn merge_pairs(a: &Vec<(u64, u64)>, b: &Vec<(u64, u64)>) -> (r: Vec<(u64, u64)>)
    requires
        pairs_rise(a@),
        pairs_rise(b@),
    ensures
        pairs_rise(r@),
        forall|x: (u64, u64)| #[trigger] r@.contains(x) <==> a@.contains(x) || b@.contains(x),
{
    let mut out: Vec<(u64, u64)> = Vec::new();
    let mut i: usize = 0;
    let mut j: usize = 0;
    while i < a.len() || j < b.len()
        invariant
            i <= a@.len(),
            j <= b@.len(),
            pairs_rise(a@),
            pairs_rise(b@),
            pairs_rise(out@),
            forall|x: (u64, u64)| #[trigger]
                out@.contains(x) <==> in_either(a@, i as int, b@, j as int, x),
            forall|k: int| 0 <= k < out@.len() && i < a@.len() ==> pair_lt(
                #[trigger] out@[k],
                a@[i as int],
            ),
            forall|k: int| 0 <= k < out@.len() && j < b@.len() ==> pair_lt(
                #[trigger] out@[k],
                b@[j as int],
            ),
        decreases a@.len() - i + b@.len() - j,
    {
        let left: bool = j >= b.len() || (i < a.len() && !is_before(b[j], a[i]));
        let right: bool = i >= a.len() || (j < b.len() && !is_before(a[i], b[j]));
        let ghost had = out@;
        let p: (u64, u64) = if left {
            a[i]
        } else {
            b[j]
        };
        out.push(p);
        proof {
            assert forall|x: (u64, u64)| #[trigger]
                out@.contains(x) <==> in_either(
                    a@,
                    i + if left {
                        1int
                    } else {
                        0
                    },
                    b@,
                    j + if right {
                        1int
                    } else {
                        0
                    },
                    x,
                ) by {
                lemma_contains_push(had, p, x);
                assert(had.contains(x) <==> in_either(a@, i as int, b@, j as int, x));
                if left {
                    lemma_in_either_left(a@, i as int, b@, j as int, x);
                    if right {
                        lemma_in_either_right(a@, i + 1, b@, j as int, x);
                    }
                } else {
                    lemma_in_either_right(a@, i as int, b@, j as int, x);
                }
            }
            assert forall|k: int, m: int| 0 <= k < m < out@.len() implies pair_lt(
                #[trigger] out@[k],
                #[trigger] out@[m],
            ) by {
                if m == had.len() {
                    assert(out@[k] == had[k]);
                }
            }
            assert forall|k: int|
                0 <= k < out@.len() && left && i + 1 < a@.len() implies pair_lt(
                #[trigger] out@[k],
                a@[i + 1],
            ) by {
                assert(pair_lt(a@[i as int], a@[i + 1]));
            }
            assert forall|k: int|
                0 <= k < out@.len() && right && j + 1 < b@.len() implies pair_lt(
                #[trigger] out@[k],
                b@[j + 1],
            ) by {
                assert(pair_lt(b@[j as int], b@[j + 1]));
            }
        }
        if left {
            i = i + 1;
        }
        if right {
            j = j + 1;
        }
    }
    proof {
        assert forall|x: (u64, u64)| #[trigger]
            out@.contains(x) <==> a@.contains(x) || b@.contains(x) by {
            assert(out@.contains(x) <==> in_either(a@, i as int, b@, j as int, x));
            if a@.contains(x) {
                let k = choose|k: int| 0 <= k < a@.len() && a@[k] == x;
                assert(a@[k] == x);
            }
            if b@.contains(x) {
                let k = choose|k: int| 0 <= k < b@.len() && b@[k] == x;
                assert(b@[k] == x);
            }
        }
    }
    out
}

/// The pairs of `v` from `lo` up to `hi`, sorted and each once.
#[verifier::spinoff_prover]
fn sort_part(v: &Vec<(u64, u64)>, lo: usize, hi: usize) -> (r: Vec<(u64, u64)>)
    requires
        lo <= hi <= v@.len(),
    ensures
        pairs_rise(r@),
        same_pairs(r@, v@.subrange(lo as int, hi as int)),
    decreases hi - lo,
{
    let ghost part = v@.subrange(lo as int, hi as int);
    let mut out: Vec<(u64, u64)> = Vec::new();
    if lo == hi {
        assert(out@ =~= part);
        return out;
    }
    if hi - lo == 1 {
        out.push(v[lo]);
        assert(out@ =~= part);
        return out;
    }
    let mid: usize = lo + (hi - lo) / 2;
    let a = sort_part(v, lo, mid);
    let b = sort_part(v, mid, hi);
    let r = merge_pairs(&a, &b);
    proof {
        let left = v@.subrange(lo as int, mid as int);
        let right = v@.subrange(mid as int, hi as int);
        assert(part =~= left + right);
        assert forall|x: (u64, u64)| #[trigger] r@.contains(x) <==> part.contains(x) by {
            assert(r@.contains(x) <==> a@.contains(x) || b@.contains(x));
            assert(a@.contains(x) <==> left.contains(x));
            assert(b@.contains(x) <==> right.contains(x));
            if part.contains(x) {
                let k = choose|k: int| 0 <= k < part.len() && part[k] == x;
                if k < left.len() {
                    assert(left[k] == x);
                } else {
                    assert(right[k - left.len()] == x);
                }
            }
            if left.contains(x) {
                let k = choose|k: int| 0 <= k < left.len() && left[k] == x;
                assert(part[k] == x);
            }
            if right.contains(x) {
                let k = choose|k: int| 0 <= k < right.len() && right[k] == x;
                assert(part[left.len() + k] == x);
            }
        }
    }
    r
}

/// The pairs of `v`, sorted and each once.
pub fn sort_pairs(v: &Vec<(u64, u64)>) -> (r: Vec<(u64, u64)>)
    ensures
        r@ == sorted_pairs(v@),
        pairs_rise(r@),
        same_pairs(r@, v@),
{
    let r = sort_part(v, 0, v.len());
    proof {
        assert(v@.subrange(0, v@.len() as int) =~= v@);
        lemma_sorted_is(r@, v@);
    }
    r
}

} // verus!
