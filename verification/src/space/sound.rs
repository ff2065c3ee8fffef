//! Reading a sound tree gives what the tree holds.

use vstd::prelude::*;

use crate::bytes::{
    lemma_lex_le_lt, lemma_lex_lt_le, lemma_lex_total, lemma_lex_trans, lex_le, lex_lt,
};
use crate::container::Image;
use crate::error::Error;
use crate::seqs::{lemma_flat_append, lemma_flat_one};
use crate::space::index::{
    child_index, keys_sorted, lemma_child_index, lemma_lookup, lookup, ChildView, EntryView,
    Namespace,
};
use crate::space::model::{
    below, forest, kids, leaves, lemma_level_entries_append, lemma_level_first,
    lemma_level_ok_append, lemma_level_slots_live, lemma_sorted_parts, level_entries, level_slots,
    node_fits, root_ptr, slots_of, tree, tree_entries,
};
use crate::space::reads::{
    everything, first_wanted, gather, gather_back, gather_kids, gather_kids_back, last_wanted,
    page_after, page_back, range_of, scan, scan_back, search, value_of, Gathered, QueryView,
};
use crate::space::walk::{walk_refusal, walk_step, WalkView};
use crate::space::{root_of, Space};
use crate::tx::commit::RootView;

verus! {

// ---------------------------------------------------------------------------
// Slots
// ---------------------------------------------------------------------------

/// The slots under two lists of nodes are those under each.
pub proof fn lemma_level_slots_append(
    img: Image,
    ns: Namespace,
    a: Seq<ChildView>,
    b: Seq<ChildView>,
    h: nat,
)
    ensures
        level_slots(img, ns, a + b, h).len() == level_slots(img, ns, a, h).len() + level_slots(
            img,
            ns,
            b,
            h,
        ).len(),
        level_slots(img, ns, a + b, h).to_multiset() == level_slots(
            img,
            ns,
            a,
            h,
        ).to_multiset().add(level_slots(img, ns, b, h).to_multiset()),
    decreases h,
{
    broadcast use vstd::seq_lib::lemma_multiset_commutative;
    broadcast use vstd::multiset::group_multiset_axioms;

    assert(slots_of(a + b) =~= slots_of(a) + slots_of(b));
    if h > 0 {
        let k = (h - 1) as nat;
        lemma_flat_append(kids(img, ns), a, b);
        lemma_level_slots_append(img, ns, below(img, ns, a), below(img, ns, b), k);
        let sa = level_slots(img, ns, below(img, ns, a), k);
        let sb = level_slots(img, ns, below(img, ns, b), k);
        assert(level_slots(img, ns, a + b, h).to_multiset() =~= level_slots(
            img,
            ns,
            a,
            h,
        ).to_multiset().add(level_slots(img, ns, b, h).to_multiset()));
    }
}

/// Slots of which none occurs twice: the parts have none in common.
pub proof fn lemma_level_slots_apart(
    img: Image,
    ns: Namespace,
    a: Seq<ChildView>,
    b: Seq<ChildView>,
    h: nat,
)
    ensures
        forall|s: u64| #[trigger]
            level_slots(img, ns, a + b, h).contains(s) <==> level_slots(img, ns, a, h).contains(s)
                || level_slots(img, ns, b, h).contains(s),
        level_slots(img, ns, a + b, h).no_duplicates() ==> {
            &&& level_slots(img, ns, a, h).no_duplicates()
            &&& level_slots(img, ns, b, h).no_duplicates()
            &&& forall|s: u64|
                !(#[trigger] level_slots(img, ns, a, h).contains(s) && #[trigger] level_slots(
                    img,
                    ns,
                    b,
                    h,
                ).contains(s))
        },
{
    broadcast use vstd::multiset::group_multiset_axioms;
    broadcast use vstd::seq_lib::group_to_multiset_ensures;

    let x = level_slots(img, ns, a, h);
    let y = level_slots(img, ns, b, h);
    let z = level_slots(img, ns, a + b, h);
    lemma_level_slots_append(img, ns, a, b, h);
    assert forall|s: u64| #[trigger] z.contains(s) <==> x.contains(s) || y.contains(s) by {
        assert(z.to_multiset().count(s) == x.to_multiset().count(s) + y.to_multiset().count(s));
        assert(z.contains(s) <==> z.to_multiset().count(s) > 0);
        assert(x.contains(s) <==> x.to_multiset().count(s) > 0);
        assert(y.contains(s) <==> y.to_multiset().count(s) > 0);
    }
    if z.no_duplicates() {
        z.lemma_multiset_has_no_duplicates();
        assert forall|s: u64|
            #[trigger] z.to_multiset().count(s) <= 1 by {
            if z.to_multiset().contains(s) {
                assert(z.to_multiset().count(s) == 1);
            }
        }
        assert forall|s: u64| x.to_multiset().contains(s) implies #[trigger] x.to_multiset().count(
            s,
        ) == 1 by {
            assert(z.to_multiset().count(s) <= 1);
        }
        assert forall|s: u64| y.to_multiset().contains(s) implies #[trigger] y.to_multiset().count(
            s,
        ) == 1 by {
            assert(z.to_multiset().count(s) <= 1);
        }
        x.lemma_multiset_has_no_duplicates_conv();
        y.lemma_multiset_has_no_duplicates_conv();
        assert forall|s: u64| !(#[trigger] x.contains(s) && #[trigger] y.contains(s)) by {
            assert(z.to_multiset().count(s) <= 1);
            if x.contains(s) && y.contains(s) {
                assert(x.to_multiset().count(s) > 0);
                assert(y.to_multiset().count(s) > 0);
            }
        }
    }
}

/// A walk can still go to all of these slots.
pub open spec fn open_to(w: WalkView, slots: Seq<u64>) -> bool {
    &&& w.budget >= slots.len()
    &&& forall|s: u64| #[trigger]
        slots.contains(s) ==> s < w.capacity && !w.visited.contains(s)
}

/// A walk has gone to none but these slots.
pub open spec fn went(a: WalkView, b: WalkView, slots: Seq<u64>) -> bool {
    &&& b.capacity == a.capacity
    &&& b.max_depth == a.max_depth
    &&& b.budget + slots.len() >= a.budget
    &&& forall|s: u64| #[trigger]
        b.visited.contains(s) ==> a.visited.contains(s) || slots.contains(s)
}

// ---------------------------------------------------------------------------
// One node
// ---------------------------------------------------------------------------

/// What a single sound node is, and what stands below it.
pub proof fn lemma_one(img: Image, ns: Namespace, p: ChildView, h: nat)
    requires
        forest(img, ns, seq![p], h),
    ensures
        node_fits(img, ns, p, h),
        level_slots(img, ns, seq![p], h).contains(p.child_slot),
        h == 0 ==> {
            &&& level_entries(img, ns, seq![p], h) == leaves(img, ns)(p)
            &&& level_slots(img, ns, seq![p], h).len() == 1
        },
        h > 0 ==> {
            &&& below(img, ns, seq![p]) == kids(img, ns)(p)
            &&& level_entries(img, ns, seq![p], h) == level_entries(
                img,
                ns,
                kids(img, ns)(p),
                (h - 1) as nat,
            )
            &&& level_slots(img, ns, seq![p], h).len() == 1 + level_slots(
                img,
                ns,
                kids(img, ns)(p),
                (h - 1) as nat,
            ).len()
            &&& forall|s: u64| #[trigger]
                level_slots(img, ns, kids(img, ns)(p), (h - 1) as nat).contains(s)
                    ==> level_slots(img, ns, seq![p], h).contains(s) && s != p.child_slot
            &&& forest(img, ns, kids(img, ns)(p), (h - 1) as nat)
        },
{
    let ps = seq![p];
    assert(ps[0] == p);
    assert(node_fits(img, ns, ps[0], h));
    lemma_flat_one(leaves(img, ns), p);
    lemma_flat_one(kids(img, ns), p);
    let all = level_slots(img, ns, ps, h);
    assert(slots_of(ps) =~= seq![p.child_slot]);
    assert(all[0] == p.child_slot);
    if h > 0 {
        let k = (h - 1) as nat;
        let cs = kids(img, ns)(p);
        let sub = level_slots(img, ns, cs, k);
        assert(all == slots_of(ps) + sub);
        assert forall|s: u64| #[trigger] sub.contains(s) implies all.contains(s)
            && s != p.child_slot by {
            let i = choose|i: int| 0 <= i < sub.len() && sub[i] == s;
            assert(all[i + 1] == s);
        }
        assert(sub.no_duplicates()) by {
            assert forall|i: int, j: int|
                0 <= i < sub.len() && 0 <= j < sub.len() && i != j implies sub[i] != sub[j] by {
                assert(all[i + 1] == sub[i] && all[j + 1] == sub[j]);
            }
        }
    }
}

/// A part of a sound level is sound.
pub proof fn lemma_forest_parts(
    img: Image,
    ns: Namespace,
    a: Seq<ChildView>,
    b: Seq<ChildView>,
    h: nat,
)
    requires
        forest(img, ns, a + b, h),
    ensures
        forest(img, ns, a, h),
        forest(img, ns, b, h),
        level_entries(img, ns, a + b, h) == level_entries(img, ns, a, h) + level_entries(
            img,
            ns,
            b,
            h,
        ),
{
    lemma_level_entries_append(img, ns, a, b, h);
    lemma_level_ok_append(img, ns, a, b, h);
    lemma_level_slots_apart(img, ns, a, b, h);
    lemma_sorted_parts(level_entries(img, ns, a, h), level_entries(img, ns, b, h));
}

/// Finding a key in two lists.
pub proof fn lemma_lookup_append(a: Seq<EntryView>, b: Seq<EntryView>, key: Seq<u8>)
    ensures
        lookup(a + b, key) == match lookup(b, key) {
            Some(v) => Some(v),
            None => lookup(a, key),
        },
    decreases b.len(),
{
    if b.len() == 0 {
        assert(a + b =~= a);
    } else {
        assert((a + b).drop_last() =~= a + b.drop_last());
        assert((a + b).last() == b.last());
        lemma_lookup_append(a, b.drop_last(), key);
    }
}

/// A key that no entry has is not found.
pub proof fn lemma_not_found(es: Seq<EntryView>, key: Seq<u8>)
    requires
        forall|i: int| 0 <= i < es.len() ==> (#[trigger] es[i]).0 != key,
    ensures
        lookup(es, key) is None,
{
    lemma_lookup(es, key);
}

/// Searching a sound tree finds what the tree holds.
#[verifier::spinoff_prover]
pub proof fn lemma_search(
    img: Image,
    ns: Namespace,
    key: Seq<u8>,
    p: ChildView,
    h: nat,
    depth: int,
    w: WalkView,
)
    requires
        forest(img, ns, seq![p], h),
        open_to(w, level_slots(img, ns, seq![p], h)),
        0 <= depth,
        depth + h <= w.max_depth,
    ensures
        search(img, ns, key, p.child_slot, depth, w, w.max_depth as int) == Ok::<
            Option<Seq<u8>>,
            Error,
        >(lookup(level_entries(img, ns, seq![p], h), key)),
    decreases h,
{
    lemma_one(img, ns, p, h);
    let all = level_slots(img, ns, seq![p], h);
    assert(all.contains(p.child_slot));
    assert(walk_refusal(w, p.child_slot, depth) is None);
    if h > 0 {
        let k = (h - 1) as nat;
        let cs = kids(img, ns)(p);
        let i = child_index(cs, key);
        lemma_child_index(cs, key);
        let l = cs.take(i);
        let r = cs.skip(i + 1);
        let c = cs[i];
        let lc = l + seq![c];
        assert(cs =~= lc + r);
        lemma_forest_parts(img, ns, lc, r, k);
        lemma_forest_parts(img, ns, l, seq![c], k);
        lemma_level_slots_apart(img, ns, lc, r, k);
        lemma_level_slots_apart(img, ns, l, seq![c], k);
        lemma_level_slots_append(img, ns, lc, r, k);
        lemma_level_slots_append(img, ns, l, seq![c], k);
        let el = level_entries(img, ns, l, k);
        let ec = level_entries(img, ns, seq![c], k);
        let er = level_entries(img, ns, r, k);
        lemma_lookup_append(el + ec, er, key);
        lemma_lookup_append(el, ec, key);
        lemma_level_first(img, ns, seq![c], k);
        lemma_sorted_parts(el + ec, er);
        lemma_sorted_parts(el, ec);
        // Nothing to the left has the key: it all comes before the child's
        // first key.
        assert forall|j: int| 0 <= j < el.len() implies (#[trigger] el[j]).0 != key by {
            if i == 0 {
                assert(l =~= Seq::<ChildView>::empty());
                lemma_empty_level(img, ns, k);
            } else {
                assert(lex_lt(el[j].0, ec[0].0));
                lemma_lex_lt_le(el[j].0, c.first_key, key);
                lemma_lex_total(el[j].0, key);
            }
        }
        lemma_not_found(el, key);
        // Nor does anything to the right.
        assert forall|j: int| 0 <= j < er.len() implies (#[trigger] er[j]).0 != key by {
            if r.len() == 0 {
                assert(r =~= Seq::<ChildView>::empty());
                lemma_empty_level(img, ns, k);
            } else {
                lemma_level_first(img, ns, r, k);
                assert(r[0] == cs[i + 1]);
                assert(lex_lt(key, cs[i + 1].first_key));
                if j > 0 {
                    assert(lex_lt(er[0].0, er[j].0));
                    lemma_lex_trans(key, er[0].0, er[j].0);
                }
                lemma_lex_total(er[j].0, key);
            }
        }
        lemma_not_found(er, key);
        let w1 = walk_step(w, p.child_slot);
        let sub = level_slots(img, ns, seq![c], k);
        assert(open_to(w1, sub)) by {
            assert forall|s: u64| #[trigger] sub.contains(s) implies s < w1.capacity
                && !w1.visited.contains(s) by {
                assert(level_slots(img, ns, lc, k).contains(s));
                assert(level_slots(img, ns, lc + r, k).contains(s));
                assert(level_slots(img, ns, cs, k).contains(s));
            }
        }
        lemma_search(img, ns, key, c, k, depth + 1, w1);
    }
}

/// No nodes hold no entries.
pub proof fn lemma_empty_level(img: Image, ns: Namespace, h: nat)
    ensures
        level_entries(img, ns, Seq::<ChildView>::empty(), h).len() == 0,
        level_slots(img, ns, Seq::<ChildView>::empty(), h).len() == 0,
    decreases h,
{
    let none = Seq::<ChildView>::empty();
    assert(slots_of(none).len() == 0);
    if h > 0 {
        assert(below(img, ns, none) =~= none);
        lemma_empty_level(img, ns, (h - 1) as nat);
    }
}

// ---------------------------------------------------------------------------
// Ranges
// ---------------------------------------------------------------------------

/// The entry lies in the range that a query asks for.
pub open spec fn wanted(q: QueryView, e: EntryView) -> bool {
    !q.too_early(e.0) && !q.too_late(e.0)
}

/// The entries that lie in the range that a query asks for, in order.
pub open spec fn picks(q: QueryView, es: Seq<EntryView>) -> Seq<EntryView>
    decreases es.len(),
{
    if es.len() == 0 {
        es
    } else if wanted(q, es[0]) {
        seq![es[0]] + picks(q, es.drop_first())
    } else {
        picks(q, es.drop_first())
    }
}

/// As many of the entries as are still wanted where `n` have been read.
pub open spec fn cut(q: QueryView, n: nat, s: Seq<EntryView>) -> Seq<EntryView> {
    match q.limit {
        None => s,
        Some(l) => if n >= l {
            Seq::<EntryView>::empty()
        } else if s.len() > l - n {
            s.take(l - n)
        } else {
            s
        },
    }
}

/// The entries that a query asks for, of all that are held.
pub open spec fn answer(q: QueryView, es: Seq<EntryView>) -> Seq<EntryView> {
    cut(q, 0, picks(q, es))
}

/// Some entry comes after the range.
pub open spec fn runs_out(q: QueryView, es: Seq<EntryView>) -> bool {
    exists|i: int| 0 <= i < es.len() && q.too_late((#[trigger] es[i]).0)
}

/// Every key is a record number's, where those are asked for.
pub open spec fn fits_query(q: QueryView, es: Seq<EntryView>) -> bool {
    q.log ==> forall|i: int| 0 <= i < es.len() ==> (#[trigger] es[i]).0.len() == 8
}

/// The range does not end before it starts.
pub open spec fn sane(q: QueryView) -> bool {
    q.from is Some && q.until is Some ==> lex_lt(q.from->0, q.until->0)
}

/// No key lies both before and after a range.
pub proof fn lemma_not_both(q: QueryView, k: Seq<u8>)
    requires
        sane(q),
    ensures
        !(q.too_early(k) && q.too_late(k)),
{
    if q.too_early(k) && q.too_late(k) {
        let f = q.from->0;
        let u = q.until->0;
        lemma_lex_total(k, f);
        lemma_lex_total(u, k);
        if k == f {
            lemma_lex_lt_le(f, u, k);
        } else {
            lemma_lex_trans(k, f, u);
            lemma_lex_lt_le(k, u, k);
        }
        lemma_lex_total(k, k);
    }
}

/// What is picked from two lists is picked from each.
pub proof fn lemma_picks_append(q: QueryView, a: Seq<EntryView>, b: Seq<EntryView>)
    ensures
        picks(q, a + b) == picks(q, a) + picks(q, b),
    decreases a.len(),
{
    if a.len() == 0 {
        assert(a + b =~= b);
        assert(picks(q, a) + picks(q, b) =~= picks(q, b));
    } else {
        assert((a + b).drop_first() =~= a.drop_first() + b);
        assert((a + b)[0] == a[0]);
        lemma_picks_append(q, a.drop_first(), b);
        if wanted(q, a[0]) {
            assert(seq![a[0]] + (picks(q, a.drop_first()) + picks(q, b)) =~= (seq![a[0]] + picks(
                q,
                a.drop_first(),
            )) + picks(q, b));
        }
    }
}

/// Nothing is picked where nothing is wanted.
pub proof fn lemma_picks_none(q: QueryView, es: Seq<EntryView>)
    requires
        forall|i: int| 0 <= i < es.len() ==> !wanted(q, #[trigger] es[i]),
    ensures
        picks(q, es).len() == 0,
    decreases es.len(),
{
    if es.len() > 0 {
        let t = es.drop_first();
        assert forall|i: int| 0 <= i < t.len() implies !wanted(q, #[trigger] t[i]) by {
            assert(t[i] == es[i + 1]);
        }
        assert(!wanted(q, es[0]));
        lemma_picks_none(q, t);
    }
}

/// A later key is no less late.
pub proof fn lemma_late(q: QueryView, a: Seq<u8>, b: Seq<u8>)
    requires
        lex_lt(a, b),
        q.too_late(a),
    ensures
        q.too_late(b),
{
    let u = q.until->0;
    lemma_lex_le_lt(u, a, b);
    lemma_lex_total(u, b);
}

/// Cutting two lists is cutting the first, and then the second.
pub proof fn lemma_cut_append(q: QueryView, n: nat, a: Seq<EntryView>, b: Seq<EntryView>)
    ensures
        cut(q, n, a + b) == cut(q, n, a) + cut(q, n + cut(q, n, a).len(), b),
{
    let x = cut(q, n, a);
    match q.limit {
        None => {},
        Some(l) => {
            if n >= l {
                assert(cut(q, n, a + b) =~= x + cut(q, n + x.len(), b));
            } else if a.len() > l - n {
                assert((a + b).take(l - n) =~= a.take(l - n));
                assert(cut(q, n + x.len(), b).len() == 0);
                assert(cut(q, n, a + b) =~= x + cut(q, n + x.len(), b));
            } else {
                assert(cut(q, n, a + b) =~= x + cut(q, n + x.len(), b));
            }
        },
    }
}

/// Reading a leaf gives what is wanted of it.
pub proof fn lemma_scan(
    q: QueryView,
    es: Seq<EntryView>,
    i: int,
    w: WalkView,
    out: Seq<EntryView>,
)
    requires
        0 <= i <= es.len(),
        keys_sorted(es),
        fits_query(q, es),
        sane(q),
    ensures
        ({
            let g = scan(q, es, i, w, out);
            &&& g.w == w
            &&& g.out == out + cut(q, out.len(), picks(q, es.skip(i)))
            &&& g.end matches Ok(stop) && (stop ==> q.full(g.out.len()) || runs_out(q, es))
                && (!stop ==> !q.full(g.out.len()) && !runs_out(q, es.skip(i)))
        }),
    decreases es.len() - i,
{
    let rest = es.skip(i);
    if i >= es.len() {
        assert(rest.len() == 0);
        assert(out + cut(q, out.len(), picks(q, rest)) =~= out);
    } else if q.full(out.len()) {
        assert(out + cut(q, out.len(), picks(q, rest)) =~= out);
    } else {
        assert(rest[0] == es[i]);
        assert(rest.drop_first() =~= es.skip(i + 1));
        if q.too_early(es[i].0) {
            lemma_scan(q, es, i + 1, w, out);
            let g = scan(q, es, i, w, out);
            lemma_not_both(q, es[i].0);
            if g.end == Ok::<bool, Error>(false) {
                assert forall|j: int| 0 <= j < rest.len() implies !q.too_late(
                    (#[trigger] rest[j]).0,
                ) by {
                    if j > 0 {
                        assert(rest[j] == es.skip(i + 1)[j - 1]);
                    }
                }
            }
        } else if q.too_late(es[i].0) {
            assert forall|j: int| 0 <= j < rest.len() implies !wanted(q, #[trigger] rest[j]) by {
                assert(rest[j] == es[i + j]);
                if j > 0 {
                    assert(lex_lt(es[i].0, es[i + j].0));
                    lemma_late(q, es[i].0, es[i + j].0);
                }
            }
            lemma_picks_none(q, rest);
            assert(out + cut(q, out.len(), picks(q, rest)) =~= out);
        } else {
            let more = out.push(es[i]);
            lemma_scan(q, es, i + 1, w, more);
            let tail = picks(q, es.skip(i + 1));
            assert(picks(q, rest) == seq![es[i]] + tail);
            lemma_cut_append(q, out.len(), seq![es[i]], tail);
            assert(cut(q, out.len(), seq![es[i]]) =~= seq![es[i]]);
            assert(more + cut(q, more.len(), tail) =~= out + (seq![es[i]] + cut(
                q,
                out.len() + 1,
                tail,
            )));
            let g = scan(q, es, i, w, out);
            if g.end == Ok::<bool, Error>(false) {
                assert forall|j: int| 0 <= j < rest.len() implies !q.too_late(
                    (#[trigger] rest[j]).0,
                ) by {
                    if j > 0 {
                        assert(rest[j] == es.skip(i + 1)[j - 1]);
                    }
                }
            }
        }
    }
}

/// What reading under sound nodes comes to.
pub open spec fn reads_out(
    q: QueryView,
    es: Seq<EntryView>,
    slots: Seq<u64>,
    w: WalkView,
    out: Seq<EntryView>,
    g: Gathered,
) -> bool {
    &&& g.out == out + cut(q, out.len(), picks(q, es))
    &&& went(w, g.w, slots)
    &&& g.end is Ok
    &&& g.end == Ok::<bool, Error>(true) ==> q.full(g.out.len()) || runs_out(q, es)
    &&& g.end == Ok::<bool, Error>(false) ==> !q.full(g.out.len()) && !runs_out(q, es)
}

/// Reading a sound tree from left to right gives what is wanted of it.
#[verifier::spinoff_prover]
#[verifier::rlimit(40)]
pub proof fn lemma_gather(
    img: Image,
    ns: Namespace,
    q: QueryView,
    p: ChildView,
    h: nat,
    depth: int,
    w: WalkView,
    out: Seq<EntryView>,
)
    requires
        forest(img, ns, seq![p], h),
        open_to(w, level_slots(img, ns, seq![p], h)),
        0 <= depth,
        depth + h <= w.max_depth,
        fits_query(q, level_entries(img, ns, seq![p], h)),
        sane(q),
        !q.full(out.len()),
    ensures
        reads_out(
            q,
            level_entries(img, ns, seq![p], h),
            level_slots(img, ns, seq![p], h),
            w,
            out,
            gather(img, ns, q, p.child_slot, depth, w, out, w.max_depth as int),
        ),
    decreases h, 0int,
{
    lemma_one(img, ns, p, h);
    let all = level_slots(img, ns, seq![p], h);
    let es = level_entries(img, ns, seq![p], h);
    assert(all.contains(p.child_slot));
    assert(walk_refusal(w, p.child_slot, depth) is None);
    let w1 = walk_step(w, p.child_slot);
    if h == 0 {
        lemma_scan(q, es, 0, w1, out);
        assert(es.skip(0) =~= es);
    } else {
        let k = (h - 1) as nat;
        let cs = kids(img, ns)(p);
        let i = first_wanted(q, cs);
        if let Some(f) = q.from {
            lemma_child_index(cs, f);
        }
        assert(0 <= i < cs.len());
        let l = cs.take(i);
        let r = cs.skip(i);
        assert(cs =~= l + r);
        lemma_forest_parts(img, ns, l, r, k);
        lemma_level_slots_apart(img, ns, l, r, k);
        lemma_level_slots_append(img, ns, l, r, k);
        let el = level_entries(img, ns, l, k);
        let er = level_entries(img, ns, r, k);
        lemma_sorted_parts(el, er);
        lemma_level_first(img, ns, r, k);
        lemma_picks_append(q, el, er);
        // What is left out comes before the first key asked for.
        assert forall|j: int| 0 <= j < el.len() implies q.too_early((#[trigger] el[j]).0) by {
            if i == 0 {
                assert(l =~= Seq::<ChildView>::empty());
                lemma_empty_level(img, ns, k);
            } else {
                assert(lex_lt(el[j].0, er[0].0));
                assert(r[0] == cs[i]);
                lemma_lex_lt_le(el[j].0, cs[i].first_key, q.from->0);
                lemma_lex_total(el[j].0, q.from->0);
            }
        }
        lemma_picks_none(q, el);
        assert(picks(q, el) + picks(q, er) =~= picks(q, er));
        assert(fits_query(q, er)) by {
            if q.log {
                assert forall|j: int| 0 <= j < er.len() implies (#[trigger] er[j]).0.len() == 8 by {
                    assert(es[el.len() + j] == er[j]);
                }
            }
        }
        assert(open_to(w1, level_slots(img, ns, r, k))) by {
            assert forall|s: u64| #[trigger]
                level_slots(img, ns, r, k).contains(s) implies s < w1.capacity
                && !w1.visited.contains(s) by {
                assert(level_slots(img, ns, l + r, k).contains(s));
                assert(level_slots(img, ns, cs, k).contains(s));
            }
        }
        lemma_gather_kids(img, ns, q, cs, i, k, depth + 1, w1, out);
        let g = gather_kids(img, ns, q, cs, i, depth + 1, w1, out, w.max_depth as int);
        assert(went(w, g.w, all)) by {
            assert forall|s: u64| #[trigger] g.w.visited.contains(s) implies w.visited.contains(s)
                || all.contains(s) by {
                if level_slots(img, ns, r, k).contains(s) {
                    assert(level_slots(img, ns, l + r, k).contains(s));
                    assert(level_slots(img, ns, cs, k).contains(s));
                }
            }
        }
        lemma_runs_out_part(q, el, er);
    }
}

/// A range that does not end in what comes before it can only end after.
proof fn lemma_runs_out_part(q: QueryView, a: Seq<EntryView>, b: Seq<EntryView>)
    requires
        sane(q),
        forall|j: int| 0 <= j < a.len() ==> q.too_early((#[trigger] a[j]).0),
    ensures
        runs_out(q, a + b) == runs_out(q, b),
{
    let c = a + b;
    if runs_out(q, c) {
        let i = choose|i: int| 0 <= i < c.len() && q.too_late((#[trigger] c[i]).0);
        if i < a.len() {
            assert(c[i] == a[i]);
            lemma_not_both(q, a[i].0);
        } else {
            assert(c[i] == b[i - a.len()]);
        }
    }
    if runs_out(q, b) {
        let i = choose|i: int| 0 <= i < b.len() && q.too_late((#[trigger] b[i]).0);
        assert(c[a.len() + i] == b[i]);
    }
}

/// Reading the sound subtrees from position `i` on gives what is wanted of
/// them.
#[verifier::spinoff_prover]
#[verifier::rlimit(40)]
pub proof fn lemma_gather_kids(
    img: Image,
    ns: Namespace,
    q: QueryView,
    cs: Seq<ChildView>,
    i: int,
    h: nat,
    depth: int,
    w: WalkView,
    out: Seq<EntryView>,
)
    requires
        0 <= i <= cs.len(),
        forest(img, ns, cs.skip(i), h),
        open_to(w, level_slots(img, ns, cs.skip(i), h)),
        0 <= depth,
        depth + h <= w.max_depth,
        fits_query(q, level_entries(img, ns, cs.skip(i), h)),
        sane(q),
        !q.full(out.len()),
    ensures
        reads_out(
            q,
            level_entries(img, ns, cs.skip(i), h),
            level_slots(img, ns, cs.skip(i), h),
            w,
            out,
            gather_kids(img, ns, q, cs, i, depth, w, out, w.max_depth as int),
        ),
    decreases h, cs.len() - i + 1,
{
    let cap = w.max_depth as int;
    let ps = cs.skip(i);
    let es = level_entries(img, ns, ps, h);
    if i >= cs.len() {
        assert(ps =~= Seq::<ChildView>::empty());
        lemma_empty_level(img, ns, h);
        assert(picks(q, es).len() == 0);
        assert(out + cut(q, out.len(), picks(q, es)) =~= out);
    } else {
        let c = cs[i];
        let r = cs.skip(i + 1);
        assert(ps =~= seq![c] + r);
        lemma_forest_parts(img, ns, seq![c], r, h);
        lemma_level_slots_apart(img, ns, seq![c], r, h);
        lemma_level_slots_append(img, ns, seq![c], r, h);
        let ec = level_entries(img, ns, seq![c], h);
        let er = level_entries(img, ns, r, h);
        let sc = level_slots(img, ns, seq![c], h);
        let sr = level_slots(img, ns, r, h);
        let all = level_slots(img, ns, ps, h);
        assert forall|s: u64| #[trigger] all.contains(s) <==> sc.contains(s) || sr.contains(s) by {
            assert(level_slots(img, ns, seq![c] + r, h).contains(s) <==> sc.contains(s)
                || sr.contains(s));
        }
        assert forall|s: u64| #[trigger] sc.contains(s) implies all.contains(s) by {}
        assert forall|s: u64| #[trigger] sr.contains(s) implies all.contains(s) by {}
        assert(fits_query(q, ec)) by {
            if q.log {
                assert forall|j: int| 0 <= j < ec.len() implies (#[trigger] ec[j]).0.len() == 8 by {
                    assert(es[j] == ec[j]);
                }
            }
        }
        assert(fits_query(q, er)) by {
            if q.log {
                assert forall|j: int| 0 <= j < er.len() implies (#[trigger] er[j]).0.len() == 8 by {
                    assert(es[ec.len() + j] == er[j]);
                }
            }
        }
        lemma_gather(img, ns, q, c, h, depth, w, out);
        let g = gather(img, ns, q, c.child_slot, depth, w, out, cap);
        lemma_picks_append(q, ec, er);
        lemma_cut_append(q, out.len(), picks(q, ec), picks(q, er));
        lemma_sorted_parts(ec, er);
        let head = cut(q, out.len(), picks(q, ec));
        if g.end == Ok::<bool, Error>(false) {
            assert(open_to(g.w, sr)) by {
                assert forall|s: u64| #[trigger] sr.contains(s) implies s < g.w.capacity
                    && !g.w.visited.contains(s) by {
                    assert(all.contains(s));
                    assert(!sc.contains(s)) by {
                        if sc.contains(s) {
                            assert(sc.contains(s) && sr.contains(s));
                        }
                    }
                }
            }
            lemma_gather_kids(img, ns, q, cs, i + 1, h, depth, g.w, g.out);
            let g2 = gather_kids(img, ns, q, cs, i + 1, depth, g.w, g.out, cap);
            assert(g2.out =~= out + (head + cut(q, out.len() + head.len(), picks(q, er))));
            assert(went(w, g2.w, all));
            lemma_runs_out_join(q, ec, er);
        } else {
            if q.full(g.out.len()) {
                assert(cut(q, out.len() + head.len(), picks(q, er)).len() == 0);
            } else {
                let j = choose|j: int| 0 <= j < ec.len() && q.too_late((#[trigger] ec[j]).0);
                assert forall|m: int| 0 <= m < er.len() implies !wanted(q, #[trigger] er[m]) by {
                    assert(lex_lt(ec[j].0, er[m].0));
                    lemma_late(q, ec[j].0, er[m].0);
                }
                lemma_picks_none(q, er);
            }
            assert(g.out =~= out + (head + cut(q, out.len() + head.len(), picks(q, er))));
            lemma_runs_out_join(q, ec, er);
        }
    }
}

/// A range ends in one of two parts.
proof fn lemma_runs_out_join(q: QueryView, a: Seq<EntryView>, b: Seq<EntryView>)
    ensures
        runs_out(q, a + b) == (runs_out(q, a) || runs_out(q, b)),
{
    let c = a + b;
    if runs_out(q, c) {
        let i = choose|i: int| 0 <= i < c.len() && q.too_late((#[trigger] c[i]).0);
        if i < a.len() {
            assert(c[i] == a[i]);
        } else {
            assert(c[i] == b[i - a.len()]);
        }
    }
    if runs_out(q, a) {
        let i = choose|i: int| 0 <= i < a.len() && q.too_late((#[trigger] a[i]).0);
        assert(c[i] == a[i]);
    }
    if runs_out(q, b) {
        let i = choose|i: int| 0 <= i < b.len() && q.too_late((#[trigger] b[i]).0);
        assert(c[a.len() + i] == b[i]);
    }
}

// ---------------------------------------------------------------------------
// Ranges, from right to left
// ---------------------------------------------------------------------------

/// The entries in the range, from the last to the first.
pub open spec fn picks_back(q: QueryView, es: Seq<EntryView>) -> Seq<EntryView> {
    picks(q, es).reverse()
}

/// The entries that a query asks for from right to left, of all that are
/// held.
pub open spec fn answer_back(q: QueryView, es: Seq<EntryView>) -> Seq<EntryView> {
    cut(q, 0, picks_back(q, es))
}

/// What is picked from two lists is picked from the second, and then from the
/// first.
pub proof fn lemma_picks_back_append(q: QueryView, a: Seq<EntryView>, b: Seq<EntryView>)
    ensures
        picks_back(q, a + b) == picks_back(q, b) + picks_back(q, a),
{
    lemma_picks_append(q, a, b);
    assert((picks(q, a) + picks(q, b)).reverse() =~= picks(q, b).reverse() + picks(
        q,
        a,
    ).reverse());
}

/// Reading a leaf backwards gives what is wanted of it.
pub proof fn lemma_scan_back(
    q: QueryView,
    es: Seq<EntryView>,
    i: int,
    w: WalkView,
    out: Seq<EntryView>,
)
    requires
        0 <= i <= es.len(),
        fits_query(q, es),
        q.from is None,
    ensures
        ({
            let g = scan_back(q, es, i, w, out);
            &&& g.w == w
            &&& g.out == out + cut(q, out.len(), picks_back(q, es.take(i)))
            &&& g.end == Ok::<bool, Error>(q.full(g.out.len()))
        }),
    decreases i,
{
    let rest = es.take(i);
    if i <= 0 {
        assert(picks(q, rest).len() == 0);
        assert(out + cut(q, out.len(), picks_back(q, rest)) =~= out);
    } else if q.full(out.len()) {
        assert(out + cut(q, out.len(), picks_back(q, rest)) =~= out);
    } else {
        let e = es[i - 1];
        let init = es.take(i - 1);
        assert(rest =~= init + seq![e]);
        lemma_picks_back_append(q, init, seq![e]);
        assert(seq![e].drop_first() =~= Seq::<EntryView>::empty());
        assert(picks(q, Seq::<EntryView>::empty()).len() == 0);
        if q.too_late(e.0) {
            assert(picks(q, seq![e]) =~= Seq::<EntryView>::empty());
            assert(picks_back(q, seq![e]) + picks_back(q, init) =~= picks_back(q, init));
            lemma_scan_back(q, es, i - 1, w, out);
        } else {
            assert(picks(q, seq![e]) =~= seq![e]);
            assert(picks_back(q, seq![e]) =~= seq![e]);
            let more = out.push(e);
            lemma_scan_back(q, es, i - 1, w, more);
            let tail = picks_back(q, init);
            lemma_cut_append(q, out.len(), seq![e], tail);
            assert(cut(q, out.len(), seq![e]) =~= seq![e]);
            assert(more + cut(q, more.len(), tail) =~= out + (seq![e] + cut(
                q,
                out.len() + 1,
                tail,
            )));
        }
    }
}

/// What reading under sound nodes from right to left comes to.
pub open spec fn reads_back_out(
    q: QueryView,
    es: Seq<EntryView>,
    slots: Seq<u64>,
    w: WalkView,
    out: Seq<EntryView>,
    g: Gathered,
) -> bool {
    &&& g.out == out + cut(q, out.len(), picks_back(q, es))
    &&& went(w, g.w, slots)
    &&& g.end == Ok::<bool, Error>(q.full(g.out.len()))
}

/// Reading a sound tree from right to left gives what is wanted of it.
#[verifier::spinoff_prover]
#[verifier::rlimit(40)]
pub proof fn lemma_gather_back(
    img: Image,
    ns: Namespace,
    q: QueryView,
    p: ChildView,
    h: nat,
    depth: int,
    w: WalkView,
    out: Seq<EntryView>,
)
    requires
        forest(img, ns, seq![p], h),
        open_to(w, level_slots(img, ns, seq![p], h)),
        0 <= depth,
        depth + h <= w.max_depth,
        fits_query(q, level_entries(img, ns, seq![p], h)),
        q.from is None,
        !q.full(out.len()),
    ensures
        reads_back_out(
            q,
            level_entries(img, ns, seq![p], h),
            level_slots(img, ns, seq![p], h),
            w,
            out,
            gather_back(img, ns, q, p.child_slot, depth, w, out, w.max_depth as int),
        ),
    decreases h, 0int,
{
    lemma_one(img, ns, p, h);
    let all = level_slots(img, ns, seq![p], h);
    let es = level_entries(img, ns, seq![p], h);
    assert(all.contains(p.child_slot));
    assert(walk_refusal(w, p.child_slot, depth) is None);
    let w1 = walk_step(w, p.child_slot);
    if h == 0 {
        lemma_scan_back(q, es, es.len() as int, w1, out);
        assert(es.take(es.len() as int) =~= es);
    } else {
        let k = (h - 1) as nat;
        let cs = kids(img, ns)(p);
        if let Some(u) = q.until {
            lemma_child_index(cs, u);
        }
        let i = last_wanted(q, cs) + 1;
        assert(0 < i <= cs.len());
        let l = cs.take(i);
        let r = cs.skip(i);
        assert(cs =~= l + r);
        lemma_forest_parts(img, ns, l, r, k);
        lemma_level_slots_apart(img, ns, l, r, k);
        lemma_level_slots_append(img, ns, l, r, k);
        let el = level_entries(img, ns, l, k);
        let er = level_entries(img, ns, r, k);
        lemma_sorted_parts(el, er);
        lemma_picks_back_append(q, el, er);
        // What is left out comes after the last key asked for.
        assert forall|j: int| 0 <= j < er.len() implies !wanted(q, #[trigger] er[j]) by {
            if r.len() == 0 {
                assert(r =~= Seq::<ChildView>::empty());
                lemma_empty_level(img, ns, k);
            } else {
                lemma_level_first(img, ns, r, k);
                assert(r[0] == cs[i]);
                let u = q.until->0;
                assert(lex_lt(u, cs[i].first_key));
                if j > 0 {
                    assert(lex_lt(er[0].0, er[j].0));
                    lemma_lex_trans(u, er[0].0, er[j].0);
                }
                lemma_lex_total(u, er[j].0);
            }
        }
        lemma_picks_none(q, er);
        assert(picks_back(q, er) + picks_back(q, el) =~= picks_back(q, el));
        assert(fits_query(q, el)) by {
            if q.log {
                assert forall|j: int| 0 <= j < el.len() implies (#[trigger] el[j]).0.len() == 8 by {
                    assert(es[j] == el[j]);
                }
            }
        }
        assert(open_to(w1, level_slots(img, ns, l, k))) by {
            assert forall|s: u64| #[trigger]
                level_slots(img, ns, l, k).contains(s) implies s < w1.capacity
                && !w1.visited.contains(s) by {
                assert(level_slots(img, ns, l + r, k).contains(s));
                assert(level_slots(img, ns, cs, k).contains(s));
            }
        }
        lemma_gather_kids_back(img, ns, q, cs, i, k, depth + 1, w1, out);
        let g = gather_kids_back(img, ns, q, cs, i, depth + 1, w1, out, w.max_depth as int);
        assert(went(w, g.w, all)) by {
            assert forall|s: u64| #[trigger] g.w.visited.contains(s) implies w.visited.contains(s)
                || all.contains(s) by {
                if level_slots(img, ns, l, k).contains(s) {
                    assert(level_slots(img, ns, l + r, k).contains(s));
                    assert(level_slots(img, ns, cs, k).contains(s));
                }
            }
        }
    }
}

/// Reading the first `i` sound subtrees from right to left gives what is
/// wanted of them.
#[verifier::spinoff_prover]
#[verifier::rlimit(40)]
pub proof fn lemma_gather_kids_back(
    img: Image,
    ns: Namespace,
    q: QueryView,
    cs: Seq<ChildView>,
    i: int,
    h: nat,
    depth: int,
    w: WalkView,
    out: Seq<EntryView>,
)
    requires
        0 <= i <= cs.len(),
        forest(img, ns, cs.take(i), h),
        open_to(w, level_slots(img, ns, cs.take(i), h)),
        0 <= depth,
        depth + h <= w.max_depth,
        fits_query(q, level_entries(img, ns, cs.take(i), h)),
        q.from is None,
        !q.full(out.len()),
    ensures
        reads_back_out(
            q,
            level_entries(img, ns, cs.take(i), h),
            level_slots(img, ns, cs.take(i), h),
            w,
            out,
            gather_kids_back(img, ns, q, cs, i, depth, w, out, w.max_depth as int),
        ),
    decreases h, i + 1,
{
    let cap = w.max_depth as int;
    let ps = cs.take(i);
    let es = level_entries(img, ns, ps, h);
    if i <= 0 {
        assert(ps =~= Seq::<ChildView>::empty());
        lemma_empty_level(img, ns, h);
        assert(picks(q, es).len() == 0);
        assert(out + cut(q, out.len(), picks_back(q, es)) =~= out);
    } else {
        let c = cs[i - 1];
        let l = cs.take(i - 1);
        assert(ps =~= l + seq![c]);
        lemma_forest_parts(img, ns, l, seq![c], h);
        lemma_level_slots_apart(img, ns, l, seq![c], h);
        lemma_level_slots_append(img, ns, l, seq![c], h);
        let ec = level_entries(img, ns, seq![c], h);
        let el = level_entries(img, ns, l, h);
        let sc = level_slots(img, ns, seq![c], h);
        let sl = level_slots(img, ns, l, h);
        let all = level_slots(img, ns, ps, h);
        assert forall|s: u64| #[trigger] all.contains(s) <==> sl.contains(s) || sc.contains(s) by {
            assert(level_slots(img, ns, l + seq![c], h).contains(s) <==> sl.contains(s)
                || sc.contains(s));
        }
        assert forall|s: u64| #[trigger] sc.contains(s) implies all.contains(s) by {}
        assert forall|s: u64| #[trigger] sl.contains(s) implies all.contains(s) by {}
        assert(fits_query(q, ec)) by {
            if q.log {
                assert forall|j: int| 0 <= j < ec.len() implies (#[trigger] ec[j]).0.len() == 8 by {
                    assert(es[el.len() + j] == ec[j]);
                }
            }
        }
        assert(fits_query(q, el)) by {
            if q.log {
                assert forall|j: int| 0 <= j < el.len() implies (#[trigger] el[j]).0.len() == 8 by {
                    assert(es[j] == el[j]);
                }
            }
        }
        lemma_gather_back(img, ns, q, c, h, depth, w, out);
        let g = gather_back(img, ns, q, c.child_slot, depth, w, out, cap);
        lemma_picks_back_append(q, el, ec);
        lemma_cut_append(q, out.len(), picks_back(q, ec), picks_back(q, el));
        let head = cut(q, out.len(), picks_back(q, ec));
        if g.end == Ok::<bool, Error>(false) {
            assert(open_to(g.w, sl)) by {
                assert forall|s: u64| #[trigger] sl.contains(s) implies s < g.w.capacity
                    && !g.w.visited.contains(s) by {
                    assert(all.contains(s));
                    assert(!sc.contains(s)) by {
                        if sc.contains(s) {
                            assert(sl.contains(s) && sc.contains(s));
                        }
                    }
                }
            }
            lemma_gather_kids_back(img, ns, q, cs, i - 1, h, depth, g.w, g.out);
            let g2 = gather_kids_back(img, ns, q, cs, i - 1, depth, g.w, g.out, cap);
            assert(g2.out =~= out + (head + cut(q, out.len() + head.len(), picks_back(q, el))));
            assert(went(w, g2.w, all));
        } else {
            assert(cut(q, out.len() + head.len(), picks_back(q, el)).len() == 0);
            assert(g.out =~= out + (head + cut(q, out.len() + head.len(), picks_back(q, el))));
        }
    }
}

// ---------------------------------------------------------------------------
// Laws of reading
// ---------------------------------------------------------------------------

/// The namespace has a sound tree of these entries that a walk can take, or
/// no tree and no entries.
pub open spec fn readable(s: Space, ns: Namespace, es: Seq<EntryView>) -> bool {
    match root_of(s.roots()->Ok_0, ns) {
        None => es.len() == 0,
        Some(r) => exists|h: nat| #[trigger]
            tree(s.file@, ns, r.index_slot, r.payload_hash, h) && h <= s.walk_now().max_depth
                && tree_entries(s.file@, ns, r.index_slot, r.payload_hash, h) == es,
    }
}

/// A fresh walk is open to all slots of a tree.
pub proof fn lemma_fresh_open(s: Space, ns: Namespace, p: ChildView, h: nat)
    requires
        s.wf(),
        forest(s.file@, ns, seq![p], h),
    ensures
        open_to(s.walk_now(), level_slots(s.file@, ns, seq![p], h)),
{
    let all = level_slots(s.file@, ns, seq![p], h);
    let owned = s.state.owned_slots@;
    let w = s.walk_now();
    let count = s.file.slots.len();
    assert(s.file@.len() == count);
    assert forall|x: u64| #[trigger] all.contains(x) implies owned.contains(x) && x < w.capacity by {
        lemma_level_slots_live(s.file@, ns, seq![p], h, x);
    }
    all.unique_seq_to_set();
    assert(all.to_set().subset_of(owned));
    vstd::set_lib::lemma_len_subset(all.to_set(), owned);
}

/// Getting a key of a sound namespace gives what the namespace holds under
/// it.
pub proof fn law_get(s: Space, ns: Namespace, es: Seq<EntryView>, key: Seq<u8>)
    requires
        s.wf(),
        s.roots() is Ok,
        readable(s, ns, es),
    ensures
        value_of(s.file@, s.state.superblock@, s.walk_now(), ns, key) == Ok::<
            Option<Seq<u8>>,
            Error,
        >(lookup(es, key)),
{
    match root_of(s.roots()->Ok_0, ns) {
        None => {
            lemma_not_found(es, key);
        },
        Some(r) => {
            let h = choose|h: nat| #[trigger]
                tree(s.file@, ns, r.index_slot, r.payload_hash, h) && h <= s.walk_now().max_depth
                    && tree_entries(s.file@, ns, r.index_slot, r.payload_hash, h) == es;
            let p = root_ptr(s.file@, ns, r.index_slot, r.payload_hash);
            lemma_fresh_open(s, ns, p, h);
            lemma_search(s.file@, ns, key, p, h, 0, s.walk_now());
        },
    }
}

/// Reading a range of a sound namespace gives the entries in that range, by
/// rising key, up to the limit.
pub proof fn law_range(s: Space, ns: Namespace, es: Seq<EntryView>, q: QueryView)
    requires
        s.wf(),
        s.roots() is Ok,
        readable(s, ns, es),
        fits_query(q, es),
        sane(q),
        !q.full(0),
    ensures
        range_of(s.file@, s.state.superblock@, s.walk_now(), ns, q) == Ok::<
            Seq<EntryView>,
            Error,
        >(answer(q, es)),
{
    match root_of(s.roots()->Ok_0, ns) {
        None => {
            assert(answer(q, es) =~= Seq::<EntryView>::empty());
        },
        Some(r) => {
            let h = choose|h: nat| #[trigger]
                tree(s.file@, ns, r.index_slot, r.payload_hash, h) && h <= s.walk_now().max_depth
                    && tree_entries(s.file@, ns, r.index_slot, r.payload_hash, h) == es;
            let p = root_ptr(s.file@, ns, r.index_slot, r.payload_hash);
            let none = Seq::<EntryView>::empty();
            lemma_fresh_open(s, ns, p, h);
            lemma_gather(s.file@, ns, q, p, h, 0, s.walk_now(), none);
            assert(none + cut(q, 0, picks(q, es)) =~= answer(q, es));
        },
    }
}

/// Reading a range of a sound namespace from right to left gives the entries
/// in that range, by falling key, up to the limit.
pub proof fn law_range_back(
    s: Space,
    ns: Namespace,
    es: Seq<EntryView>,
    q: QueryView,
    r: RootView,
)
    requires
        s.wf(),
        s.roots() is Ok,
        root_of(s.roots()->Ok_0, ns) == Some(r),
        readable(s, ns, es),
        fits_query(q, es),
        q.from is None,
        !q.full(0),
    ensures
        page_back(s.file@, s.walk_now(), ns, q, r.index_slot) == Ok::<Seq<EntryView>, Error>(
            answer_back(q, es),
        ),
{
    let h = choose|h: nat| #[trigger]
        tree(s.file@, ns, r.index_slot, r.payload_hash, h) && h <= s.walk_now().max_depth
            && tree_entries(s.file@, ns, r.index_slot, r.payload_hash, h) == es;
    let p = root_ptr(s.file@, ns, r.index_slot, r.payload_hash);
    let none = Seq::<EntryView>::empty();
    lemma_fresh_open(s, ns, p, h);
    lemma_gather_back(s.file@, ns, q, p, h, 0, s.walk_now(), none);
    assert(none + cut(q, 0, picks_back(q, es)) =~= answer_back(q, es));
}

/// Everything is wanted of everything.
pub proof fn lemma_everything(es: Seq<EntryView>)
    ensures
        answer(everything(), es) == es,
    decreases es.len(),
{
    if es.len() > 0 {
        lemma_everything(es.drop_first());
        assert(seq![es[0]] + es.drop_first() =~= es);
    }
}

/// Listing a sound namespace gives all that it holds.
pub proof fn law_list(s: Space, ns: Namespace, es: Seq<EntryView>)
    requires
        s.wf(),
        s.roots() is Ok,
        readable(s, ns, es),
    ensures
        range_of(s.file@, s.state.superblock@, s.walk_now(), ns, everything()) == Ok::<
            Seq<EntryView>,
            Error,
        >(es),
{
    law_range(s, ns, es, everything());
    lemma_everything(es);
}

/// The entries after a key, by rising key.
pub open spec fn entries_after(es: Seq<EntryView>, after: Option<Seq<u8>>) -> Seq<EntryView> {
    picks(page_after(after, 1), es)
}

/// A page after a key holds the first entries after it; going on from the
/// last key of a page, the next page goes on where it left off, so pages put
/// end to end give the whole.
pub proof fn law_pages_join(es: Seq<EntryView>, after: Option<Seq<u8>>, limit: nat)
    requires
        keys_sorted(es),
        limit > 0,
    ensures
        ({
            let page = answer(page_after(after, limit), es);
            let rest = entries_after(es, after);
            &&& page == rest.take(if rest.len() < limit {
                rest.len() as int
            } else {
                limit as int
            })
            &&& page.len() == 0 <==> rest.len() == 0
            &&& page.len() > 0 ==> page + entries_after(es, Some(page.last().0)) == rest
        }),
{
    let q = page_after(after, limit);
    let one = page_after(after, 1);
    lemma_picks_same(q, one, es);
    let page = answer(q, es);
    let rest = entries_after(es, after);
    assert(rest == picks(q, es));
    if rest.len() <= limit {
        assert(page =~= rest.take(rest.len() as int));
    }
    if page.len() > 0 {
        lemma_after_is_suffix(es, after);
        let n = es.len() - rest.len();
        let m = n + page.len();
        assert(es.skip(n) == rest);
        let last = page.last().0;
        assert(page.last() == rest[page.len() - 1]);
        assert(rest[page.len() - 1] == es[m - 1]);
        lemma_after_from(es, last, m);
        assert(page + es.skip(m) =~= rest);
    }
}

/// The limit does not matter for what lies in the range.
proof fn lemma_picks_same(a: QueryView, b: QueryView, es: Seq<EntryView>)
    requires
        a.from == b.from,
        a.inclusive == b.inclusive,
        a.until == b.until,
    ensures
        picks(a, es) == picks(b, es),
    decreases es.len(),
{
    if es.len() > 0 {
        lemma_picks_same(a, b, es.drop_first());
        assert(wanted(a, es[0]) == wanted(b, es[0]));
    }
}

/// The entries after a key that stands at position `m - 1` are those from
/// `m` on.
proof fn lemma_after_from(es: Seq<EntryView>, key: Seq<u8>, m: int)
    requires
        keys_sorted(es),
        0 < m <= es.len(),
        es[m - 1].0 == key,
    ensures
        entries_after(es, Some(key)) == es.skip(m),
{
    let q = page_after(Some(key), 1);
    let a = es.take(m);
    let b = es.skip(m);
    assert(es =~= a + b);
    lemma_picks_append(q, a, b);
    assert forall|i: int| 0 <= i < a.len() implies !wanted(q, #[trigger] a[i]) by {
        if i < m - 1 {
            assert(lex_lt(es[i].0, es[m - 1].0));
        }
        lemma_lex_total(a[i].0, key);
    }
    lemma_picks_none(q, a);
    assert forall|i: int| 0 <= i < b.len() implies wanted(q, #[trigger] b[i]) by {
        assert(b[i] == es[m + i]);
        assert(lex_lt(es[m - 1].0, es[m + i].0));
        lemma_lex_total(b[i].0, key);
    }
    lemma_picks_all(q, b);
    assert(picks(q, a) + picks(q, b) =~= b);
}

/// Everything is picked where everything is wanted.
pub proof fn lemma_picks_all(q: QueryView, es: Seq<EntryView>)
    requires
        forall|i: int| 0 <= i < es.len() ==> wanted(q, #[trigger] es[i]),
    ensures
        picks(q, es) == es,
    decreases es.len(),
{
    if es.len() > 0 {
        let t = es.drop_first();
        assert(wanted(q, es[0]));
        assert forall|i: int| 0 <= i < t.len() implies wanted(q, #[trigger] t[i]) by {
            assert(t[i] == es[i + 1]);
        }
        lemma_picks_all(q, t);
        assert(seq![es[0]] + t =~= es);
    }
}

/// The entries after a key are the last ones.
proof fn lemma_after_is_suffix(es: Seq<EntryView>, after: Option<Seq<u8>>)
    requires
        keys_sorted(es),
    ensures
        entries_after(es, after).len() <= es.len(),
        entries_after(es, after) == es.skip(es.len() - entries_after(es, after).len()),
    decreases es.len(),
{
    let q = page_after(after, 1);
    if es.len() > 0 {
        let t = es.drop_first();
        assert(keys_sorted(t)) by {
            assert forall|i: int, j: int| 0 <= i < j < t.len() implies lex_lt(
                (#[trigger] t[i]).0,
                (#[trigger] t[j]).0,
            ) by {
                assert(t[i] == es[i + 1] && t[j] == es[j + 1]);
            }
        }
        if wanted(q, es[0]) {
            assert forall|i: int| 0 <= i < es.len() implies wanted(q, #[trigger] es[i]) by {
                if i > 0 {
                    assert(lex_lt(es[0].0, es[i].0));
                    if let Some(k) = after {
                        lemma_lex_total(es[0].0, k);
                        lemma_lex_trans(k, es[0].0, es[i].0);
                        lemma_lex_total(es[i].0, k);
                    }
                }
            }
            lemma_picks_all(q, es);
            assert(es.skip(0) =~= es);
        } else {
            lemma_after_is_suffix(t, after);
            let r = picks(q, t);
            assert(t.skip(t.len() - r.len()) =~= es.skip(es.len() - r.len()));
        }
    } else {
        assert(es.skip(0) =~= es);
    }
}

/// At most `limit` entries before a key, from right to left.
pub open spec fn page_before(before: Option<Seq<u8>>, limit: nat) -> QueryView {
    QueryView { log: true, from: None, inclusive: false, until: before, limit: Some(limit) }
}

/// The entries before a key, by falling key.
pub open spec fn entries_before(es: Seq<EntryView>, before: Option<Seq<u8>>) -> Seq<EntryView> {
    picks_back(page_before(before, 1), es)
}

/// A page before a key, read from right to left, holds the last entries before
/// it; going on from the last key of a page, the next page goes on where it
/// left off, so pages put end to end give the whole.
pub proof fn law_pages_back_join(es: Seq<EntryView>, before: Option<Seq<u8>>, limit: nat)
    requires
        keys_sorted(es),
        limit > 0,
    ensures
        ({
            let page = answer_back(page_before(before, limit), es);
            let rest = entries_before(es, before);
            &&& page == rest.take(if rest.len() < limit {
                rest.len() as int
            } else {
                limit as int
            })
            &&& page.len() == 0 <==> rest.len() == 0
            &&& page.len() > 0 ==> page + entries_before(es, Some(page.last().0)) == rest
        }),
{
    let q = page_before(before, limit);
    let one = page_before(before, 1);
    lemma_picks_same(q, one, es);
    let page = answer_back(q, es);
    let rest = entries_before(es, before);
    assert(rest == picks_back(q, es));
    if rest.len() <= limit {
        assert(page =~= rest.take(rest.len() as int));
    }
    if page.len() > 0 {
        lemma_before_is_prefix(es, before);
        let n = picks(one, es).len() as int;
        let m = n - page.len();
        assert(page.last() == rest[page.len() - 1]);
        assert(rest[page.len() - 1] == picks(one, es)[m]);
        assert(picks(one, es)[m] == es[m]);
        lemma_before_at(es, m);
        assert(page + es.take(m).reverse() =~= rest);
    }
}

/// The entries before a key are the first ones.
proof fn lemma_before_is_prefix(es: Seq<EntryView>, before: Option<Seq<u8>>)
    requires
        keys_sorted(es),
    ensures
        picks(page_before(before, 1), es).len() <= es.len(),
        picks(page_before(before, 1), es) == es.take(picks(page_before(before, 1), es).len() as int),
    decreases es.len(),
{
    let q = page_before(before, 1);
    if es.len() > 0 {
        let init = es.drop_last();
        let e = es.last();
        assert(keys_sorted(init));
        assert(es =~= init + seq![e]);
        lemma_picks_append(q, init, seq![e]);
        if wanted(q, e) {
            assert forall|i: int| 0 <= i < es.len() implies wanted(q, #[trigger] es[i]) by {
                if i < es.len() - 1 {
                    assert(lex_lt(es[i].0, es[es.len() - 1].0));
                    if let Some(k) = before {
                        if lex_le(k, es[i].0) {
                            lemma_lex_le_lt(k, es[i].0, e.0);
                            lemma_lex_total(k, e.0);
                        }
                    }
                }
            }
            lemma_picks_all(q, es);
            assert(es.take(es.len() as int) =~= es);
        } else {
            lemma_before_is_prefix(init, before);
            assert forall|i: int| 0 <= i < seq![e].len() implies !wanted(
                q,
                #[trigger] seq![e][i],
            ) by {}
            lemma_picks_none(q, seq![e]);
            assert(picks(q, es) =~= picks(q, init));
            let n = picks(q, init).len() as int;
            assert(init.take(n) =~= es.take(n));
        }
    } else {
        assert(es.take(0) =~= es);
    }
}

/// The entries before the key at position `m` are those up to `m`.
proof fn lemma_before_at(es: Seq<EntryView>, m: int)
    requires
        keys_sorted(es),
        0 <= m < es.len(),
    ensures
        picks(page_before(Some(es[m].0), 1), es) == es.take(m),
{
    let key = es[m].0;
    let q = page_before(Some(key), 1);
    let a = es.take(m);
    let b = es.skip(m);
    assert(es =~= a + b);
    lemma_picks_append(q, a, b);
    assert forall|i: int| 0 <= i < a.len() implies wanted(q, #[trigger] a[i]) by {
        assert(a[i] == es[i]);
        assert(lex_lt(es[i].0, es[m].0));
    }
    lemma_picks_all(q, a);
    assert forall|i: int| 0 <= i < b.len() implies !wanted(q, #[trigger] b[i]) by {
        assert(b[i] == es[m + i]);
        if i > 0 {
            assert(lex_lt(es[m].0, es[m + i].0));
        }
        lemma_lex_total(b[i].0, key);
    }
    lemma_picks_none(q, b);
    assert(picks(q, a) + picks(q, b) =~= a);
}

// ---------------------------------------------------------------------------
// What a page costs
// ---------------------------------------------------------------------------

/// Reading a leaf goes nowhere else.
proof fn lemma_scan_walk(q: QueryView, es: Seq<EntryView>, i: int, w: WalkView, out: Seq<EntryView>)
    requires
        0 <= i <= es.len(),
    ensures
        scan(q, es, i, w, out).w == w,
    decreases es.len() - i,
{
    if i < es.len() {
        lemma_scan_walk(q, es, i + 1, w, out);
        lemma_scan_walk(q, es, i + 1, w, out.push(es[i]));
    }
}

/// One where the read has stopped, else none.
pub open spec fn stopped(g: Gathered) -> int {
    if g.end == Ok::<bool, Error>(true) {
        1
    } else {
        0
    }
}

/// No entry comes before the range.
pub open spec fn none_early(q: QueryView, es: Seq<EntryView>) -> bool {
    forall|i: int| 0 <= i < es.len() ==> !q.too_early((#[trigger] es[i]).0)
}

/// Reading entries of which none comes before the range gives some, or stops.
proof fn lemma_some_read(
    q: QueryView,
    es: Seq<EntryView>,
    slots: Seq<u64>,
    w: WalkView,
    out: Seq<EntryView>,
    g: Gathered,
)
    requires
        es.len() > 0,
        none_early(q, es),
        !q.full(out.len()),
        reads_out(q, es, slots, w, out, g),
    ensures
        g.out.len() >= out.len(),
        g.out.len() - out.len() + stopped(g) >= 1,
{
    if g.end == Ok::<bool, Error>(false) {
        assert(!q.too_late(es[0].0)) by {
            if q.too_late(es[0].0) {
                assert(runs_out(q, es));
            }
        }
        assert(!q.too_early(es[0].0));
        assert(wanted(q, es[0]));
        assert(picks(q, es).len() > 0);
        let c = cut(q, out.len(), picks(q, es));
        assert(c.len() > 0);
        assert(g.out.len() == out.len() + c.len());
    } else {
        let stop = g.end->Ok_0;
        assert(g.end == Ok::<bool, Error>(stop));
        assert(stop);
    }
}

/// How many nodes reading under a sound node goes to: no more than one on each
/// level for each entry that it gives, one more where the range may begin under
/// the node, and one more where it stops.
#[verifier::spinoff_prover]
#[verifier::rlimit(40)]
proof fn lemma_gather_cost(
    img: Image,
    ns: Namespace,
    q: QueryView,
    p: ChildView,
    h: nat,
    depth: int,
    w: WalkView,
    out: Seq<EntryView>,
    s: int,
)
    requires
        forest(img, ns, seq![p], h),
        open_to(w, level_slots(img, ns, seq![p], h)),
        0 <= depth,
        depth + h <= w.max_depth,
        fits_query(q, level_entries(img, ns, seq![p], h)),
        sane(q),
        !q.full(out.len()),
        s == 1 || s == 0 && none_early(q, level_entries(img, ns, seq![p], h)),
    ensures
        ({
            let g = gather(img, ns, q, p.child_slot, depth, w, out, w.max_depth as int);
            &&& g.out.len() >= out.len()
            &&& w.budget - g.w.budget <= (h + 1) * (g.out.len() - out.len() + s + stopped(g))
        }),
    decreases h, 0int,
{
    lemma_gather(img, ns, q, p, h, depth, w, out);
    lemma_one(img, ns, p, h);
    lemma_level_first(img, ns, seq![p], h);
    let all = level_slots(img, ns, seq![p], h);
    let es = level_entries(img, ns, seq![p], h);
    assert(all.contains(p.child_slot));
    let w1 = walk_step(w, p.child_slot);
    let g = gather(img, ns, q, p.child_slot, depth, w, out, w.max_depth as int);
    let x = g.out.len() - out.len() + s + stopped(g);
    assert(x >= 1) by {
        if s == 0 {
            lemma_some_read(q, es, all, w, out, g);
        }
    }
    if h == 0 {
        lemma_scan_walk(q, es, 0, w1, out);
        assert(w.budget - g.w.budget <= 1);
        assert((h + 1) * x == x) by (nonlinear_arith)
            requires
                h == 0,
        ;
    } else {
        let k = (h - 1) as nat;
        let cs = kids(img, ns)(p);
        let i = first_wanted(q, cs);
        if let Some(f) = q.from {
            lemma_child_index(cs, f);
        }
        let l = cs.take(i);
        let r = cs.skip(i);
        assert(cs =~= l + r);
        lemma_forest_parts(img, ns, l, r, k);
        lemma_level_slots_apart(img, ns, l, r, k);
        lemma_level_slots_append(img, ns, l, r, k);
        let el = level_entries(img, ns, l, k);
        let er = level_entries(img, ns, r, k);
        assert(fits_query(q, er)) by {
            if q.log {
                assert forall|j: int| 0 <= j < er.len() implies (#[trigger] er[j]).0.len() == 8 by {
                    assert(es[el.len() + j] == er[j]);
                }
            }
        }
        assert(open_to(w1, level_slots(img, ns, r, k))) by {
            assert forall|t: u64| #[trigger]
                level_slots(img, ns, r, k).contains(t) implies t < w1.capacity
                && !w1.visited.contains(t) by {
                assert(level_slots(img, ns, l + r, k).contains(t));
                assert(level_slots(img, ns, cs, k).contains(t));
            }
        }
        if s == 0 {
            assert forall|j: int| 0 <= j < er.len() implies !q.too_early((#[trigger] er[j]).0) by {
                assert(es[el.len() + j] == er[j]);
            }
        }
        assert(rest_late(q, cs, i)) by {
            assert forall|j: int| i < j < cs.len() implies (q.from matches Some(f) ==> lex_lt(
                f,
                (#[trigger] cs[j]).first_key,
            )) by {}
        }
        lemma_gather_kids_cost(img, ns, q, cs, i, k, depth + 1, w1, out, s);
        assert(1 + (k + 1) * x <= (h + 1) * x) by (nonlinear_arith)
            requires
                h == k + 1,
                x >= 1,
        ;
    }
}

/// The children after position `i` start after the range does.
pub open spec fn rest_late(q: QueryView, cs: Seq<ChildView>, i: int) -> bool {
    forall|j: int|
        i < j < cs.len() ==> (q.from matches Some(f) ==> lex_lt(f, (#[trigger] cs[j]).first_key))
}

#[verifier::spinoff_prover]
#[verifier::rlimit(40)]
proof fn lemma_gather_kids_cost(
    img: Image,
    ns: Namespace,
    q: QueryView,
    cs: Seq<ChildView>,
    i: int,
    h: nat,
    depth: int,
    w: WalkView,
    out: Seq<EntryView>,
    s: int,
)
    requires
        0 <= i <= cs.len(),
        forest(img, ns, cs.skip(i), h),
        open_to(w, level_slots(img, ns, cs.skip(i), h)),
        0 <= depth,
        depth + h <= w.max_depth,
        fits_query(q, level_entries(img, ns, cs.skip(i), h)),
        sane(q),
        !q.full(out.len()),
        rest_late(q, cs, i),
        s == 1 || s == 0 && none_early(q, level_entries(img, ns, cs.skip(i), h)),
    ensures
        ({
            let g = gather_kids(img, ns, q, cs, i, depth, w, out, w.max_depth as int);
            &&& g.out.len() >= out.len()
            &&& w.budget - g.w.budget <= (h + 1) * (g.out.len() - out.len() + s + stopped(g))
        }),
    decreases h, cs.len() - i + 1,
{
    let cap = w.max_depth as int;
    let ps = cs.skip(i);
    let es = level_entries(img, ns, ps, h);
    if i >= cs.len() {
        assert((h + 1) * s >= 0) by (nonlinear_arith)
            requires
                s >= 0,
        ;
    } else {
        let c = cs[i];
        let r = cs.skip(i + 1);
        assert(ps =~= seq![c] + r);
        lemma_forest_parts(img, ns, seq![c], r, h);
        lemma_level_slots_apart(img, ns, seq![c], r, h);
        lemma_level_slots_append(img, ns, seq![c], r, h);
        let ec = level_entries(img, ns, seq![c], h);
        let er = level_entries(img, ns, r, h);
        let sc = level_slots(img, ns, seq![c], h);
        let sr = level_slots(img, ns, r, h);
        let all = level_slots(img, ns, ps, h);
        assert forall|t: u64| #[trigger] all.contains(t) <==> sc.contains(t) || sr.contains(t) by {
            assert(level_slots(img, ns, seq![c] + r, h).contains(t) <==> sc.contains(t)
                || sr.contains(t));
        }
        assert forall|t: u64| #[trigger] sc.contains(t) implies all.contains(t) by {}
        assert forall|t: u64| #[trigger] sr.contains(t) implies all.contains(t) by {}
        assert(fits_query(q, ec)) by {
            if q.log {
                assert forall|j: int| 0 <= j < ec.len() implies (#[trigger] ec[j]).0.len() == 8 by {
                    assert(es[j] == ec[j]);
                }
            }
        }
        assert(fits_query(q, er)) by {
            if q.log {
                assert forall|j: int| 0 <= j < er.len() implies (#[trigger] er[j]).0.len() == 8 by {
                    assert(es[ec.len() + j] == er[j]);
                }
            }
        }
        if s == 0 {
            assert forall|j: int| 0 <= j < ec.len() implies !q.too_early((#[trigger] ec[j]).0) by {
                assert(es[j] == ec[j]);
            }
        }
        lemma_gather(img, ns, q, c, h, depth, w, out);
        lemma_gather_cost(img, ns, q, c, h, depth, w, out, s);
        let g = gather(img, ns, q, c.child_slot, depth, w, out, cap);
        lemma_sorted_parts(ec, er);
        if g.end == Ok::<bool, Error>(false) {
            assert(open_to(g.w, sr)) by {
                assert forall|t: u64| #[trigger] sr.contains(t) implies t < g.w.capacity
                    && !g.w.visited.contains(t) by {
                    assert(all.contains(t));
                    assert(!sc.contains(t)) by {
                        if sc.contains(t) {
                            assert(sc.contains(t) && sr.contains(t));
                        }
                    }
                }
            }
            assert(none_early(q, er)) by {
                if r.len() > 0 {
                    lemma_level_first(img, ns, r, h);
                    assert(r[0] == cs[i + 1]);
                }
                assert forall|j: int| 0 <= j < er.len() implies !q.too_early(
                    (#[trigger] er[j]).0,
                ) by {
                    if r.len() == 0 {
                        assert(r =~= Seq::<ChildView>::empty());
                        lemma_empty_level(img, ns, h);
                    } else if let Some(f) = q.from {
                        assert(lex_lt(f, cs[i + 1].first_key));
                        if j > 0 {
                            assert(lex_lt(er[0].0, er[j].0));
                            lemma_lex_trans(f, er[0].0, er[j].0);
                        }
                        lemma_lex_total(f, er[j].0);
                    }
                }
            }
            assert(rest_late(q, cs, i + 1));
            lemma_gather_kids_cost(img, ns, q, cs, i + 1, h, depth, g.w, g.out, 0);
            let g2 = gather_kids(img, ns, q, cs, i + 1, depth, g.w, g.out, cap);
            let x = g.out.len() - out.len() + s;
            let y = g2.out.len() - g.out.len() + stopped(g2);
            assert((h + 1) * x + (h + 1) * y == (h + 1) * (x + y)) by (nonlinear_arith);
        }
    }
}

/// Wherever a page begins, reading it goes to no more nodes than one on each
/// level for each entry that it gives, and for two more: a page far from the
/// start costs what the first page costs.
pub proof fn law_page_cost(
    s: Space,
    ns: Namespace,
    es: Seq<EntryView>,
    q: QueryView,
    r: RootView,
    h: nat,
)
    requires
        s.wf(),
        s.roots() is Ok,
        root_of(s.roots()->Ok_0, ns) == Some(r),
        tree(s.file@, ns, r.index_slot, r.payload_hash, h),
        h <= s.walk_now().max_depth,
        tree_entries(s.file@, ns, r.index_slot, r.payload_hash, h) == es,
        fits_query(q, es),
        sane(q),
        !q.full(0),
    ensures
        ({
            let none = Seq::<EntryView>::empty();
            let w = s.walk_now();
            let g = gather(s.file@, ns, q, r.index_slot, 0, w, none, w.max_depth as int);
            &&& g.out == answer(q, es)
            &&& w.budget - g.w.budget <= (h + 1) * (answer(q, es).len() + 2)
        }),
{
    let none = Seq::<EntryView>::empty();
    let w = s.walk_now();
    let p = root_ptr(s.file@, ns, r.index_slot, r.payload_hash);
    lemma_fresh_open(s, ns, p, h);
    lemma_gather(s.file@, ns, q, p, h, 0, w, none);
    lemma_gather_cost(s.file@, ns, q, p, h, 0, w, none, 1);
    let g = gather(s.file@, ns, q, r.index_slot, 0, w, none, w.max_depth as int);
    assert(none + cut(q, 0, picks(q, es)) =~= answer(q, es));
    let n = answer(q, es).len();
    let t = stopped(g);
    assert((h + 1) * (n + 1 + t) <= (h + 1) * (n + 2)) by (nonlinear_arith)
        requires
            t <= 1,
    ;
}

/// Reading a leaf from right to left goes nowhere else.
proof fn lemma_scan_back_walk(
    q: QueryView,
    es: Seq<EntryView>,
    i: int,
    w: WalkView,
    out: Seq<EntryView>,
)
    requires
        0 <= i <= es.len(),
    ensures
        scan_back(q, es, i, w, out).w == w,
    decreases i,
{
    if i > 0 {
        lemma_scan_back_walk(q, es, i - 1, w, out);
        lemma_scan_back_walk(q, es, i - 1, w, out.push(es[i - 1]));
    }
}

/// No entry comes after the range.
pub open spec fn none_late(q: QueryView, es: Seq<EntryView>) -> bool {
    forall|i: int| 0 <= i < es.len() ==> !q.too_late((#[trigger] es[i]).0)
}

/// Of two lists without an entry after the range, the first has none.
proof fn lemma_none_late_part(q: QueryView, a: Seq<EntryView>, b: Seq<EntryView>)
    requires
        none_late(q, a + b),
    ensures
        none_late(q, a),
        none_late(q, b),
{
    assert forall|i: int| 0 <= i < a.len() implies !q.too_late((#[trigger] a[i]).0) by {
        assert((a + b)[i] == a[i]);
    }
    assert forall|i: int| 0 <= i < b.len() implies !q.too_late((#[trigger] b[i]).0) by {
        assert((a + b)[a.len() + i] == b[i]);
    }
}

/// Reading entries of which none comes after the range gives some.
proof fn lemma_some_read_back(
    q: QueryView,
    es: Seq<EntryView>,
    slots: Seq<u64>,
    w: WalkView,
    out: Seq<EntryView>,
    g: Gathered,
)
    requires
        es.len() > 0,
        none_late(q, es),
        q.from is None,
        !q.full(out.len()),
        reads_back_out(q, es, slots, w, out, g),
    ensures
        g.out.len() >= out.len() + 1,
{
    assert(!q.too_late(es[0].0));
    assert(wanted(q, es[0]));
    assert(picks(q, es).len() > 0);
    let c = cut(q, out.len(), picks_back(q, es));
    assert(c.len() > 0);
    assert(g.out.len() == out.len() + c.len());
}

/// How many nodes reading under a sound node from right to left goes to.
#[verifier::spinoff_prover]
#[verifier::rlimit(40)]
proof fn lemma_gather_back_cost(
    img: Image,
    ns: Namespace,
    q: QueryView,
    p: ChildView,
    h: nat,
    depth: int,
    w: WalkView,
    out: Seq<EntryView>,
    s: int,
)
    requires
        forest(img, ns, seq![p], h),
        open_to(w, level_slots(img, ns, seq![p], h)),
        0 <= depth,
        depth + h <= w.max_depth,
        fits_query(q, level_entries(img, ns, seq![p], h)),
        q.from is None,
        !q.full(out.len()),
        s == 1 || s == 0 && none_late(q, level_entries(img, ns, seq![p], h)),
    ensures
        ({
            let g = gather_back(img, ns, q, p.child_slot, depth, w, out, w.max_depth as int);
            &&& g.out.len() >= out.len()
            &&& w.budget - g.w.budget <= (h + 1) * (g.out.len() - out.len() + s)
        }),
    decreases h, 0int,
{
    lemma_gather_back(img, ns, q, p, h, depth, w, out);
    lemma_one(img, ns, p, h);
    lemma_level_first(img, ns, seq![p], h);
    let all = level_slots(img, ns, seq![p], h);
    let es = level_entries(img, ns, seq![p], h);
    assert(all.contains(p.child_slot));
    let w1 = walk_step(w, p.child_slot);
    let g = gather_back(img, ns, q, p.child_slot, depth, w, out, w.max_depth as int);
    let x = g.out.len() - out.len() + s;
    assert(x >= 1) by {
        if s == 0 {
            lemma_some_read_back(q, es, all, w, out, g);
        }
    }
    if h == 0 {
        lemma_scan_back_walk(q, es, es.len() as int, w1, out);
        assert(w.budget - g.w.budget <= 1);
        assert((h + 1) * x == x) by (nonlinear_arith)
            requires
                h == 0,
        ;
    } else {
        let k = (h - 1) as nat;
        let cs = kids(img, ns)(p);
        if let Some(u) = q.until {
            lemma_child_index(cs, u);
        }
        let i = last_wanted(q, cs) + 1;
        let l = cs.take(i);
        let r = cs.skip(i);
        assert(cs =~= l + r);
        lemma_forest_parts(img, ns, l, r, k);
        lemma_level_slots_apart(img, ns, l, r, k);
        lemma_level_slots_append(img, ns, l, r, k);
        let el = level_entries(img, ns, l, k);
        let er = level_entries(img, ns, r, k);
        assert(fits_query(q, el)) by {
            if q.log {
                assert forall|j: int| 0 <= j < el.len() implies (#[trigger] el[j]).0.len() == 8 by {
                    assert(es[j] == el[j]);
                }
            }
        }
        assert(open_to(w1, level_slots(img, ns, l, k))) by {
            assert forall|t: u64| #[trigger]
                level_slots(img, ns, l, k).contains(t) implies t < w1.capacity
                && !w1.visited.contains(t) by {
                assert(level_slots(img, ns, l + r, k).contains(t));
                assert(level_slots(img, ns, cs, k).contains(t));
            }
        }
        if s == 0 {
            assert(es =~= el + er);
            lemma_none_late_part(q, el, er);
        }
        // What comes before the last child that can hold a wanted key comes
        // before the end of the range.
        let m = cs.take(i - 1);
        let c = cs[i - 1];
        assert(l =~= m + seq![c]);
        lemma_forest_parts(img, ns, m, seq![c], k);
        let em = level_entries(img, ns, m, k);
        let ec = level_entries(img, ns, seq![c], k);
        lemma_sorted_parts(em, ec);
        lemma_level_first(img, ns, seq![c], k);
        assert(none_late(q, em)) by {
            assert forall|j: int| 0 <= j < em.len() implies !q.too_late((#[trigger] em[j]).0) by {
                if i - 1 == 0 {
                    assert(m =~= Seq::<ChildView>::empty());
                    lemma_empty_level(img, ns, k);
                } else if let Some(u) = q.until {
                    assert(lex_lt(em[j].0, ec[0].0));
                    lemma_lex_lt_le(em[j].0, c.first_key, u);
                }
            }
        }
        lemma_gather_kids_back_cost(img, ns, q, cs, i, k, depth + 1, w1, out, s);
        assert(1 + (k + 1) * x <= (h + 1) * x) by (nonlinear_arith)
            requires
                h == k + 1,
                x >= 1,
        ;
    }
}

#[verifier::spinoff_prover]
#[verifier::rlimit(40)]
proof fn lemma_gather_kids_back_cost(
    img: Image,
    ns: Namespace,
    q: QueryView,
    cs: Seq<ChildView>,
    i: int,
    h: nat,
    depth: int,
    w: WalkView,
    out: Seq<EntryView>,
    s: int,
)
    requires
        0 <= i <= cs.len(),
        forest(img, ns, cs.take(i), h),
        open_to(w, level_slots(img, ns, cs.take(i), h)),
        0 <= depth,
        depth + h <= w.max_depth,
        fits_query(q, level_entries(img, ns, cs.take(i), h)),
        q.from is None,
        !q.full(out.len()),
        i > 0 ==> none_late(q, level_entries(img, ns, cs.take(i - 1), h)),
        s == 1 || s == 0 && none_late(q, level_entries(img, ns, cs.take(i), h)),
    ensures
        ({
            let g = gather_kids_back(img, ns, q, cs, i, depth, w, out, w.max_depth as int);
            &&& g.out.len() >= out.len()
            &&& w.budget - g.w.budget <= (h + 1) * (g.out.len() - out.len() + s)
        }),
    decreases h, i + 1,
{
    let cap = w.max_depth as int;
    let ps = cs.take(i);
    let es = level_entries(img, ns, ps, h);
    if i <= 0 {
        assert((h + 1) * s >= 0) by (nonlinear_arith)
            requires
                s >= 0,
        ;
    } else {
        let c = cs[i - 1];
        let l = cs.take(i - 1);
        assert(ps =~= l + seq![c]);
        lemma_forest_parts(img, ns, l, seq![c], h);
        lemma_level_slots_apart(img, ns, l, seq![c], h);
        lemma_level_slots_append(img, ns, l, seq![c], h);
        let ec = level_entries(img, ns, seq![c], h);
        let el = level_entries(img, ns, l, h);
        let sc = level_slots(img, ns, seq![c], h);
        let sl = level_slots(img, ns, l, h);
        let all = level_slots(img, ns, ps, h);
        assert forall|t: u64| #[trigger] all.contains(t) <==> sl.contains(t) || sc.contains(t) by {
            assert(level_slots(img, ns, l + seq![c], h).contains(t) <==> sl.contains(t)
                || sc.contains(t));
        }
        assert forall|t: u64| #[trigger] sc.contains(t) implies all.contains(t) by {}
        assert forall|t: u64| #[trigger] sl.contains(t) implies all.contains(t) by {}
        assert(fits_query(q, ec)) by {
            if q.log {
                assert forall|j: int| 0 <= j < ec.len() implies (#[trigger] ec[j]).0.len() == 8 by {
                    assert(es[el.len() + j] == ec[j]);
                }
            }
        }
        assert(fits_query(q, el)) by {
            if q.log {
                assert forall|j: int| 0 <= j < el.len() implies (#[trigger] el[j]).0.len() == 8 by {
                    assert(es[j] == el[j]);
                }
            }
        }
        assert(es =~= el + ec);
        if s == 0 {
            lemma_none_late_part(q, el, ec);
        }
        lemma_gather_back(img, ns, q, c, h, depth, w, out);
        lemma_gather_back_cost(img, ns, q, c, h, depth, w, out, s);
        let g = gather_back(img, ns, q, c.child_slot, depth, w, out, cap);
        if g.end == Ok::<bool, Error>(false) {
            assert(open_to(g.w, sl)) by {
                assert forall|t: u64| #[trigger] sl.contains(t) implies t < g.w.capacity
                    && !g.w.visited.contains(t) by {
                    assert(all.contains(t));
                    assert(!sc.contains(t)) by {
                        if sc.contains(t) {
                            assert(sl.contains(t) && sc.contains(t));
                        }
                    }
                }
            }
            if i - 1 > 0 {
                let ll = cs.take(i - 2);
                let cc = cs[i - 2];
                assert(l =~= ll + seq![cc]);
                lemma_forest_parts(img, ns, ll, seq![cc], h);
                lemma_none_late_part(
                    q,
                    level_entries(img, ns, ll, h),
                    level_entries(img, ns, seq![cc], h),
                );
            }
            lemma_gather_kids_back_cost(img, ns, q, cs, i - 1, h, depth, g.w, g.out, 0);
            let g2 = gather_kids_back(img, ns, q, cs, i - 1, depth, g.w, g.out, cap);
            let x = g.out.len() - out.len() + s;
            let y = g2.out.len() - g.out.len();
            assert((h + 1) * x + (h + 1) * y == (h + 1) * (x + y)) by (nonlinear_arith);
        }
    }
}

/// Wherever a page that is read from right to left begins, reading it goes to
/// no more nodes than one on each level for each entry that it gives, and for
/// one more.
pub proof fn law_page_back_cost(
    s: Space,
    ns: Namespace,
    es: Seq<EntryView>,
    q: QueryView,
    r: RootView,
    h: nat,
)
    requires
        s.wf(),
        s.roots() is Ok,
        root_of(s.roots()->Ok_0, ns) == Some(r),
        tree(s.file@, ns, r.index_slot, r.payload_hash, h),
        h <= s.walk_now().max_depth,
        tree_entries(s.file@, ns, r.index_slot, r.payload_hash, h) == es,
        fits_query(q, es),
        q.from is None,
        !q.full(0),
    ensures
        ({
            let none = Seq::<EntryView>::empty();
            let w = s.walk_now();
            let g = gather_back(s.file@, ns, q, r.index_slot, 0, w, none, w.max_depth as int);
            &&& g.out == answer_back(q, es)
            &&& w.budget - g.w.budget <= (h + 1) * (answer_back(q, es).len() + 1)
        }),
{
    let none = Seq::<EntryView>::empty();
    let w = s.walk_now();
    let p = root_ptr(s.file@, ns, r.index_slot, r.payload_hash);
    lemma_fresh_open(s, ns, p, h);
    lemma_gather_back(s.file@, ns, q, p, h, 0, w, none);
    lemma_gather_back_cost(s.file@, ns, q, p, h, 0, w, none, 1);
    assert(none + cut(q, 0, picks_back(q, es)) =~= answer_back(q, es));
}

} // verus!
