//! Cutting a sequence into runs, item by item: where a run ends is decided by
//! the items in it and the one that comes next, by nothing before it.

use vstd::prelude::*;

use crate::chunk::PAYLOAD_CAP;
use crate::container::{extends, Image};
use crate::seqs::{lemma_flat_append, lemma_flat_same};
use crate::space::index::{
    boundary_coin, child_cost, ends_node, internal_len, leaf_cost, leaf_len, ChildView, EntryView,
    Namespace,
};
use crate::space::model::{
    below, joined, kids, leaf_close, leaf_feed, leaf_groups, leaves, lemma_joined_push,
    lemma_leaf_groups_joined, lemma_level_extends, lemma_node_extends, lemma_node_groups_joined,
    lemma_shaped_extends, lemma_tree_extends, level_entries, level_ok, down, root_ptr, tree,
    no_leaves, no_nodes, node_close, node_feed, node_fits, node_groups, shaped,
};
use crate::space::root_of;
use crate::space::tree::forked;
use crate::tx::commit::RootView;

verus! {

/// A rule for cutting: whether an item still fits a run, and whether a run
/// ends with its last item.
#[verifier::reject_recursive_types(T)]
pub struct Cutter<T> {
    pub fits: spec_fn(Seq<T>, T) -> bool,
    pub ends: spec_fn(Seq<T>) -> bool,
}

/// Runs closed so far, and the items since.
pub type Cut<T> = (Seq<Seq<T>>, Seq<T>);

/// Nothing closed, nothing open.
pub open spec fn no_cut<T>() -> Cut<T> {
    (Seq::<Seq<T>>::empty(), Seq::<T>::empty())
}

/// One more item.
pub open spec fn cut_step<T>(c: Cutter<T>, st: Cut<T>, x: T) -> Cut<T> {
    let made_room = if st.1.len() > 0 && !(c.fits)(st.1, x) {
        (st.0.push(st.1), Seq::<T>::empty())
    } else {
        st
    };
    let run = made_room.1.push(x);
    if (c.ends)(run) {
        (made_room.0.push(run), Seq::<T>::empty())
    } else {
        (made_room.0, run)
    }
}

/// Items one after the other.
pub open spec fn cut_feed<T>(c: Cutter<T>, st: Cut<T>, xs: Seq<T>) -> Cut<T>
    decreases xs.len(),
{
    if xs.len() == 0 {
        st
    } else {
        cut_step(c, cut_feed(c, st, xs.drop_last()), xs.last())
    }
}

/// The runs when nothing more comes.
pub open spec fn cut_close<T>(st: Cut<T>) -> Seq<Seq<T>> {
    if st.1.len() == 0 {
        st.0
    } else {
        st.0.push(st.1)
    }
}

/// The runs that a sequence is cut into.
pub open spec fn cut<T>(c: Cutter<T>, xs: Seq<T>) -> Seq<Seq<T>> {
    cut_close(cut_feed(c, no_cut::<T>(), xs))
}

/// Feeding two sequences is feeding one after the other.
proof fn lemma_feed_append<T>(c: Cutter<T>, st: Cut<T>, a: Seq<T>, b: Seq<T>)
    ensures
        cut_feed(c, st, a + b) == cut_feed(c, cut_feed(c, st, a), b),
    decreases b.len(),
{
    if b.len() == 0 {
        assert(a + b =~= a);
    } else {
        assert((a + b).drop_last() =~= a + b.drop_last());
        assert((a + b).last() == b.last());
        lemma_feed_append(c, st, a, b.drop_last());
    }
}

/// What is closed already does not matter.
proof fn lemma_feed_prefix<T>(c: Cutter<T>, gs: Seq<Seq<T>>, run: Seq<T>, xs: Seq<T>)
    ensures
        cut_feed(c, (gs, run), xs) == (
            gs + cut_feed(c, (Seq::<Seq<T>>::empty(), run), xs).0,
            cut_feed(c, (Seq::<Seq<T>>::empty(), run), xs).1,
        ),
    decreases xs.len(),
{
    let none = Seq::<Seq<T>>::empty();
    if xs.len() == 0 {
        assert(gs + none =~= gs);
    } else {
        lemma_feed_prefix(c, gs, run, xs.drop_last());
        let f = cut_feed(c, (none, run), xs.drop_last());
        let x = xs.last();
        assert((gs + f.0).push(f.1) =~= gs + f.0.push(f.1));
        let made = if f.1.len() > 0 && !(c.fits)(f.1, x) {
            (f.0.push(f.1), Seq::<T>::empty())
        } else {
            f
        };
        let last = made.1.push(x);
        assert((gs + made.0).push(last) =~= gs + made.0.push(last));
    }
}

/// An item that does not fit closes the run before it.
proof fn lemma_feed_full<T>(c: Cutter<T>, gs: Seq<Seq<T>>, run: Seq<T>, xs: Seq<T>)
    requires
        run.len() > 0,
        xs.len() > 0,
        !(c.fits)(run, xs[0]),
    ensures
        cut_feed(c, (gs, run), xs) == cut_feed(c, (gs.push(run), Seq::<T>::empty()), xs),
    decreases xs.len(),
{
    if xs.len() == 1 {
        let none = xs.drop_last();
        assert(none.len() == 0);
        assert(xs.last() == xs[0]);
        assert(cut_feed(c, (gs, run), none) == (gs, run));
        assert(cut_feed(c, (gs.push(run), Seq::<T>::empty()), none) == (
            gs.push(run),
            Seq::<T>::empty(),
        ));
    } else {
        assert(xs.drop_last()[0] == xs[0]);
        lemma_feed_full(c, gs, run, xs.drop_last());
    }
}

/// `z` goes on from `st`: what was closed is still there, and what was open
/// is how the next run starts.
spec fn goes_on<T>(st: Cut<T>, z: Cut<T>) -> bool {
    &&& st.0.len() <= z.0.len()
    &&& z.0.take(st.0.len() as int) == st.0
    &&& z.0.len() == st.0.len() ==> starts_with(z.1, st.1)
    &&& z.0.len() > st.0.len() ==> starts_with(z.0[st.0.len() as int], st.1)
}

spec fn starts_with<T>(a: Seq<T>, b: Seq<T>) -> bool {
    b.len() <= a.len() && a.take(b.len() as int) == b
}

proof fn lemma_goes_on<T>(c: Cutter<T>, st: Cut<T>, xs: Seq<T>)
    ensures
        goes_on(st, cut_feed(c, st, xs)),
    decreases xs.len(),
{
    let n = st.0.len() as int;
    assert(st.0.take(n) =~= st.0);
    assert(st.1.take(st.1.len() as int) =~= st.1);
    if xs.len() > 0 {
        lemma_goes_on(c, st, xs.drop_last());
        let f = cut_feed(c, st, xs.drop_last());
        let x = xs.last();
        let made = if f.1.len() > 0 && !(c.fits)(f.1, x) {
            (f.0.push(f.1), Seq::<T>::empty())
        } else {
            f
        };
        assert(made.0.take(n) =~= f.0.take(n));
        let run = made.1.push(x);
        assert(made.0.push(run).take(n) =~= made.0.take(n));
        if made.0.len() == n {
            assert(run.take(st.1.len() as int) =~= made.1.take(st.1.len() as int));
        }
    }
}

/// An open run has not ended.
proof fn lemma_open_not_ended<T>(c: Cutter<T>, st: Cut<T>, xs: Seq<T>)
    requires
        xs.len() > 0,
        cut_feed(c, st, xs).1.len() > 0,
    ensures
        !(c.ends)(cut_feed(c, st, xs).1),
{
}

/// Feeding keeps every item, in order, and closes no empty run.
proof fn lemma_feed_joined<T>(c: Cutter<T>, xs: Seq<T>)
    ensures
        joined(cut_feed(c, no_cut::<T>(), xs).0) + cut_feed(c, no_cut::<T>(), xs).1 == xs,
        forall|i: int|
            0 <= i < cut_feed(c, no_cut::<T>(), xs).0.len() ==> (#[trigger] cut_feed(
                c,
                no_cut::<T>(),
                xs,
            ).0[i]).len() > 0,
    decreases xs.len(),
{
    if xs.len() == 0 {
        assert(joined(no_cut::<T>().0) =~= Seq::<T>::empty());
        assert(joined(no_cut::<T>().0) + no_cut::<T>().1 =~= xs);
    } else {
        lemma_feed_joined(c, xs.drop_last());
        let f = cut_feed(c, no_cut::<T>(), xs.drop_last());
        let x = xs.last();
        let made = if f.1.len() > 0 && !(c.fits)(f.1, x) {
            (f.0.push(f.1), Seq::<T>::empty())
        } else {
            f
        };
        lemma_joined_push(f.0, f.1);
        assert(joined(made.0) + made.1 =~= joined(f.0) + f.1);
        let run = made.1.push(x);
        lemma_joined_push(made.0, run);
        assert(joined(made.0) + run =~= (joined(made.0) + made.1).push(x));
        assert(xs =~= xs.drop_last().push(x));
        let z = cut_feed(c, no_cut::<T>(), xs);
        if (c.ends)(run) {
            assert(joined(z.0) + z.1 =~= xs);
        }
    }
}

/// The runs make up the sequence, and none is empty.
proof fn lemma_cut_joined<T>(c: Cutter<T>, xs: Seq<T>)
    ensures
        joined(cut(c, xs)) == xs,
        forall|i: int| 0 <= i < cut(c, xs).len() ==> (#[trigger] cut(c, xs)[i]).len() > 0,
{
    lemma_feed_joined(c, xs);
    let st = cut_feed(c, no_cut::<T>(), xs);
    lemma_joined_push(st.0, st.1);
    if st.1.len() == 0 {
        assert(joined(st.0) + st.1 =~= joined(st.0));
    }
}

/// More non-empty runs hold more items.
proof fn lemma_joined_grows<T>(gs: Seq<Seq<T>>, a: int, b: int)
    requires
        0 <= a <= b <= gs.len(),
        forall|i: int| 0 <= i < gs.len() ==> (#[trigger] gs[i]).len() > 0,
    ensures
        joined(gs.take(a)).len() <= joined(gs.take(b)).len(),
        a < b ==> joined(gs.take(a)).len() + gs[a].len() <= joined(gs.take(b)).len(),
        a < b ==> joined(gs.take(a)).len() < joined(gs.take(b)).len(),
    decreases b - a,
{
    if a < b {
        lemma_joined_grows(gs, a, b - 1);
        assert(gs.take(b) =~= gs.take(b - 1).push(gs[b - 1]));
        lemma_joined_push(gs.take(b - 1), gs[b - 1]);
    }
}

/// Where a run ends, the cutter has just closed it, or holds it open.
proof fn lemma_state_at<T>(c: Cutter<T>, xs: Seq<T>, i: int)
    requires
        0 <= i <= cut(c, xs).len(),
    ensures
        ({
            let g = cut(c, xs);
            let n = joined(g.take(i)).len() as int;
            let st = cut_feed(c, no_cut::<T>(), xs.take(n));
            &&& n <= xs.len()
            &&& xs.take(n) == joined(g.take(i))
            &&& xs.skip(n) == joined(g.skip(i))
            &&& st == (g.take(i), Seq::<T>::empty()) || (i > 0 && st == (g.take(i - 1), g[i - 1]))
        }),
{
    let g = cut(c, xs);
    lemma_cut_joined(c, xs);
    let l = g.take(i);
    let r = g.skip(i);
    assert(g =~= l + r);
    lemma_flat_append(|s: Seq<T>| s, l, r);
    assert(joined(g) == joined(l) + joined(r));
    let n = joined(l).len() as int;
    assert(xs.take(n) =~= joined(l));
    assert(xs.skip(n) =~= joined(r));
    let st = cut_feed(c, no_cut::<T>(), xs.take(n));
    lemma_feed_joined(c, xs.take(n));
    assert(xs =~= xs.take(n) + xs.skip(n));
    lemma_feed_append(c, no_cut::<T>(), xs.take(n), xs.skip(n));
    let z = cut_feed(c, no_cut::<T>(), xs);
    lemma_goes_on(c, st, xs.skip(n));
    let k = st.0.len() as int;
    assert(g.take(k) =~= st.0) by {
        assert(z.0.take(k) == st.0);
        assert(g.take(k) =~= z.0.take(k));
    }
    assert(joined(g.take(k)).len() + st.1.len() == n);
    if st.1.len() == 0 {
        if k < i {
            lemma_joined_grows(g, k, i);
        } else if i < k {
            lemma_joined_grows(g, i, k);
        }
        assert(st.1 =~= Seq::<T>::empty());
    } else {
        assert(k < g.len());
        assert(starts_with(g[k], st.1));
        if k >= i {
            lemma_joined_grows(g, i, k);
        } else {
            lemma_joined_grows(g, k, i);
            assert(g[k].take(st.1.len() as int) == st.1);
            assert(g[k].len() == st.1.len());
            assert(g[k] =~= st.1);
            if k + 1 < i {
                lemma_joined_grows(g, k + 1, i);
                lemma_joined_grows(g, k, k + 1);
            }
        }
    }
}

/// A run that did not take in the next item has no room for it.
proof fn lemma_not_taken<T>(c: Cutter<T>, left: Seq<Seq<T>>, run: Seq<T>, rest: Seq<T>)
    requires
        run.len() > 0,
        rest.len() > 0,
        cut_close(cut_feed(c, (left, run), rest)).len() > left.len(),
        cut_close(cut_feed(c, (left, run), rest))[left.len() as int] == run,
    ensures
        !(c.fits)(run, rest[0]),
{
    if (c.fits)(run, rest[0]) {
        let st = (left, run);
        let one = seq![rest[0]];
        let more = rest.skip(1);
        let none = one.drop_last();
        let z = cut_feed(c, st, rest);
        let n = left.len() as int;
        assert(rest =~= one + more);
        lemma_feed_append(c, st, one, more);
        assert(none.len() == 0);
        assert(cut_feed(c, st, none) == st);
        let s1 = cut_feed(c, st, one);
        assert(s1 == cut_step(c, st, rest[0]));
        lemma_goes_on(c, s1, more);
        let longer = run.push(rest[0]);
        if (c.ends)(longer) {
            assert(s1.0 == left.push(longer));
            assert(z.0.take(n + 1) == s1.0);
            assert(z.0.take(n + 1)[n] == longer);
            assert(cut_close(z)[n] == z.0[n]);
        } else {
            assert(s1 == (left, longer));
            assert(starts_with(cut_close(z)[n], longer));
        }
        assert(false);
    }
}

/// Going on where a run ends is starting afresh.
proof fn lemma_cut_rest<T>(c: Cutter<T>, xs: Seq<T>, i: int)
    requires
        0 <= i <= cut(c, xs).len(),
    ensures
        cut(c, xs).skip(i) == cut(c, joined(cut(c, xs).skip(i))),
{
    let g = cut(c, xs);
    lemma_state_at(c, xs, i);
    lemma_cut_joined(c, xs);
    let n = joined(g.take(i)).len() as int;
    let st = cut_feed(c, no_cut::<T>(), xs.take(n));
    let rest = xs.skip(n);
    assert(xs =~= xs.take(n) + rest);
    lemma_feed_append(c, no_cut::<T>(), xs.take(n), rest);
    let l = g.take(i);
    let none = Seq::<T>::empty();
    if st == (l, none) {
        lemma_feed_prefix(c, l, none, rest);
        let f = cut_feed(c, no_cut::<T>(), rest);
        assert(g =~= l + cut_close(f)) by {
            assert(l + f.0.push(f.1) =~= (l + f.0).push(f.1));
        }
        assert(g.skip(i) =~= cut_close(f));
    } else {
        let run = g[i - 1];
        let left = g.take(i - 1);
        assert(l =~= left.push(run));
        if rest.len() == 0 {
            assert(cut_feed(c, st, rest) == st);
            assert(g =~= left.push(run));
            assert(g.skip(i) =~= Seq::<Seq<T>>::empty());
            assert(cut(c, rest) =~= Seq::<Seq<T>>::empty());
        } else {
            lemma_not_taken(c, left, run, rest);
            lemma_feed_full(c, left, run, rest);
            lemma_feed_prefix(c, left.push(run), none, rest);
            let f = cut_feed(c, no_cut::<T>(), rest);
            assert(g =~= l + cut_close(f)) by {
                assert(l + f.0.push(f.1) =~= (l + f.0).push(f.1));
            }
            assert(g.skip(i) =~= cut_close(f));
        }
    }
}

/// The sequence is one run.
pub open spec fn one_run<T>(c: Cutter<T>, g: Seq<T>) -> bool {
    cut(c, g) == seq![g]
}

/// In one run every item but the first fits behind those before it, and none but
/// the last ends it.
pub proof fn lemma_one_run_means<T>(c: Cutter<T>, g: Seq<T>, i: int)
    requires
        one_run(c, g),
        0 < i < g.len(),
    ensures
        (c.fits)(g.take(i), g[i]),
        !(c.ends)(g.take(i)),
{
    lemma_run_so_far(c, g, i);
    lemma_open_not_ended(c, no_cut::<T>(), g.take(i));
    let st = cut_feed(c, no_cut::<T>(), g.take(i));
    if !(c.fits)(g.take(i), g[i]) {
        let more = g.take(i + 1);
        assert(more.drop_last() =~= g.take(i));
        assert(more.last() == g[i]);
        let now = cut_feed(c, no_cut::<T>(), more);
        assert(now == cut_step(c, st, g[i]));
        assert(now.0.len() > 0 && now.0[0] == g.take(i));
        lemma_feed_append(c, no_cut::<T>(), more, g.skip(i + 1));
        assert(more + g.skip(i + 1) =~= g);
        lemma_goes_on(c, now, g.skip(i + 1));
        let end = cut_feed(c, no_cut::<T>(), g);
        assert(end.0.take(now.0.len() as int)[0] == end.0[0]);
        assert(cut_close(end)[0] == end.0[0]);
        assert(g.take(i).len() == g.len());
    }
}

proof fn lemma_run_so_far<T>(c: Cutter<T>, g: Seq<T>, i: int)
    requires
        one_run(c, g),
        0 < i < g.len(),
    ensures
        cut_feed(c, no_cut::<T>(), g.take(i)) == (Seq::<Seq<T>>::empty(), g.take(i)),
{
    let st = cut_feed(c, no_cut::<T>(), g.take(i));
    let end = cut_feed(c, no_cut::<T>(), g);
    lemma_feed_append(c, no_cut::<T>(), g.take(i), g.skip(i));
    assert(g.take(i) + g.skip(i) =~= g);
    lemma_goes_on(c, st, g.skip(i));
    lemma_feed_joined(c, g.take(i));
    if st.0.len() > 0 {
        assert(end.0.take(st.0.len() as int)[0] == end.0[0]);
        assert(cut_close(end)[0] == end.0[0]);
        lemma_joined_grows(st.0, 0, st.0.len() as int);
        assert(st.0.take(st.0.len() as int) =~= st.0);
    }
    assert(st.0 =~= Seq::<Seq<T>>::empty());
    assert(joined(st.0) =~= Seq::<T>::empty());
    assert(st.1 =~= g.take(i));
}

/// Each run that a sequence is cut into is one run by itself.
pub proof fn lemma_cut_runs<T>(c: Cutter<T>, xs: Seq<T>, i: int)
    requires
        0 <= i < cut(c, xs).len(),
    ensures
        one_run(c, cut(c, xs)[i]),
{
    let g = cut(c, xs);
    lemma_cut_rest(c, xs, i);
    lemma_cut_joined(c, xs);
    let r = g.skip(i);
    let rest = joined(r);
    assert(cut(c, rest) == r);
    lemma_state_at(c, rest, 1);
    let run = r[0];
    assert(run == g[i]);
    assert(r.take(1) =~= seq![run]);
    assert(seq![run].drop_last() =~= Seq::<Seq<T>>::empty());
    lemma_joined_push(Seq::<Seq<T>>::empty(), run);
    assert(Seq::<Seq<T>>::empty().push(run) =~= seq![run]);
    assert(joined(Seq::<Seq<T>>::empty()) =~= Seq::<T>::empty());
    assert(joined(r.take(1)) =~= run);
    assert(rest.take(run.len() as int) == run);
    assert(r.take(0) =~= Seq::<Seq<T>>::empty());
    assert(cut(c, run) =~= seq![run]);
}

/// Nothing that comes next would still have gone into the run.
pub open spec fn closed_off<T>(c: Cutter<T>, g: Seq<T>, after: Seq<T>) -> bool {
    (c.ends)(g) || after.len() == 0 || !(c.fits)(g, after[0])
}

/// Cutting goes on afresh after a run that is closed off.
proof fn lemma_cut_splice<T>(c: Cutter<T>, xs: Seq<T>, after: Seq<T>)
    requires
        cut(c, xs).len() > 0 ==> closed_off(c, cut(c, xs).last(), after),
    ensures
        cut(c, xs + after) == cut(c, xs) + cut(c, after),
{
    let g = cut(c, xs);
    lemma_cut_joined(c, xs);
    let st = cut_feed(c, no_cut::<T>(), xs);
    let none = Seq::<T>::empty();
    lemma_feed_append(c, no_cut::<T>(), xs, after);
    let f = cut_feed(c, no_cut::<T>(), after);
    if st.1.len() == 0 {
        assert(st.1 =~= none);
        assert(st == (g, none));
        lemma_feed_prefix(c, g, none, after);
        assert(g + f.0.push(f.1) =~= (g + f.0).push(f.1));
    } else {
        assert(g.last() == st.1);
        assert(xs.len() > 0);
        lemma_open_not_ended(c, no_cut::<T>(), xs);
        if after.len() == 0 {
            assert(cut(c, after) =~= Seq::<Seq<T>>::empty());
            assert(g + cut(c, after) =~= g);
        } else {
            lemma_feed_full(c, st.0, st.1, after);
            lemma_feed_prefix(c, st.0.push(st.1), none, after);
            assert(g == st.0.push(st.1));
            assert(g + f.0.push(f.1) =~= (g + f.0).push(f.1));
        }
    }
}

/// Each run is closed off from the next.
pub open spec fn chained<T>(c: Cutter<T>, gs: Seq<Seq<T>>) -> bool {
    forall|i: int| 0 <= i < gs.len() - 1 ==> closed_off(c, #[trigger] gs[i], gs[i + 1])
}

/// A part of a chain is a chain.
pub proof fn lemma_chained_part<T>(c: Cutter<T>, gs: Seq<Seq<T>>, from: int, to: int)
    requires
        chained(c, gs),
        0 <= from <= to <= gs.len(),
    ensures
        chained(c, gs.subrange(from, to)),
{
    let part = gs.subrange(from, to);
    assert forall|i: int| 0 <= i < part.len() - 1 implies closed_off(
        c,
        #[trigger] part[i],
        part[i + 1],
    ) by {
        assert(closed_off(c, gs[from + i], gs[from + i + 1]));
    }
}

/// Three chains that hold together are a chain.
pub proof fn lemma_chained_splice<T>(
    c: Cutter<T>,
    l: Seq<Seq<T>>,
    m: Seq<Seq<T>>,
    r: Seq<Seq<T>>,
)
    requires
        chained(c, l),
        chained(c, m),
        chained(c, r),
        l.len() > 0 ==> m.len() > 0 && closed_off(c, l.last(), m[0]),
        m.len() > 0 && r.len() > 0 ==> closed_off(c, m.last(), r[0]),
    ensures
        chained(c, l + m + r),
{
    let z = l + m + r;
    assert forall|i: int| 0 <= i < z.len() - 1 implies closed_off(c, #[trigger] z[i], z[i + 1]) by {
        if i < l.len() {
            assert(z[i] == l[i]);
            if i + 1 < l.len() {
                assert(z[i + 1] == l[i + 1]);
            } else {
                assert(z[i + 1] == m[0]);
            }
        } else if i < l.len() + m.len() {
            let k = i - l.len();
            assert(z[i] == m[k]);
            if k + 1 < m.len() {
                assert(z[i + 1] == m[k + 1]);
            } else {
                assert(z[i + 1] == r[0]);
            }
        } else {
            let k = i - l.len() - m.len();
            assert(z[i] == r[k] && z[i + 1] == r[k + 1]);
        }
    }
}

/// Runs, each one by itself and closed off from the next, are what the whole
/// is cut into.
pub proof fn lemma_runs_are_cut<T>(c: Cutter<T>, gs: Seq<Seq<T>>)
    requires
        forall|i: int| 0 <= i < gs.len() ==> one_run(c, #[trigger] gs[i]),
        chained(c, gs),
    ensures
        cut(c, joined(gs)) == gs,
    decreases gs.len(),
{
    if gs.len() == 0 {
        assert(joined(gs) =~= Seq::<T>::empty());
        assert(cut(c, joined(gs)) =~= gs);
    } else {
        let init = gs.drop_last();
        let g = gs.last();
        assert forall|i: int| 0 <= i < init.len() implies one_run(c, #[trigger] init[i]) by {
            assert(init[i] == gs[i]);
        }
        assert forall|i: int| 0 <= i < init.len() - 1 implies closed_off(
            c,
            #[trigger] init[i],
            init[i + 1],
        ) by {
            assert(init[i] == gs[i] && init[i + 1] == gs[i + 1]);
        }
        lemma_runs_are_cut(c, init);
        if init.len() > 0 {
            assert(closed_off(c, gs[gs.len() - 2], gs[gs.len() - 2 + 1]));
            assert(init.last() == gs[gs.len() - 2]);
        }
        lemma_cut_splice(c, joined(init), g);
        assert(one_run(c, gs[gs.len() - 1]));
        lemma_joined_push(init, g);
        assert(init.push(g) =~= gs);
        assert(init + seq![g] =~= gs);
    }
}

/// In what a sequence is cut into, each run is closed off from the next.
#[verifier::spinoff_prover]
proof fn lemma_cut_closed_off<T>(c: Cutter<T>, xs: Seq<T>, i: int)
    requires
        0 <= i < cut(c, xs).len() - 1,
    ensures
        closed_off(c, cut(c, xs)[i], cut(c, xs)[i + 1]),
{
    let g = cut(c, xs);
    lemma_cut_joined(c, xs);
    let run = g[i];
    let next = g[i + 1];
    lemma_state_at(c, xs, i + 1);
    let n = joined(g.take(i + 1)).len() as int;
    let st = cut_feed(c, no_cut::<T>(), xs.take(n));
    let rest = xs.skip(n);
    assert(rest.len() > 0 && rest[0] == next[0]) by {
        lemma_joined_first(g.skip(i + 1));
    }
    if st == (g.take(i + 1), Seq::<T>::empty()) {
        lemma_closed_at_once(c, xs.take(n), g.take(i + 1));
        assert(g.take(i + 1).last() == run);
    } else {
        assert(st == (g.take(i), run));
        lemma_feed_append(c, no_cut::<T>(), xs.take(n), rest);
        assert(xs =~= xs.take(n) + rest);
        lemma_not_taken(c, g.take(i), run, rest);
    }
}

/// What a sequence is cut into is a chain.
pub proof fn lemma_cut_chained<T>(c: Cutter<T>, xs: Seq<T>)
    ensures
        chained(c, cut(c, xs)),
{
    let gs = cut(c, xs);
    assert forall|i: int| 0 <= i < gs.len() - 1 implies closed_off(c, #[trigger] gs[i], gs[i + 1]) by {
        lemma_cut_closed_off(c, xs, i);
    }
}

/// What a sequence is cut into starts with its first item.
pub proof fn lemma_cut_first<T>(c: Cutter<T>, xs: Seq<T>)
    requires
        xs.len() > 0,
    ensures
        cut(c, xs).len() > 0,
        cut(c, xs)[0].len() > 0,
        cut(c, xs)[0][0] == xs[0],
{
    lemma_cut_joined(c, xs);
    if cut(c, xs).len() == 0 {
        assert(cut(c, xs) =~= Seq::<Seq<T>>::empty());
        assert(joined(cut(c, xs)) =~= Seq::<T>::empty());
    }
    lemma_joined_first(cut(c, xs));
}

/// Runs start with the first item of the first.
proof fn lemma_joined_first<T>(gs: Seq<Seq<T>>)
    requires
        gs.len() > 0,
        gs[0].len() > 0,
    ensures
        joined(gs).len() > 0,
        joined(gs)[0] == gs[0][0],
    decreases gs.len(),
{
    let init = gs.drop_last();
    lemma_joined_push(init, gs.last());
    assert(init.push(gs.last()) =~= gs);
    if gs.len() == 1 {
        assert(joined(init) =~= Seq::<T>::empty());
    } else {
        assert(init[0] == gs[0]);
        lemma_joined_first(init);
    }
}

/// A run that is closed with nothing after it has ended.
pub proof fn lemma_closed_at_once<T>(c: Cutter<T>, xs: Seq<T>, gs: Seq<Seq<T>>)
    requires
        cut_feed(c, no_cut::<T>(), xs) == (gs, Seq::<T>::empty()),
        gs.len() > 0,
    ensures
        (c.ends)(gs.last()),
{
    if xs.len() > 0 {
        let f = cut_feed(c, no_cut::<T>(), xs.drop_last());
        let x = xs.last();
        assert(cut_feed(c, no_cut::<T>(), xs) == cut_step(c, f, x));
        let made = if f.1.len() > 0 && !(c.fits)(f.1, x) {
            (f.0.push(f.1), Seq::<T>::empty())
        } else {
            f
        };
        let last = made.1.push(x);
        if (c.ends)(last) {
            assert(gs == made.0.push(last));
            assert(gs.last() == last);
        } else {
            assert(cut_step(c, f, x).1 == last);
            assert(last.len() > 0);
        }
    }
}

// ---------------------------------------------------------------------------
// Leaves and nodes
// ---------------------------------------------------------------------------

/// How entries are cut into leaves.
pub open spec fn leaf_cutter() -> Cutter<EntryView> {
    Cutter {
        fits: |run: Seq<EntryView>, e: EntryView| leaf_len(run) + leaf_cost(e) <= PAYLOAD_CAP,
        ends: |run: Seq<EntryView>|
            ends_node(boundary_coin(0, run.last().0), leaf_cost(run.last()), leaf_len(run)),
    }
}

/// How children are cut into the nodes of a level.
pub open spec fn node_cutter(level: u8) -> Cutter<ChildView> {
    Cutter {
        fits: |run: Seq<ChildView>, c: ChildView|
            internal_len(run) + child_cost(c.first_key) <= PAYLOAD_CAP,
        ends: |run: Seq<ChildView>|
            run.len() >= 4 && ends_node(
                boundary_coin(level, run.last().first_key),
                child_cost(run.last().first_key),
                internal_len(run),
            ),
    }
}

/// Leaves are cut by the rule for leaves.
pub proof fn lemma_leaf_cut(es: Seq<EntryView>)
    ensures
        leaf_close(leaf_feed(no_leaves(), es)) == cut(leaf_cutter(), es),
        leaf_feed(no_leaves(), es) == cut_feed(leaf_cutter(), no_cut::<EntryView>(), es),
    decreases es.len(),
{
    if es.len() > 0 {
        lemma_leaf_cut(es.drop_last());
        let f = leaf_feed(no_leaves(), es.drop_last());
        let e = es.last();
        let made = if f.1.len() > 0 && leaf_len(f.1) + leaf_cost(e) > PAYLOAD_CAP {
            (f.0.push(f.1), Seq::<EntryView>::empty())
        } else {
            f
        };
        assert(made.1.push(e).last() == e);
    }
}

/// Nodes are cut by the rule for their level.
pub proof fn lemma_node_cut(level: u8, cs: Seq<ChildView>)
    ensures
        node_close(node_feed(level, no_nodes(), cs)) == cut(node_cutter(level), cs),
        node_feed(level, no_nodes(), cs) == cut_feed(
            node_cutter(level),
            no_cut::<ChildView>(),
            cs,
        ),
    decreases cs.len(),
{
    if cs.len() > 0 {
        lemma_node_cut(level, cs.drop_last());
        let f = node_feed(level, no_nodes(), cs.drop_last());
        let c = cs.last();
        let made = if f.1.len() > 0 && internal_len(f.1) + child_cost(c.first_key) > PAYLOAD_CAP {
            (f.0.push(f.1), Seq::<ChildView>::empty())
        } else {
            f
        };
        assert(made.1.push(c).last() == c);
    }
}

/// Every node is one run: it goes on for as long as it may, and ends nowhere
/// before its end.
pub open spec fn whole(img: Image, ns: Namespace, ps: Seq<ChildView>, h: nat) -> bool
    decreases h,
{
    if h == 0 {
        forall|i: int| 0 <= i < ps.len() ==> one_run(leaf_cutter(), leaves(img, ns)(#[trigger] ps[i]))
    } else {
        &&& forall|i: int|
            0 <= i < ps.len() ==> one_run(node_cutter(h as u8), kids(img, ns)(#[trigger] ps[i]))
        &&& whole(img, ns, below(img, ns, ps), (h - 1) as nat)
    }
}

/// No node but the last of its level could have taken in what its right
/// neighbour starts with.
pub open spec fn snug(img: Image, ns: Namespace, ps: Seq<ChildView>, h: nat) -> bool
    decreases h,
{
    if h == 0 {
        chained(leaf_cutter(), leaf_groups(img, ns, ps))
    } else {
        &&& chained(node_cutter(h as u8), node_groups(img, ns, ps))
        &&& snug(img, ns, below(img, ns, ps), (h - 1) as nat)
    }
}

/// A level is cut where its items say exactly if every node is one run and
/// none could have taken in more.
pub proof fn law_shaped_is_whole_and_snug(
    img: Image,
    ns: Namespace,
    ps: Seq<ChildView>,
    h: nat,
)
    ensures
        shaped(img, ns, ps, h) <==> whole(img, ns, ps, h) && snug(img, ns, ps, h),
    decreases h,
{
    if h == 0 {
        let c = leaf_cutter();
        let gs = leaf_groups(img, ns, ps);
        let es = level_entries(img, ns, ps, 0);
        lemma_leaf_groups_joined(img, ns, ps);
        lemma_leaf_cut(es);
        if shaped(img, ns, ps, h) {
            assert forall|i: int| 0 <= i < ps.len() implies one_run(
                c,
                leaves(img, ns)(#[trigger] ps[i]),
            ) by {
                lemma_cut_runs(c, es, i);
                assert(gs[i] == leaves(img, ns)(ps[i]));
            }
            lemma_cut_chained(c, es);
        }
        if whole(img, ns, ps, h) && snug(img, ns, ps, h) {
            assert forall|i: int| 0 <= i < gs.len() implies one_run(c, #[trigger] gs[i]) by {
                assert(gs[i] == leaves(img, ns)(ps[i]));
            }
            lemma_runs_are_cut(c, gs);
        }
    } else {
        let c = node_cutter(h as u8);
        let gs = node_groups(img, ns, ps);
        let cs = below(img, ns, ps);
        lemma_node_groups_joined(img, ns, ps);
        lemma_node_cut(h as u8, cs);
        law_shaped_is_whole_and_snug(img, ns, cs, (h - 1) as nat);
        if shaped(img, ns, ps, h) {
            assert forall|i: int| 0 <= i < ps.len() implies one_run(
                c,
                kids(img, ns)(#[trigger] ps[i]),
            ) by {
                lemma_cut_runs(c, cs, i);
                assert(gs[i] == kids(img, ns)(ps[i]));
            }
            lemma_cut_chained(c, cs);
        }
        if whole(img, ns, ps, h) && snug(img, ns, ps, h) {
            assert forall|i: int| 0 <= i < gs.len() implies one_run(c, #[trigger] gs[i]) by {
                assert(gs[i] == kids(img, ns)(ps[i]));
            }
            lemma_runs_are_cut(c, gs);
        }
    }
}

/// Two levels of whole nodes are one.
pub proof fn lemma_whole_append(
    img: Image,
    ns: Namespace,
    a: Seq<ChildView>,
    b: Seq<ChildView>,
    h: nat,
)
    ensures
        whole(img, ns, a + b, h) <==> whole(img, ns, a, h) && whole(img, ns, b, h),
    decreases h,
{
    let z = a + b;
    if h > 0 {
        lemma_flat_append(kids(img, ns), a, b);
        lemma_whole_append(img, ns, below(img, ns, a), below(img, ns, b), (h - 1) as nat);
    }
    if whole(img, ns, z, h) {
        assert forall|i: int| 0 <= i < a.len() implies z[i] == #[trigger] a[i] by {}
        assert forall|i: int| 0 <= i < b.len() implies z[a.len() + i] == #[trigger] b[i] by {}
    }
    if whole(img, ns, a, h) && whole(img, ns, b, h) {
        assert forall|i: int| 0 <= i < z.len() implies (#[trigger] z[i]) == if i < a.len() {
            a[i]
        } else {
            b[i - a.len()]
        } by {}
    }
}

/// Whole nodes are whole in a larger image.
pub proof fn lemma_whole_extends(a: Image, b: Image, ns: Namespace, ps: Seq<ChildView>, h: nat)
    requires
        extends(a, b),
        level_ok(a, ns, ps, h),
        whole(a, ns, ps, h),
    ensures
        whole(b, ns, ps, h),
    decreases h,
{
    lemma_level_extends(a, b, ns, ps, h);
    assert forall|i: int| 0 <= i < ps.len() implies kids(a, ns)(#[trigger] ps[i]) == kids(b, ns)(
        ps[i],
    ) && leaves(a, ns)(ps[i]) == leaves(b, ns)(ps[i]) by {
        assert(node_fits(a, ns, ps[i], h));
        lemma_node_extends(a, b, ns, ps[i].child_slot);
    }
    if h > 0 {
        lemma_whole_extends(a, b, ns, below(a, ns, ps), (h - 1) as nat);
    }
}

/// Leaves that entries have been cut into are whole.
pub proof fn lemma_cut_leaves_whole(
    img: Image,
    ns: Namespace,
    ps: Seq<ChildView>,
    es: Seq<EntryView>,
)
    requires
        leaf_groups(img, ns, ps) == leaf_close(leaf_feed(no_leaves(), es)),
    ensures
        whole(img, ns, ps, 0),
{
    lemma_leaf_cut(es);
    let gs = leaf_groups(img, ns, ps);
    assert forall|i: int| 0 <= i < ps.len() implies one_run(
        leaf_cutter(),
        leaves(img, ns)(#[trigger] ps[i]),
    ) by {
        lemma_cut_runs(leaf_cutter(), es, i);
        assert(gs[i] == leaves(img, ns)(ps[i]));
    }
}

/// Nodes that children have been cut into are whole.
pub proof fn lemma_cut_nodes_whole(
    img: Image,
    ns: Namespace,
    ps: Seq<ChildView>,
    cs: Seq<ChildView>,
    level: u8,
)
    requires
        node_groups(img, ns, ps) == node_close(node_feed(level, no_nodes(), cs)),
    ensures
        forall|i: int|
            0 <= i < ps.len() ==> one_run(node_cutter(level), kids(img, ns)(#[trigger] ps[i])),
{
    lemma_node_cut(level, cs);
    let gs = node_groups(img, ns, ps);
    assert forall|i: int| 0 <= i < ps.len() implies one_run(
        node_cutter(level),
        kids(img, ns)(#[trigger] ps[i]),
    ) by {
        lemma_cut_runs(node_cutter(level), cs, i);
        assert(gs[i] == kids(img, ns)(ps[i]));
    }
}

/// What stands below whole nodes is whole.
pub proof fn lemma_down_whole(img: Image, ns: Namespace, ps: Seq<ChildView>, h: nat, k: nat)
    requires
        whole(img, ns, ps, h),
        k <= h,
    ensures
        whole(img, ns, down(img, ns, ps, k), (h - k) as nat),
    decreases k,
{
    if k > 0 {
        lemma_down_whole(img, ns, ps, h, (k - 1) as nat);
    }
}

/// Snug nodes are snug in a larger image.
pub proof fn lemma_snug_extends(a: Image, b: Image, ns: Namespace, ps: Seq<ChildView>, h: nat)
    requires
        extends(a, b),
        level_ok(a, ns, ps, h),
        snug(a, ns, ps, h),
    ensures
        snug(b, ns, ps, h),
    decreases h,
{
    lemma_level_extends(a, b, ns, ps, h);
    assert forall|i: int| 0 <= i < ps.len() implies kids(a, ns)(#[trigger] ps[i]) == kids(b, ns)(
        ps[i],
    ) && leaves(a, ns)(ps[i]) == leaves(b, ns)(ps[i]) by {
        assert(node_fits(a, ns, ps[i], h));
        lemma_node_extends(a, b, ns, ps[i].child_slot);
    }
    assert(leaf_groups(a, ns, ps) =~= leaf_groups(b, ns, ps));
    assert(node_groups(a, ns, ps) =~= node_groups(b, ns, ps));
    if h > 0 {
        lemma_snug_extends(a, b, ns, below(a, ns, ps), (h - 1) as nat);
    }
}

/// What stands below snug nodes is snug.
pub proof fn lemma_down_snug(img: Image, ns: Namespace, ps: Seq<ChildView>, h: nat, k: nat)
    requires
        snug(img, ns, ps, h),
        k <= h,
    ensures
        snug(img, ns, down(img, ns, ps, k), (h - k) as nat),
    decreases k,
{
    if k > 0 {
        lemma_down_snug(img, ns, ps, h, (k - 1) as nat);
    }
}

/// There is a sound tree under this root, cut where its items say and without
/// an idle root.
pub open spec fn is_neat(img: Image, ns: Namespace, slot: u64, hash: Seq<u8>) -> bool {
    exists|g: nat| #[trigger]
        tree(img, ns, slot, hash, g) && shaped(img, ns, seq![root_ptr(img, ns, slot, hash)], g)
            && forked(img, ns, slot, hash, g)
}

/// The namespace has a tree as it is built from nothing, or none.
pub open spec fn ns_neat(img: Image, rs: Seq<RootView>, ns: Namespace) -> bool {
    match root_of(rs, ns) {
        None => true,
        Some(r) => is_neat(img, ns, r.index_slot, r.payload_hash),
    }
}

/// A neat tree is neat in a larger image.
pub proof fn lemma_is_neat_extends(a: Image, b: Image, ns: Namespace, slot: u64, hash: Seq<u8>)
    requires
        extends(a, b),
        is_neat(a, ns, slot, hash),
    ensures
        is_neat(b, ns, slot, hash),
{
    let g = choose|g: nat| #[trigger]
        tree(a, ns, slot, hash, g) && shaped(a, ns, seq![root_ptr(a, ns, slot, hash)], g) && forked(
            a,
            ns,
            slot,
            hash,
            g,
        );
    let p = root_ptr(a, ns, slot, hash);
    lemma_tree_extends(a, b, ns, slot, hash, g);
    lemma_shaped_extends(a, b, ns, seq![p], g);
    if g > 0 {
        assert(node_fits(a, ns, seq![p][0], g));
        lemma_node_extends(a, b, ns, slot);
        lemma_flat_same(kids(a, ns), kids(b, ns), seq![p]);
    }
    assert(tree(b, ns, slot, hash, g));
}

} // verus!
