//! What the reads of a space answer, told by what the space holds and by how one
//! answer goes with another.

use vstd::prelude::*;

use crate::bytes::{be_bytes, lemma_lex_total, lemma_lex_trans, lex_lt};
use crate::error::Error;
use crate::space::index::{
    entries_view, lemma_lookup, lemma_lookup_at, lookup, EntryView, Namespace,
};
use crate::space::laws::{got, holds, law_held_is_read, lemma_readable, listed, within_reach};
use crate::space::log::{law_log_id_key_round_trip, records_view, RecordView};
use crate::space::log_iter::{log_value, record_of};
use crate::space::model::{
    lemma_level_first, lemma_ns_holds_sorted, lemma_root_of, root_ptr, tree, tree_entries,
};
use crate::space::order_laws::{law_orderly_is_read, lemma_root_at, orderly};
use crate::space::page_laws::lemma_log_read;
use crate::space::reads::{keys_of, keys_view, opt_bytes, page_after, range_of, QueryView};
use crate::space::sound::{
    answer, law_range, lemma_picks_all, lemma_picks_append, lemma_picks_none, picks, wanted,
};
use crate::space::stats::{
    clamped, count_of, counts_right, kinds_of, namespaces_of, sum_counts,
};
use crate::space::superblock::NO_RECORD;
use crate::space::whole_laws::logged;
use crate::space::{root_of, Space};
use crate::tx::commit::{lemma_commit_decode_valid, roots_sorted, NamespaceKind};

verus! {

// ---------------------------------------------------------------------------
// Keys and values as they are handed out
// ---------------------------------------------------------------------------

/// What is handed out stands for the bytes in it, place by place.
pub proof fn law_lists_stand_for_their_bytes(
    pairs: Seq<(Vec<u8>, Vec<u8>)>,
    keys: Seq<Vec<u8>>,
    records: Seq<(u64, Vec<u8>)>,
    value: Option<Vec<u8>>,
    es: Seq<EntryView>,
    i: int,
)
    ensures
        entries_view(pairs).len() == pairs.len(),
        0 <= i < pairs.len() ==> entries_view(pairs)[i] == (pairs[i].0@, pairs[i].1@),
        keys_view(keys).len() == keys.len(),
        0 <= i < keys.len() ==> keys_view(keys)[i] == keys[i]@,
        records_view(records).len() == records.len(),
        0 <= i < records.len() ==> records_view(records)[i] == (records[i].0, records[i].1@),
        keys_of(es).len() == es.len(),
        0 <= i < es.len() ==> keys_of(es)[i] == es[i].0,
        value is None ==> opt_bytes(value) is None,
        value is Some ==> opt_bytes(value) == Some(value->0@),
{
}

/// The order of keys is that of their first differing byte; of two keys of which
/// one begins with the other, the shorter comes first.
pub proof fn law_byte_order(a: Seq<u8>, b: Seq<u8>, i: int)
    requires
        0 <= i <= a.len(),
        i <= b.len(),
        forall|j: int| 0 <= j < i ==> a[j] == b[j],
    ensures
        i < a.len() && i < b.len() && a[i] != b[i] ==> (lex_lt(a, b) <==> a[i] < b[i]),
        i == a.len() ==> (lex_lt(a, b) <==> a.len() < b.len()),
        i == b.len() ==> !lex_lt(a, b),
    decreases a.len(),
{
    if a.len() > 0 && b.len() > 0 && i > 0 {
        let x = a.drop_first();
        let y = b.drop_first();
        assert(a[0] == b[0]);
        assert forall|j: int| 0 <= j < i - 1 implies x[j] == y[j] by {
            assert(a[j + 1] == b[j + 1]);
        }
        law_byte_order(x, y, i - 1);
    }
}

// ---------------------------------------------------------------------------
// Reading one key, and reading all
// ---------------------------------------------------------------------------

/// `list` of a sound namespace gives what it holds, each key once and by rising
/// key, and `get` gives for a key the value that is listed with it, and nothing
/// for a key that is not listed.
pub proof fn law_get_and_list_agree(
    s: Space,
    ns: Namespace,
    es: Seq<EntryView>,
    key: Seq<u8>,
    value: Seq<u8>,
)
    requires
        s.wf(),
        holds(s, ns, es),
        within_reach(s, ns),
    ensures
        listed(s, ns) == Ok::<Seq<EntryView>, Error>(es),
        forall|i: int, j: int|
            0 <= i < j < es.len() ==> lex_lt((#[trigger] es[i]).0, (#[trigger] es[j]).0),
        got(s, ns, key) == Ok::<Option<Seq<u8>>, Error>(Some(value)) <==> es.contains(
            (key, value),
        ),
        got(s, ns, key) == Ok::<Option<Seq<u8>>, Error>(None) <==> forall|i: int|
            0 <= i < es.len() ==> (#[trigger] es[i]).0 != key,
{
    law_held_is_read(s, ns, es, key);
    lemma_ns_holds_sorted(s.file@, s.roots()->Ok_0, ns, es);
    lemma_lookup(es, key);
    if es.contains((key, value)) {
        let i = choose|i: int| 0 <= i < es.len() && es[i] == (key, value);
        lemma_lookup_at(es, i);
    }
    if let Some(v) = lookup(es, key) {
        let i = choose|i: int| 0 <= i < es.len() && #[trigger] es[i] == (key, v);
        assert(es.contains((key, v)));
        assert(es[i].0 == key);
    }
}

// ---------------------------------------------------------------------------
// Pages
// ---------------------------------------------------------------------------

/// The entries from position `m` on, up to a limit.
pub open spec fn stretch(es: Seq<EntryView>, m: int, limit: nat) -> Seq<EntryView> {
    es.subrange(
        m,
        if es.len() - m <= limit {
            es.len() as int
        } else {
            m + limit
        },
    )
}

/// What is picked after the entries before position `m` are what stands there.
proof fn lemma_page_at(q: QueryView, es: Seq<EntryView>, m: int, limit: nat)
    requires
        0 <= m <= es.len(),
        q.limit == Some(limit),
        limit > 0,
        forall|i: int| 0 <= i < m ==> !wanted(q, #[trigger] es[i]),
        forall|i: int| m <= i < es.len() ==> wanted(q, #[trigger] es[i]),
    ensures
        answer(q, es) == stretch(es, m, limit),
{
    let a = es.take(m);
    let b = es.skip(m);
    assert(es =~= a + b);
    lemma_picks_append(q, a, b);
    assert forall|i: int| 0 <= i < a.len() implies !wanted(q, #[trigger] a[i]) by {
        assert(a[i] == es[i]);
    }
    assert forall|i: int| 0 <= i < b.len() implies wanted(q, #[trigger] b[i]) by {
        assert(b[i] == es[m + i]);
    }
    lemma_picks_none(q, a);
    lemma_picks_all(q, b);
    assert(picks(q, es) =~= b);
    assert(answer(q, es) =~= stretch(es, m, limit));
}

/// `list_after` from the start gives the first entries of `list`, up to the
/// limit, whatever the keys are.
pub proof fn law_first_page(s: Space, ns: Namespace, es: Seq<EntryView>, limit: nat)
    requires
        s.wf(),
        holds(s, ns, es),
        within_reach(s, ns),
        limit > 0,
    ensures
        listed(s, ns) == Ok::<Seq<EntryView>, Error>(es),
        range_of(s.file@, s.state.superblock@, s.walk_now(), ns, page_after(None, limit)) == Ok::<
            Seq<EntryView>,
            Error,
        >(stretch(es, 0, limit)),
{
    law_held_is_read(s, ns, es, Seq::<u8>::empty());
    lemma_readable(s, ns, es);
    let q = page_after(None, limit);
    law_range(s, ns, es, q);
    lemma_page_at(q, es, 0, limit);
}

/// `list_after` a key gives the entries of `list` with greater keys, from the
/// first of them on, up to the limit.
pub proof fn law_next_page(
    s: Space,
    ns: Namespace,
    es: Seq<EntryView>,
    key: Seq<u8>,
    m: int,
    limit: nat,
)
    requires
        s.wf(),
        holds(s, ns, es),
        within_reach(s, ns),
        limit > 0,
        0 <= m <= es.len(),
        m > 0 ==> es[m - 1].0 == key || lex_lt(es[m - 1].0, key),
        m < es.len() ==> lex_lt(key, es[m].0),
    ensures
        listed(s, ns) == Ok::<Seq<EntryView>, Error>(es),
        range_of(s.file@, s.state.superblock@, s.walk_now(), ns, page_after(Some(key), limit))
            == Ok::<Seq<EntryView>, Error>(stretch(es, m, limit)),
{
    law_held_is_read(s, ns, es, Seq::<u8>::empty());
    lemma_readable(s, ns, es);
    lemma_ns_holds_sorted(s.file@, s.roots()->Ok_0, ns, es);
    let q = page_after(Some(key), limit);
    law_range(s, ns, es, q);
    assert forall|i: int| 0 <= i < m implies !wanted(q, #[trigger] es[i]) by {
        lemma_lex_total(es[m - 1].0, key);
        if i < m - 1 {
            assert(lex_lt(es[i].0, es[m - 1].0));
            if es[m - 1].0 != key {
                lemma_lex_trans(es[i].0, es[m - 1].0, key);
            }
        }
        lemma_lex_total(es[i].0, key);
    }
    assert forall|i: int| m <= i < es.len() implies wanted(q, #[trigger] es[i]) by {
        if i > m {
            assert(lex_lt(es[m].0, es[i].0));
            lemma_lex_trans(key, es[m].0, es[i].0);
        }
        lemma_lex_total(es[i].0, key);
    }
    lemma_page_at(q, es, m, limit);
}

/// The pages of `list_after`, each after the last key of the one before, put end
/// to end, from the start until one is empty.
pub open spec fn all_pages(s: Space, ns: Namespace, after: Option<Seq<u8>>, limit: nat, n: nat) -> Seq<
    EntryView,
>
    decreases n,
{
    let page = range_of(
        s.file@,
        s.state.superblock@,
        s.walk_now(),
        ns,
        page_after(after, limit),
    )->Ok_0;
    if n == 0 || page.len() == 0 {
        Seq::<EntryView>::empty()
    } else {
        page + all_pages(s, ns, Some(page.last().0), limit, (n - 1) as nat)
    }
}

/// Put end to end, the pages of `list_after` from the start are `list`, with no
/// gap and nothing twice.
pub proof fn law_pages_are_the_list(s: Space, ns: Namespace, es: Seq<EntryView>, limit: nat)
    requires
        s.wf(),
        holds(s, ns, es),
        within_reach(s, ns),
        limit > 0,
    ensures
        listed(s, ns) == Ok::<Seq<EntryView>, Error>(es),
        all_pages(s, ns, None, limit, es.len() + 1) == es,
{
    law_first_page(s, ns, es, limit);
    let page = stretch(es, 0, limit);
    if es.len() > 0 {
        let m = page.len() as int;
        assert(page.last() == es[m - 1]);
        lemma_pages_from(s, ns, es, m, limit, es.len());
        assert(page + es.skip(m) =~= es);
    } else {
        assert(es =~= Seq::<EntryView>::empty());
    }
}

proof fn lemma_pages_from(
    s: Space,
    ns: Namespace,
    es: Seq<EntryView>,
    m: int,
    limit: nat,
    n: nat,
)
    requires
        s.wf(),
        holds(s, ns, es),
        within_reach(s, ns),
        limit > 0,
        0 < m <= es.len(),
        n + m >= es.len() + 1,
    ensures
        all_pages(s, ns, Some(es[m - 1].0), limit, n) == es.skip(m),
    decreases n,
{
    lemma_ns_holds_sorted(s.file@, s.roots()->Ok_0, ns, es);
    if m < es.len() {
        assert(lex_lt(es[m - 1].0, es[m].0));
    }
    law_next_page(s, ns, es, es[m - 1].0, m, limit);
    let page = stretch(es, m, limit);
    if page.len() == 0 {
        assert(es.skip(m) =~= Seq::<EntryView>::empty());
    } else {
        let k = m + page.len();
        assert(page.last() == es[k - 1]);
        lemma_pages_from(s, ns, es, k, limit, (n - 1) as nat);
        assert(page + es.skip(k) =~= es.skip(m));
    }
}

// ---------------------------------------------------------------------------
// What there is
// ---------------------------------------------------------------------------

/// The roots of a commit rise by namespace.
proof fn lemma_roots_rise(s: Space)
    requires
        s.roots() is Ok,
    ensures
        roots_sorted(s.roots()->Ok_0),
{
    if s.state.superblock.root_slot != NO_RECORD {
        lemma_commit_decode_valid(s.file@[s.state.superblock.root_slot as int]->0.payload);
    }
}

/// `list_namespaces` gives every namespace that has a root, once and by rising
/// number, and no other; with its kind where kinds are asked for.
pub proof fn law_namespaces(s: Space, ns: Namespace, kind: NamespaceKind)
    requires
        s.roots() is Ok,
    ensures
        ({
            let rs = s.roots()->Ok_0;
            let names = namespaces_of(rs);
            let kinds = kinds_of(rs);
            &&& forall|i: int, j: int|
                0 <= i < j < names.len() ==> (#[trigger] names[i]).0 < (#[trigger] names[j]).0
            &&& names.contains(ns) <==> root_of(rs, ns) is Some
            &&& kinds.len() == names.len()
            &&& forall|i: int| 0 <= i < kinds.len() ==> (#[trigger] kinds[i]).0 == names[i]
            &&& kinds.contains((ns, kind)) <==> (root_of(rs, ns) matches Some(r) && r.kind == kind)
        }),
{
    let rs = s.roots()->Ok_0;
    let names = namespaces_of(rs);
    let kinds = kinds_of(rs);
    lemma_roots_rise(s);
    lemma_root_of(rs, ns);
    assert forall|i: int, j: int| 0 <= i < j < names.len() implies (#[trigger] names[i]).0 < (
    #[trigger] names[j]).0 by {
        assert(rs[i].namespace.0 < rs[j].namespace.0);
    }
    if names.contains(ns) {
        let i = choose|i: int| 0 <= i < names.len() && names[i] == ns;
        assert(rs[i].namespace == ns);
    }
    if let Some(r) = root_of(rs, ns) {
        let i = choose|i: int| 0 <= i < rs.len() && #[trigger] rs[i] == r;
        assert(names[i] == ns);
        assert(kinds[i] == (ns, r.kind));
    }
    if kinds.contains((ns, kind)) {
        let i = choose|i: int| 0 <= i < kinds.len() && kinds[i] == (ns, kind);
        lemma_root_at(rs, i);
    }
}

/// In a space in order, the namespaces that `list_namespaces` gives are those of
/// which `list` gives something.
pub proof fn law_namespaces_hold_something(s: Space, ns: Namespace)
    requires
        s.wf(),
        orderly(s),
    ensures
        listed(s, ns) is Ok,
        namespaces_of(s.roots()->Ok_0).contains(ns) <==> listed(s, ns)->Ok_0.len() > 0,
{
    law_namespaces(s, ns, NamespaceKind::Kv);
    law_orderly_is_read(s, ns, Seq::<u8>::empty());
    let rs = s.roots()->Ok_0;
    let es = listed(s, ns)->Ok_0;
    if let Some(r) = root_of(rs, ns) {
        let h = choose|h: nat| #[trigger]
            tree(s.file@, ns, r.index_slot, r.payload_hash, h) && tree_entries(
                s.file@,
                ns,
                r.index_slot,
                r.payload_hash,
                h,
            ) == es;
        lemma_level_first(
            s.file@,
            ns,
            seq![root_ptr(s.file@, ns, r.index_slot, r.payload_hash)],
            h,
        );
    }
}

/// `count` gives how many entries `list` gives, as far as the number can be told,
/// and fails where `list` fails. `stats` gives that for every namespace that
/// `list_namespaces` gives, in its order.
pub proof fn law_counts(s: Space, ns: Namespace, v: Seq<(Namespace, usize)>, i: int)
    requires
        s.roots() is Ok,
        counts_right(s, s.roots()->Ok_0, v),
    ensures
        match listed(s, ns) {
            Ok(es) => count_of(s, ns) is Ok && (es.len() <= usize::MAX ==> count_of(s, ns)->Ok_0
                == es.len()),
            Err(e) => count_of(s, ns) == Err::<int, Error>(e),
        },
        v.len() == namespaces_of(s.roots()->Ok_0).len(),
        0 <= i < v.len() ==> v[i].0 == namespaces_of(s.roots()->Ok_0)[i] && (listed(
            s,
            v[i].0,
        ) matches Ok(es) && (es.len() <= usize::MAX ==> v[i].1 == es.len())),
{
    if 0 <= i < v.len() {
        assert(v[i].0 == s.roots()->Ok_0[i].namespace);
    }
}

/// The total is the sum of the counts: nothing for none, and for one more count
/// that much more.
pub proof fn law_totals_add_up(v: Seq<(Namespace, usize)>, x: (Namespace, usize))
    ensures
        sum_counts(Seq::<(Namespace, usize)>::empty()) == 0,
        sum_counts(v.push(x)) == sum_counts(v) + x.1,
        0 <= sum_counts(v) <= usize::MAX ==> clamped(sum_counts(v)) == sum_counts(v),
        sum_counts(v) > usize::MAX ==> clamped(sum_counts(v)) == usize::MAX,
{
    assert(v.push(x).drop_last() =~= v);
}

// ---------------------------------------------------------------------------
// Records
// ---------------------------------------------------------------------------

/// `iter_log` of a sound log gives each record once and by rising number, and
/// `read_log` gives for a number the record that `iter_log` gives with it, and
/// nothing for a number that `iter_log` does not give.
pub proof fn law_read_log_and_iter_log_agree(
    s: Space,
    ns: Namespace,
    es: Seq<EntryView>,
    all: Seq<RecordView>,
    id: u64,
    payload: Seq<u8>,
)
    requires
        s.wf(),
        holds(s, ns, es),
        within_reach(s, ns),
        logged(s, ns) == Ok::<Seq<RecordView>, Error>(all),
    ensures
        forall|i: int, j: int|
            0 <= i < j < all.len() ==> (#[trigger] all[i]).0 < (#[trigger] all[j]).0,
        ({
            let one = log_value(s.file@, s.state.superblock@, s.walk_now(), ns, id);
            &&& one == Ok::<Option<Seq<u8>>, Error>(Some(payload)) <==> all.contains((id, payload))
            &&& one == Ok::<Option<Seq<u8>>, Error>(None) <==> forall|i: int|
                0 <= i < all.len() ==> (#[trigger] all[i]).0 != id
        }),
{
    let key = be_bytes(id as nat, 8);
    let one = log_value(s.file@, s.state.superblock@, s.walk_now(), ns, id);
    lemma_log_read(s, ns, es, all);
    law_held_is_read(s, ns, es, key);
    lemma_ns_holds_sorted(s.file@, s.roots()->Ok_0, ns, es);
    if root_of(s.roots()->Ok_0, ns) is Some {
        lemma_lookup(es, key);
        match lookup(es, key) {
            Some(v) => {
                let i = choose|i: int| 0 <= i < es.len() && #[trigger] es[i] == (key, v);
                assert(record_of(s.file@, es[i]) == Ok::<RecordView, Error>(all[i]));
                law_log_id_key_round_trip(id, key);
                assert(all[i].0 == id);
                assert(one == Ok::<Option<Seq<u8>>, Error>(Some(all[i].1)));
                assert(all.contains(all[i]));
                if all.contains((id, payload)) {
                    let j = choose|j: int| 0 <= j < all.len() && all[j] == (id, payload);
                    assert(j == i) by {
                        if j < i {
                            assert(all[j].0 < all[i].0);
                        } else if i < j {
                            assert(all[i].0 < all[j].0);
                        }
                    }
                }
            },
            None => {
                assert forall|i: int| 0 <= i < all.len() implies (#[trigger] all[i]).0 != id by {
                    assert(record_of(s.file@, es[i]) == Ok::<RecordView, Error>(all[i]));
                    law_log_id_key_round_trip(all[i].0, es[i].0);
                    assert(es[i].0 != key);
                }
                if all.contains((id, payload)) {
                    let j = choose|j: int| 0 <= j < all.len() && all[j] == (id, payload);
                    assert(all[j].0 != id);
                }
            },
        }
    }
}

} // verus!
