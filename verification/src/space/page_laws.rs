//! Pages of a log: each is a part of what `iter_log` gives, and put end to end
//! they are the whole.

use vstd::prelude::*;

use crate::bytes::{be_bytes, lex_lt};
use crate::container::Image;
use crate::error::Error;
use crate::space::index::{EntryView, Namespace};
use crate::space::laws::{holds, lemma_readable, within_reach};
use crate::space::log::{
    law_log_id_key_round_trip, law_log_id_keys_order_as_numbers, RecordView,
};
use crate::space::log_iter::{
    log_page, opt_key, record_of, records_after, records_before, records_between, records_of,
};
use crate::space::model::lemma_ns_holds_sorted;
use crate::space::reads::{everything, QueryView};
use crate::space::sound::{
    answer, answer_back, law_range, law_range_back, lemma_everything, picks, sane,
    wanted,
};
use crate::space::whole_laws::logged;
use crate::space::{root_of, Space};

verus! {

/// The records whose numbers are wanted, in order.
pub open spec fn records_where(rs: Seq<RecordView>, p: spec_fn(u64) -> bool) -> Seq<RecordView>
    decreases rs.len(),
{
    if rs.len() == 0 {
        rs
    } else if p(rs[0].0) {
        seq![rs[0]] + records_where(rs.drop_first(), p)
    } else {
        records_where(rs.drop_first(), p)
    }
}

/// The first records, as many as are asked for.
pub open spec fn first_of(rs: Seq<RecordView>, limit: usize) -> Seq<RecordView> {
    if rs.len() > limit {
        rs.take(limit as int)
    } else {
        rs
    }
}

/// The number is in the half-open range.
pub open spec fn between(start: Option<u64>, end: Option<u64>) -> spec_fn(u64) -> bool {
    |id: u64| (start matches Some(s) ==> s <= id) && (end matches Some(e) ==> id < e)
}

/// The number comes after this one.
pub open spec fn past(after: Option<u64>) -> spec_fn(u64) -> bool {
    |id: u64| after matches Some(a) ==> a < id
}

/// The number comes before this one.
pub open spec fn ahead(before: Option<u64>) -> spec_fn(u64) -> bool {
    |id: u64| before matches Some(b) ==> id < b
}

/// The range is empty.
pub open spec fn empty_range(start: Option<u64>, end: Option<u64>) -> bool {
    start is Some && end is Some && start->0 >= end->0
}

/// Each entry leads to the record beside it.
pub open spec fn paired(img: Image, es: Seq<EntryView>, rs: Seq<RecordView>) -> bool {
    &&& es.len() == rs.len()
    &&& forall|i: int|
        0 <= i < es.len() ==> record_of(img, #[trigger] es[i]) == Ok::<RecordView, Error>(rs[i])
}

proof fn lemma_read_is_paired(img: Image, es: Seq<EntryView>)
    requires
        records_of(img, es) is Ok,
    ensures
        paired(img, es, records_of(img, es)->Ok_0),
    decreases es.len(),
{
    if es.len() > 0 {
        let init = es.drop_last();
        lemma_read_is_paired(img, init);
        let rs = records_of(img, es)->Ok_0;
        assert forall|i: int| 0 <= i < es.len() implies record_of(img, #[trigger] es[i]) == Ok::<
            RecordView,
            Error,
        >(rs[i]) by {
            if i < es.len() - 1 {
                assert(init[i] == es[i]);
            }
        }
    }
}

proof fn lemma_paired_is_read(img: Image, es: Seq<EntryView>, rs: Seq<RecordView>)
    requires
        paired(img, es, rs),
    ensures
        records_of(img, es) == Ok::<Seq<RecordView>, Error>(rs),
    decreases es.len(),
{
    if es.len() == 0 {
        assert(rs =~= Seq::<RecordView>::empty());
    } else {
        assert forall|i: int| 0 <= i < es.len() - 1 implies record_of(
            img,
            #[trigger] es.drop_last()[i],
        ) == Ok::<RecordView, Error>(rs.drop_last()[i]) by {
            assert(es.drop_last()[i] == es[i]);
        }
        lemma_paired_is_read(img, es.drop_last(), rs.drop_last());
        assert(es.last() == es[es.len() - 1]);
        assert(rs.drop_last().push(rs.last()) =~= rs);
    }
}

/// The entries that are wanted lead to the records that are wanted.
proof fn lemma_paired_picks(
    img: Image,
    es: Seq<EntryView>,
    rs: Seq<RecordView>,
    q: QueryView,
    p: spec_fn(u64) -> bool,
)
    requires
        paired(img, es, rs),
        forall|id: u64, v: Seq<u8>| #[trigger]
            wanted(q, (be_bytes(id as nat, 8), v)) <==> p(id),
    ensures
        paired(img, picks(q, es), records_where(rs, p)),
    decreases es.len(),
{
    if es.len() > 0 {
        let e = es[0];
        assert(record_of(img, es[0]) == Ok::<RecordView, Error>(rs[0]));
        law_log_id_key_round_trip(rs[0].0, e.0);
        assert(e == (be_bytes(rs[0].0 as nat, 8), e.1));
        assert(wanted(q, e) <==> p(rs[0].0));
        let et = es.drop_first();
        let rt = rs.drop_first();
        assert forall|i: int| 0 <= i < et.len() implies record_of(img, #[trigger] et[i]) == Ok::<
            RecordView,
            Error,
        >(rt[i]) by {
            assert(et[i] == es[i + 1]);
        }
        lemma_paired_picks(img, et, rt, q, p);
        if wanted(q, e) {
            let a = picks(q, es);
            let b = records_where(rs, p);
            assert forall|i: int| 0 <= i < a.len() implies record_of(img, #[trigger] a[i]) == Ok::<
                RecordView,
                Error,
            >(b[i]) by {
                if i > 0 {
                    assert(a[i] == picks(q, et)[i - 1]);
                }
            }
        }
    }
}

/// What is wanted of the reverse is the reverse of what is wanted.
proof fn lemma_where_append(a: Seq<RecordView>, b: Seq<RecordView>, p: spec_fn(u64) -> bool)
    ensures
        records_where(a + b, p) == records_where(a, p) + records_where(b, p),
    decreases a.len(),
{
    if a.len() == 0 {
        assert(a + b =~= b);
        assert(records_where(a, p) + records_where(b, p) =~= records_where(b, p));
    } else {
        assert((a + b).drop_first() =~= a.drop_first() + b);
        lemma_where_append(a.drop_first(), b, p);
        assert(records_where(a + b, p) =~= records_where(a, p) + records_where(b, p));
    }
}

proof fn lemma_where_reverse(rs: Seq<RecordView>, p: spec_fn(u64) -> bool)
    ensures
        records_where(rs.reverse(), p) == records_where(rs, p).reverse(),
    decreases rs.len(),
{
    if rs.len() == 0 {
        assert(rs.reverse() =~= rs);
        assert(records_where(rs, p).reverse() =~= rs);
    } else {
        let t = rs.drop_first();
        let one = seq![rs[0]];
        lemma_where_reverse(t, p);
        assert(rs.reverse() =~= t.reverse() + one);
        lemma_where_append(t.reverse(), one, p);
        reveal_with_fuel(records_where, 2);
        assert(one.drop_first() =~= Seq::<RecordView>::empty());
        if p(rs[0].0) {
            assert(records_where(one, p) =~= one);
            assert((one + records_where(t, p)).reverse() =~= records_where(t, p).reverse() + one);
        } else {
            assert(records_where(one, p) =~= Seq::<RecordView>::empty());
            assert(records_where(t, p).reverse() + Seq::<RecordView>::empty() =~= records_where(
                t,
                p,
            ).reverse());
        }
    }
}

/// What a sound log leads to, where all of it can be read: by rising number.
pub proof fn lemma_log_read(s: Space, ns: Namespace, es: Seq<EntryView>, all: Seq<RecordView>)
    requires
        s.wf(),
        holds(s, ns, es),
        within_reach(s, ns),
        logged(s, ns) == Ok::<Seq<RecordView>, Error>(all),
    ensures
        root_of(s.roots()->Ok_0, ns) is None ==> all.len() == 0,
        root_of(s.roots()->Ok_0, ns) is Some ==> paired(s.file@, es, all),
        root_of(s.roots()->Ok_0, ns) is Some ==> forall|i: int|
            0 <= i < es.len() ==> (#[trigger] es[i]).0.len() == 8,
        rising_ids(all),
{
    if root_of(s.roots()->Ok_0, ns) is Some {
        lemma_readable(s, ns, es);
        law_range(s, ns, es, everything());
        lemma_everything(es);
        lemma_read_is_paired(s.file@, es);
        lemma_ns_holds_sorted(s.file@, s.roots()->Ok_0, ns, es);
        assert forall|i: int| 0 <= i < es.len() implies (#[trigger] es[i]).0.len() == 8 by {
            assert(record_of(s.file@, es[i]) is Ok);
        }
        assert forall|i: int, j: int| 0 <= i < j < all.len() implies (#[trigger] all[i]).0 < (
        #[trigger] all[j]).0 by {
            assert(record_of(s.file@, es[i]) == Ok::<RecordView, Error>(all[i]));
            assert(record_of(s.file@, es[j]) == Ok::<RecordView, Error>(all[j]));
            law_log_id_key_round_trip(all[i].0, es[i].0);
            law_log_id_key_round_trip(all[j].0, es[j].0);
            law_log_id_keys_order_as_numbers(all[i].0, all[j].0);
            assert(lex_lt(es[i].0, es[j].0));
        }
    }
}

/// Numbers rise.
pub open spec fn rising_ids(rs: Seq<RecordView>) -> bool {
    forall|i: int, j: int| 0 <= i < j < rs.len() ==> (#[trigger] rs[i]).0 < (#[trigger] rs[j]).0
}

/// Numbers fall.
pub open spec fn falling_ids(rs: Seq<RecordView>) -> bool {
    forall|i: int, j: int| 0 <= i < j < rs.len() ==> (#[trigger] rs[i]).0 > (#[trigger] rs[j]).0
}

/// Keys are in a range as the numbers are.
proof fn lemma_wanted_numbers(q: QueryView, lo: Option<u64>, hi: Option<u64>)
    requires
        q.from == opt_key(lo),
        q.until == opt_key(hi),
    ensures
        forall|id: u64, v: Seq<u8>| #[trigger]
            wanted(q, (be_bytes(id as nat, 8), v)) <==> (lo matches Some(l) ==> if q.inclusive {
                l <= id
            } else {
                l < id
            }) && (hi matches Some(h) ==> id < h),
{
    assert forall|id: u64, v: Seq<u8>| #[trigger]
        wanted(q, (be_bytes(id as nat, 8), v)) <==> (lo matches Some(l) ==> if q.inclusive {
            l <= id
        } else {
            l < id
        }) && (hi matches Some(h) ==> id < h) by {
        if let Some(l) = lo {
            law_log_id_keys_order_as_numbers(id, l);
            law_log_id_keys_order_as_numbers(l, id);
        }
        if let Some(h) = hi {
            law_log_id_keys_order_as_numbers(id, h);
        }
    }
}

/// The records of a page are those that are wanted of the whole.
proof fn lemma_page_of_log(
    s: Space,
    ns: Namespace,
    es: Seq<EntryView>,
    all: Seq<RecordView>,
    q: QueryView,
    limit: usize,
    p: spec_fn(u64) -> bool,
    back: bool,
)
    requires
        s.wf(),
        holds(s, ns, es),
        within_reach(s, ns),
        logged(s, ns) == Ok::<Seq<RecordView>, Error>(all),
        limit > 0,
        q.limit == Some(limit as nat),
        sane(q),
        back ==> q.from is None,
        forall|id: u64, v: Seq<u8>| #[trigger]
            wanted(q, (be_bytes(id as nat, 8), v)) <==> p(id),
    ensures
        log_page(s.file@, s.state.superblock@, s.walk_now(), ns, q, back) == Ok::<
            Seq<RecordView>,
            Error,
        >(
            first_of(
                records_where(
                    if back {
                        all.reverse()
                    } else {
                        all
                    },
                    p,
                ),
                limit,
            ),
        ),
{
    lemma_log_read(s, ns, es, all);
    match root_of(s.roots()->Ok_0, ns) {
        None => {
            assert(all =~= Seq::<RecordView>::empty());
            assert(all.reverse() =~= all);
        },
        Some(r) => {
            lemma_readable(s, ns, es);
            let got = picks(q, es);
            let want = records_where(all, p);
            lemma_paired_picks(s.file@, es, all, q, p);
            if back {
                law_range_back(s, ns, es, q, r);
                lemma_where_reverse(all, p);
                let a = answer_back(q, es);
                let b = first_of(want.reverse(), limit);
                assert forall|i: int| 0 <= i < a.len() implies record_of(
                    s.file@,
                    #[trigger] a[i],
                ) == Ok::<RecordView, Error>(b[i]) by {
                    assert(a[i] == got[got.len() - 1 - i]);
                }
                lemma_paired_is_read(s.file@, a, b);
            } else {
                law_range(s, ns, es, q);
                let a = answer(q, es);
                let b = first_of(want, limit);
                assert forall|i: int| 0 <= i < a.len() implies record_of(
                    s.file@,
                    #[trigger] a[i],
                ) == Ok::<RecordView, Error>(b[i]) by {
                    assert(a[i] == got[i]);
                }
                lemma_paired_is_read(s.file@, a, b);
            }
        },
    }
}

/// `iter_log_range` of a sound log gives the records of `iter_log` whose
/// numbers are in the range, by rising number, up to the limit.
pub proof fn law_log_range(
    s: Space,
    ns: Namespace,
    es: Seq<EntryView>,
    all: Seq<RecordView>,
    start: Option<u64>,
    end: Option<u64>,
    limit: usize,
)
    requires
        s.wf(),
        holds(s, ns, es),
        within_reach(s, ns),
        logged(s, ns) == Ok::<Seq<RecordView>, Error>(all),
    ensures
        limit > 0 && !empty_range(start, end) ==> log_page(
            s.file@,
            s.state.superblock@,
            s.walk_now(),
            ns,
            records_between(start, end, limit),
            false,
        ) == Ok::<Seq<RecordView>, Error>(
            first_of(records_where(all, between(start, end)), limit),
        ),
        limit == 0 || empty_range(start, end) ==> first_of(
            records_where(all, between(start, end)),
            limit,
        ).len() == 0,
{
    if limit > 0 && !empty_range(start, end) {
        let q = records_between(start, end, limit);
        lemma_wanted_numbers(q, start, end);
        if start is Some && end is Some {
            law_log_id_keys_order_as_numbers(start->0, end->0);
        }
        lemma_page_of_log(s, ns, es, all, q, limit, between(start, end), false);
    } else if limit > 0 {
        lemma_none_where(all, between(start, end));
    }
}

/// Nothing is wanted where no number is.
proof fn lemma_none_where(rs: Seq<RecordView>, p: spec_fn(u64) -> bool)
    requires
        forall|id: u64| !#[trigger] p(id),
    ensures
        records_where(rs, p).len() == 0,
    decreases rs.len(),
{
    if rs.len() > 0 {
        lemma_none_where(rs.drop_first(), p);
    }
}

/// `iter_log_after` of a sound log gives the records of `iter_log` after a
/// number, by rising number, up to the limit. From the start on, it gives what
/// `iter_log_range` without bounds does.
pub proof fn law_log_after(
    s: Space,
    ns: Namespace,
    es: Seq<EntryView>,
    all: Seq<RecordView>,
    after: Option<u64>,
    limit: usize,
)
    requires
        s.wf(),
        holds(s, ns, es),
        within_reach(s, ns),
        logged(s, ns) == Ok::<Seq<RecordView>, Error>(all),
        limit > 0,
    ensures
        log_page(
            s.file@,
            s.state.superblock@,
            s.walk_now(),
            ns,
            records_after(after, limit),
            false,
        ) == Ok::<Seq<RecordView>, Error>(first_of(records_where(all, past(after)), limit)),
        records_where(all, past(None)) == all,
        records_where(all, between(None, None)) == all,
{
    let q = records_after(after, limit);
    lemma_wanted_numbers(q, after, None);
    lemma_page_of_log(s, ns, es, all, q, limit, past(after), false);
    lemma_all_where(all, past(None));
    lemma_all_where(all, between(None, None));
}

/// All is wanted where every number is.
proof fn lemma_all_where(rs: Seq<RecordView>, p: spec_fn(u64) -> bool)
    requires
        forall|i: int| 0 <= i < rs.len() ==> p((#[trigger] rs[i]).0),
    ensures
        records_where(rs, p) == rs,
    decreases rs.len(),
{
    if rs.len() > 0 {
        let t = rs.drop_first();
        assert forall|i: int| 0 <= i < t.len() implies p((#[trigger] t[i]).0) by {
            assert(t[i] == rs[i + 1]);
        }
        lemma_all_where(t, p);
        assert(p(rs[0].0));
        assert(seq![rs[0]] + t =~= rs);
    }
}

/// `iter_log_before` of a sound log gives the records of `iter_log` before a
/// number, by falling number, up to the limit.
pub proof fn law_log_before(
    s: Space,
    ns: Namespace,
    es: Seq<EntryView>,
    all: Seq<RecordView>,
    before: Option<u64>,
    limit: usize,
)
    requires
        s.wf(),
        holds(s, ns, es),
        within_reach(s, ns),
        logged(s, ns) == Ok::<Seq<RecordView>, Error>(all),
        limit > 0,
    ensures
        log_page(
            s.file@,
            s.state.superblock@,
            s.walk_now(),
            ns,
            records_before(before, limit),
            true,
        ) == Ok::<Seq<RecordView>, Error>(
            first_of(records_where(all.reverse(), ahead(before)), limit),
        ),
        rising_ids(all),
{
    let q = records_before(before, limit);
    lemma_wanted_numbers(q, None, before);
    lemma_page_of_log(s, ns, es, all, q, limit, ahead(before), true);
    lemma_log_read(s, ns, es, all);
}

/// Where the first records are not wanted and the others are, the others are
/// what is wanted.
proof fn lemma_where_suffix(rs: Seq<RecordView>, p: spec_fn(u64) -> bool, m: int)
    requires
        0 <= m <= rs.len(),
        forall|i: int| 0 <= i < m ==> !p((#[trigger] rs[i]).0),
        forall|i: int| m <= i < rs.len() ==> p((#[trigger] rs[i]).0),
    ensures
        records_where(rs, p) == rs.skip(m),
    decreases rs.len(),
{
    if m == 0 {
        lemma_all_where(rs, p);
        assert(rs.skip(0) =~= rs);
    } else {
        let t = rs.drop_first();
        assert forall|i: int| 0 <= i < m - 1 implies !p((#[trigger] t[i]).0) by {
            assert(t[i] == rs[i + 1]);
        }
        assert forall|i: int| m - 1 <= i < t.len() implies p((#[trigger] t[i]).0) by {
            assert(t[i] == rs[i + 1]);
        }
        assert(!p(rs[0].0));
        lemma_where_suffix(t, p, m - 1);
        assert(t.skip(m - 1) =~= rs.skip(m));
    }
}

/// How many of the first records are not wanted, where the numbers move one
/// way and only the last ones are.
proof fn lemma_where_starts(rs: Seq<RecordView>, p: spec_fn(u64) -> bool) -> (m: int)
    requires
        forall|i: int, j: int|
            0 <= i < j < rs.len() && p((#[trigger] rs[i]).0) ==> p((#[trigger] rs[j]).0),
    ensures
        0 <= m <= rs.len(),
        forall|i: int| 0 <= i < m ==> !p((#[trigger] rs[i]).0),
        forall|i: int| m <= i < rs.len() ==> p((#[trigger] rs[i]).0),
    decreases rs.len(),
{
    if rs.len() == 0 {
        0
    } else if p(rs[0].0) {
        assert forall|i: int| 0 <= i < rs.len() implies p((#[trigger] rs[i]).0) by {
            if i > 0 {
                assert(p(rs[0].0) ==> p(rs[i].0));
            }
        }
        0
    } else {
        let t = rs.drop_first();
        assert forall|i: int, j: int|
            0 <= i < j < t.len() && p((#[trigger] t[i]).0) implies p((#[trigger] t[j]).0) by {
            assert(t[i] == rs[i + 1]);
            assert(t[j] == rs[j + 1]);
        }
        let k = lemma_where_starts(t, p);
        assert forall|i: int| 0 <= i < k + 1 implies !p((#[trigger] rs[i]).0) by {
            if i > 0 {
                assert(t[i - 1] == rs[i]);
            }
        }
        assert forall|i: int| k + 1 <= i < rs.len() implies p((#[trigger] rs[i]).0) by {
            assert(t[i - 1] == rs[i]);
        }
        k + 1
    }
}

/// A page of records read backwards goes on where the page before it left off:
/// with the last number of each page as the next bound, the pages put end to
/// end are `iter_log` reversed, with no gap and nothing twice, and the first
/// empty page comes after the last record.
pub proof fn law_log_pages_before_join(all: Seq<RecordView>, before: Option<u64>, limit: usize)
    requires
        rising_ids(all),
        limit > 0,
    ensures
        ({
            let back = all.reverse();
            let rest = records_where(back, ahead(before));
            let page = first_of(rest, limit);
            &&& before is None ==> rest == back
            &&& page.len() == 0 <==> rest.len() == 0
            &&& page.len() > 0 ==> page + records_where(back, ahead(Some(page.last().0))) == rest
        }),
{
    let back = all.reverse();
    assert(falling_ids(back)) by {
        assert forall|i: int, j: int| 0 <= i < j < back.len() implies (#[trigger] back[i]).0 > (
        #[trigger] back[j]).0 by {
            let n = all.len();
            assert(all[n - 1 - j].0 < all[n - 1 - i].0);
        }
    }
    let p = ahead(before);
    let rest = records_where(back, p);
    let page = first_of(rest, limit);
    let m = lemma_where_starts(back, p);
    lemma_where_suffix(back, p, m);
    if before is None {
        lemma_all_where(back, p);
    }
    if page.len() > 0 {
        let k = m + page.len();
        assert(page.last() == back[k - 1]);
        let p2 = ahead(Some(page.last().0));
        lemma_where_suffix(back, p2, k);
        assert(page + back.skip(k) =~= rest);
    }
}

/// The same for pages by rising number: put end to end they are `iter_log`.
pub proof fn law_log_pages_after_join(all: Seq<RecordView>, after: Option<u64>, limit: usize)
    requires
        rising_ids(all),
        limit > 0,
    ensures
        ({
            let rest = records_where(all, past(after));
            let page = first_of(rest, limit);
            &&& after is None ==> rest == all
            &&& page.len() == 0 <==> rest.len() == 0
            &&& page.len() > 0 ==> page + records_where(all, past(Some(page.last().0))) == rest
        }),
{
    let p = past(after);
    let rest = records_where(all, p);
    let page = first_of(rest, limit);
    let m = lemma_where_starts(all, p);
    lemma_where_suffix(all, p, m);
    if after is None {
        lemma_all_where(all, p);
    }
    if page.len() > 0 {
        let k = m + page.len();
        assert(page.last() == all[k - 1]);
        let p2 = past(Some(page.last().0));
        lemma_where_suffix(all, p2, k);
        assert(page + all.skip(k) =~= rest);
    }
}

} // verus!
