//! Reading log records: pages of them, and one at a time.

use vstd::prelude::*;

use crate::bytes::{be_bytes, copy_of};
use crate::chunk::ChunkKind;
use crate::container::{chunk_at, Image};
use crate::error::Error;
use crate::space::index::{entries_view, EntryView, Namespace};
use crate::space::log::{
    batch_decode, batch_footprint, checked_footprint, decode_batch, find_in_batch, footprint,
    last_with_id,
    lemma_batch_decode_valid, log_id_key, log_id_of_key, parse_batch_slot_value, parse_log_id_key,
    records_view, slot_of_value, RecordView, MAX_CACHED_BATCHES, MAX_CACHED_BATCH_BYTES,
};
use crate::space::reads::{everything, opt_bytes, page_back, page_of, value_of, Query, QueryView};
use crate::space::superblock::SuperblockView;
use crate::space::walk::WalkView;
use crate::space::{quiet, root_of, roots_at, Space};
use crate::tx::commit::NamespaceKind;
use crate::wipe::{WipedLogPage, WipedPairs};

verus! {

/// A decoded batch's records, in the order they were appended.
pub type DecodedBatch = Vec<(u64, Vec<u8>)>;

/// A batch in the cache: its slot and its records.
pub type CachedView = (u64, Seq<RecordView>);

/// Decoded batches, bounded both in bytes and in number. What was used least
/// recently goes first.
pub struct BatchCache {
    /// Slot and records, from the least to the most recently used.
    pub entries: Vec<(u64, DecodedBatch)>,
    /// What keeping them costs.
    pub bytes: usize,
    pub max_bytes: usize,
    pub max_entries: usize,
}

/// What keeping these batches costs.
pub open spec fn cache_total(s: Seq<CachedView>) -> nat
    decreases s.len(),
{
    if s.len() == 0 {
        0
    } else {
        cache_total(s.drop_first()) + footprint(s[0].1)
    }
}

/// The position of the batch at `slot`, or the length where it is not there.
pub open spec fn cache_find(s: Seq<CachedView>, slot: u64) -> int
    decreases s.len(),
{
    if s.len() == 0 {
        0
    } else if s[0].0 == slot {
        0
    } else {
        1 + cache_find(s.drop_first(), slot)
    }
}

/// Is the batch at `slot` there?
pub open spec fn cache_has(s: Seq<CachedView>, slot: u64) -> bool {
    cache_find(s, slot) < s.len()
}

/// The cache without the batch at `slot`.
pub open spec fn cache_without(s: Seq<CachedView>, slot: u64) -> Seq<CachedView> {
    if cache_has(s, slot) {
        s.remove(cache_find(s, slot))
    } else {
        s
    }
}

/// The cache after the batch at `slot` has been used: it is the most recent.
pub open spec fn cache_touched(s: Seq<CachedView>, slot: u64) -> Seq<CachedView> {
    if cache_has(s, slot) {
        s.remove(cache_find(s, slot)).push(s[cache_find(s, slot)])
    } else {
        s
    }
}

/// The cache after making room for `cost` more bytes in one more entry: the
/// least recently used go until there is room.
pub open spec fn cache_trimmed(
    s: Seq<CachedView>,
    cost: nat,
    max_entries: nat,
    max_bytes: nat,
) -> Seq<CachedView>
    decreases s.len(),
{
    if s.len() == 0 {
        s
    } else if s.len() >= max_entries || cache_total(s) + cost > max_bytes {
        cache_trimmed(s.drop_first(), cost, max_entries, max_bytes)
    } else {
        s
    }
}

/// No slot is there twice.
pub open spec fn cache_distinct(s: Seq<CachedView>) -> bool {
    forall|i: int, j: int| 0 <= i < j < s.len() ==> (#[trigger] s[i]).0 != (#[trigger] s[j]).0
}

/// The batches of a cache, with their records as sequences.
pub open spec fn cached_view(v: Seq<(u64, DecodedBatch)>) -> Seq<CachedView> {
    Seq::new(v.len(), |i: int| (v[i].0, records_view(v[i].1@)))
}

impl View for BatchCache {
    type V = Seq<CachedView>;

    open spec fn view(&self) -> Seq<CachedView> {
        cached_view(self.entries@)
    }
}

/// Where a batch is found.
pub proof fn lemma_cache_find(s: Seq<CachedView>, slot: u64)
    ensures
        0 <= cache_find(s, slot) <= s.len(),
        cache_has(s, slot) ==> s[cache_find(s, slot)].0 == slot,
        forall|i: int| 0 <= i < cache_find(s, slot) ==> (#[trigger] s[i]).0 != slot,
    decreases s.len(),
{
    if s.len() > 0 && s[0].0 != slot {
        lemma_cache_find(s.drop_first(), slot);
        assert forall|i: int| 0 <= i < cache_find(s, slot) implies (#[trigger] s[i]).0 != slot by {
            if i > 0 {
                assert(s.drop_first()[i - 1] == s[i]);
            }
        }
    }
}

/// Where a batch is found is the first place that has its slot.
pub proof fn lemma_cache_find_is(s: Seq<CachedView>, slot: u64, k: int)
    requires
        0 <= k <= s.len(),
        forall|i: int| 0 <= i < k ==> (#[trigger] s[i]).0 != slot,
        k < s.len() ==> s[k].0 == slot,
    ensures
        cache_find(s, slot) == k,
{
    lemma_cache_find(s, slot);
    let f = cache_find(s, slot);
    if f < k {
        assert(s[f].0 != slot);
    } else if k < f {
        assert(s[k].0 != slot);
    }
}

/// Removing a batch removes its cost.
proof fn lemma_cache_total_remove(s: Seq<CachedView>, i: int)
    requires
        0 <= i < s.len(),
    ensures
        cache_total(s.remove(i)) + footprint(s[i].1) == cache_total(s),
    decreases s.len(),
{
    if i == 0 {
        assert(s.remove(0) =~= s.drop_first());
    } else {
        lemma_cache_total_remove(s.drop_first(), i - 1);
        assert(s.remove(i).drop_first() =~= s.drop_first().remove(i - 1));
        assert(s.remove(i)[0] == s[0]);
    }
}

/// Adding a batch adds its cost.
pub proof fn lemma_cache_total_push(s: Seq<CachedView>, x: CachedView)
    ensures
        cache_total(s.push(x)) == cache_total(s) + footprint(x.1),
{
    lemma_cache_total_remove(s.push(x), s.len() as int);
    assert(s.push(x).remove(s.len() as int) =~= s);
}

/// Making room drops the batches that were used least recently: what stays is the
/// end of what was there, by rising recency, and leaves room for one more entry of
/// that size.
pub proof fn law_eviction_drops_the_oldest(s: Seq<CachedView>, cost: nat, max_entries: nat, max_bytes: nat)
    requires
        max_entries > 0,
        cost <= max_bytes,
        cache_distinct(s),
    ensures
        ({
            let t = cache_trimmed(s, cost, max_entries, max_bytes);
            &&& t.len() < max_entries
            &&& cache_total(t) + cost <= max_bytes
            &&& t.len() <= s.len()
            &&& t == s.skip(s.len() - t.len())
            &&& cache_distinct(t)
        }),
    decreases s.len(),
{
    if s.len() == 0 {
        assert(s =~= s.skip(0));
    } else if s.len() >= max_entries || cache_total(s) + cost > max_bytes {
        let r = s.drop_first();
        assert forall|i: int, j: int| 0 <= i < j < r.len() implies (#[trigger] r[i]).0 != (
        #[trigger] r[j]).0 by {
            assert(r[i] == s[i + 1] && r[j] == s[j + 1]);
        }
        law_eviction_drops_the_oldest(r, cost, max_entries, max_bytes);
        let t = cache_trimmed(r, cost, max_entries, max_bytes);
        assert(r.skip(r.len() - t.len()) =~= s.skip(s.len() - t.len()));
    } else {
        assert(s =~= s.skip(0));
    }
}

impl BatchCache {
    /// Within its bounds, with the cost counted right, and no slot twice.
    pub open spec fn wf(self) -> bool {
        &&& self.bytes == cache_total(self@)
        &&& self.bytes <= self.max_bytes
        &&& self@.len() <= self.max_entries
        &&& cache_distinct(self@)
    }

    /// An empty cache with these bounds.
    pub fn new(max_entries: usize, max_bytes: usize) -> (r: BatchCache)
        ensures
            r.wf(),
            r@ == Seq::<CachedView>::empty(),
            r.max_entries == max_entries,
            r.max_bytes == max_bytes,
    {
        let r = BatchCache { entries: Vec::new(), bytes: 0, max_bytes, max_entries };
        assert(r@ =~= Seq::<CachedView>::empty());
        r
    }

    /// The position of the batch at `slot`.
    fn find(&self, slot: u64) -> (r: usize)
        ensures
            r == cache_find(self@, slot),
    {
        let mut i: usize = 0;
        while i < self.entries.len()
            invariant
                i <= self.entries@.len(),
                forall|k: int| 0 <= k < i ==> (#[trigger] self@[k]).0 != slot,
            decreases self.entries@.len() - i,
        {
            if self.entries[i].0 == slot {
                proof {
                    lemma_cache_find_is(self@, slot, i as int);
                }
                return i;
            }
            i = i + 1;
        }
        proof {
            lemma_cache_find_is(self@, slot, i as int);
        }
        i
    }

    /// Takes the batch at `slot` out, if it is there.
    fn take_out(&mut self, slot: u64) -> (r: Option<DecodedBatch>)
        requires
            old(self).wf(),
        ensures
            final(self).wf(),
            final(self)@ == cache_without(old(self)@, slot),
            final(self).max_entries == old(self).max_entries,
            final(self).max_bytes == old(self).max_bytes,
            !cache_has(final(self)@, slot),
            match r {
                Some(records) => cache_has(old(self)@, slot) && records_view(records@) == old(
                    self,
                )@[cache_find(old(self)@, slot)].1 && final(self).bytes + footprint(
                    records_view(records@),
                ) == old(self).bytes,
                None => !cache_has(old(self)@, slot),
            },
    {
        let i: usize = self.find(slot);
        let ghost s = self@;
        proof {
            lemma_cache_find(s, slot);
        }
        if i >= self.entries.len() {
            return None;
        }
        let (_, records) = self.entries.remove(i);
        assert(self@ =~= s.remove(i as int));
        proof {
            lemma_cache_total_remove(s, i as int);
        }
        let cost: usize = batch_footprint(records.as_slice());
        proof {
            assert forall|a: int, b: int| 0 <= a < b < self@.len() implies (#[trigger] self@[a]).0
                != (#[trigger] self@[b]).0 by {
                let x = if a < i {
                    a
                } else {
                    a + 1
                };
                let y = if b < i {
                    b
                } else {
                    b + 1
                };
                assert(self@[a] == s[x] && self@[b] == s[y]);
            }
            assert forall|k: int| 0 <= k < self@.len() implies (#[trigger] self@[k]).0 != slot by {
                let x = if k < i {
                    k
                } else {
                    k + 1
                };
                assert(self@[k] == s[x]);
                assert(s[i as int].0 == slot);
            }
            lemma_cache_find_is(self@, slot, self@.len() as int);
        }
        self.bytes = self.bytes - cost;
        Some(records)
    }

    /// Puts in a batch that fits as the most recently used.
    fn put_last(&mut self, slot: u64, records: DecodedBatch)
        requires
            old(self).wf(),
            !cache_has(old(self)@, slot),
            old(self)@.len() < old(self).max_entries,
            cache_total(old(self)@) + footprint(records_view(records@)) <= old(self).max_bytes,
        ensures
            final(self).wf(),
            final(self)@ == old(self)@.push((slot, records_view(records@))),
            final(self).max_entries == old(self).max_entries,
            final(self).max_bytes == old(self).max_bytes,
    {
        let cost: usize = batch_footprint(records.as_slice());
        let ghost s = self@;
        let ghost x = (slot, records_view(records@));
        self.entries.push((slot, records));
        self.bytes = self.bytes + cost;
        proof {
            assert(self@ =~= s.push(x));
            lemma_cache_total_push(s, x);
            lemma_cache_find(s, slot);
        }
    }

    /// The batch at `slot`, which becomes the most recently used.
    pub fn get(&mut self, slot: u64) -> (r: Option<&DecodedBatch>)
        requires
            old(self).wf(),
        ensures
            final(self).wf(),
            final(self)@ == cache_touched(old(self)@, slot),
            final(self).max_entries == old(self).max_entries,
            final(self).max_bytes == old(self).max_bytes,
            match r {
                Some(records) => cache_has(old(self)@, slot) && records_view(records@) == old(
                    self,
                )@[cache_find(old(self)@, slot)].1,
                None => !cache_has(old(self)@, slot),
            },
    {
        proof {
            lemma_cache_find(self@, slot);
        }
        match self.take_out(slot) {
            None => None,
            Some(records) => {
                proof {
                    let s = old(self)@;
                    let at = cache_find(s, slot);
                    lemma_cache_total_remove(s, at);
                    assert(s[at] == (slot, records_view(records@)));
                }
                self.put_last(slot, records);
                assert(self@.last() == (slot, records_view(self.entries@.last().1@)));
                let n: usize = self.entries.len();
                Some(&self.entries[n - 1].1)
            },
        }
    }

    /// Puts in the batch at `slot`, in place of what was there for it. The
    /// least recently used go until there is room. A batch that is too large
    /// for the whole cache is left out, and nothing goes for it.
    pub fn insert(&mut self, slot: u64, records: DecodedBatch)
        requires
            old(self).wf(),
        ensures
            final(self).wf(),
            final(self).max_entries == old(self).max_entries,
            final(self).max_bytes == old(self).max_bytes,
            final(self)@ == if footprint(records_view(records@)) > old(self).max_bytes || old(
                self,
            ).max_entries == 0 {
                old(self)@
            } else {
                cache_trimmed(
                    cache_without(old(self)@, slot),
                    footprint(records_view(records@)),
                    old(self).max_entries as nat,
                    old(self).max_bytes as nat,
                ).push((slot, records_view(records@)))
            },
    {
        let cost: usize = match checked_footprint(records.as_slice()) {
            Some(n) => n,
            None => {
                return;
            },
        };
        if cost > self.max_bytes || self.max_entries == 0 {
            return;
        }
        let ghost fits = footprint(records_view(records@));
        self.take_out(slot);
        let ghost without = self@;
        while self.entries.len() >= self.max_entries || self.max_bytes - self.bytes < cost
            invariant
                self.wf(),
                cost == fits,
                cost <= self.max_bytes,
                self.max_entries > 0,
                self.max_entries == old(self).max_entries,
                self.max_bytes == old(self).max_bytes,
                cache_distinct(without),
                !cache_has(without, slot),
                self@.len() <= without.len(),
                self@ == without.skip(without.len() - self@.len()),
                cache_trimmed(without, fits, self.max_entries as nat, self.max_bytes as nat)
                    == cache_trimmed(self@, fits, self.max_entries as nat, self.max_bytes as nat),
            decreases self@.len(),
        {
            if !self.evict_one() {
                assert(false);
                return;
            }
            assert(self@ =~= without.skip(without.len() - self@.len()));
        }
        proof {
            lemma_cache_find(without, slot);
            assert forall|i: int| 0 <= i < self@.len() implies (#[trigger] self@[i]).0 != slot by {
                assert(self@[i] == without[without.len() - self@.len() + i]);
            }
            lemma_cache_find_is(self@, slot, self@.len() as int);
        }
        self.put_last(slot, records);
    }

    /// Drops the least recently used batch. False if there is none.
    fn evict_one(&mut self) -> (r: bool)
        requires
            old(self).wf(),
        ensures
            final(self).wf(),
            final(self).max_entries == old(self).max_entries,
            final(self).max_bytes == old(self).max_bytes,
            r == (old(self)@.len() > 0),
            r ==> final(self)@ == old(self)@.drop_first(),
            !r ==> *final(self) == *old(self),
    {
        if self.entries.len() == 0 {
            return false;
        }
        let oldest: u64 = self.entries[0].0;
        let ghost s = self@;
        proof {
            lemma_cache_find_is(s, oldest, 0);
            assert(s.remove(0) =~= s.drop_first());
        }
        self.take_out(oldest);
        true
    }
}

// ---------------------------------------------------------------------------
// Reading records
// ---------------------------------------------------------------------------

/// The records of the batch at `slot`, or why they cannot be read.
pub open spec fn batch_at(img: Image, slot: u64) -> Result<Seq<RecordView>, Error> {
    match chunk_at(img, slot) {
        Err(e) => Err(e),
        Ok(p) => if p.kind != ChunkKind::DataBatch {
            Err(
                Error::WrongNamespaceKind(
                    "log pointer not a DataBatch chunk (namespace is not a log)",
                ),
            )
        } else {
            batch_decode(p.payload)
        },
    }
}

/// The payload of the record numbered `id` in the batch that an index value
/// points at, or why it cannot be read.
pub open spec fn record_at(img: Image, value: Seq<u8>, id: u64) -> Result<Seq<u8>, Error> {
    match slot_of_value(value) {
        Err(e) => Err(e),
        Ok(slot) => match batch_at(img, slot) {
            Err(e) => Err(e),
            Ok(rs) => match last_with_id(rs, id) {
                None => Err(Error::Malformed("log_id not found in pointed batch")),
                Some(p) => Ok(p),
            },
        },
    }
}

/// The record that an index entry leads to, or why it cannot be read.
pub open spec fn record_of(img: Image, e: EntryView) -> Result<RecordView, Error> {
    match log_id_of_key(e.0) {
        Err(why) => Err(why),
        Ok(id) => match record_at(img, e.1, id) {
            Err(why) => Err(why),
            Ok(p) => Ok((id, p)),
        },
    }
}

/// The records that index entries lead to, in order, or why the first that
/// cannot be read cannot be.
pub open spec fn records_of(img: Image, es: Seq<EntryView>) -> Result<Seq<RecordView>, Error>
    decreases es.len(),
{
    if es.len() == 0 {
        Ok(Seq::<RecordView>::empty())
    } else {
        match records_of(img, es.drop_last()) {
            Err(why) => Err(why),
            Ok(rs) => match record_of(img, es.last()) {
                Err(why) => Err(why),
                Ok(r) => Ok(rs.push(r)),
            },
        }
    }
}

/// A failure among the first entries is the failure of all.
proof fn lemma_records_of_fails(img: Image, es: Seq<EntryView>, n: int)
    requires
        0 <= n <= es.len(),
        records_of(img, es.take(n)) is Err,
    ensures
        records_of(img, es) == records_of(img, es.take(n)),
    decreases es.len(),
{
    if n < es.len() {
        assert(es.drop_last().take(n) =~= es.take(n));
        lemma_records_of_fails(img, es.drop_last(), n);
    } else {
        assert(es.take(n) =~= es);
    }
}

/// The root of a log, if the namespace has one, or why there is none to read.
pub open spec fn log_root(img: Image, sb: SuperblockView, ns: Namespace) -> Result<
    Option<u64>,
    Error,
> {
    match roots_at(img, sb) {
        Err(e) => Err(e),
        Ok(rs) => match root_of(rs, ns) {
            None => Ok(None),
            Some(r) => if r.kind != NamespaceKind::Log {
                Err(Error::WrongNamespaceKind("namespace is a KV namespace, not a log"))
            } else {
                Ok(Some(r.index_slot))
            },
        },
    }
}

/// A page of a log: the records that the wanted index entries lead to.
pub open spec fn log_page(
    img: Image,
    sb: SuperblockView,
    w: WalkView,
    ns: Namespace,
    q: QueryView,
    back: bool,
) -> Result<Seq<RecordView>, Error> {
    match log_root(img, sb, ns) {
        Err(e) => Err(e),
        Ok(None) => Ok(Seq::<RecordView>::empty()),
        Ok(Some(slot)) => match (if back {
            page_back(img, w, ns, q, slot)
        } else {
            page_of(img, w, ns, q, slot)
        }) {
            Err(e) => Err(e),
            Ok(es) => records_of(img, es),
        },
    }
}

/// The key of a record number, if there is one.
pub open spec fn opt_key(id: Option<u64>) -> Option<Seq<u8>> {
    match id {
        Some(n) => Some(be_bytes(n as nat, 8)),
        None => None,
    }
}

/// At most `limit` records after one.
pub open spec fn records_after(after: Option<u64>, limit: usize) -> QueryView {
    QueryView {
        log: true,
        from: opt_key(after),
        inclusive: false,
        until: None,
        limit: Some(limit as nat),
    }
}

/// At most `limit` records before one.
pub open spec fn records_before(before: Option<u64>, limit: usize) -> QueryView {
    QueryView {
        log: true,
        from: None,
        inclusive: false,
        until: opt_key(before),
        limit: Some(limit as nat),
    }
}

/// At most `limit` records from one on, up to another.
pub open spec fn records_between(
    start: Option<u64>,
    end: Option<u64>,
    limit: usize,
) -> QueryView {
    QueryView {
        log: true,
        from: opt_key(start),
        inclusive: true,
        until: opt_key(end),
        limit: Some(limit as nat),
    }
}

/// The record numbered `id` of a log, or why it cannot be read.
pub open spec fn log_value(
    img: Image,
    sb: SuperblockView,
    w: WalkView,
    ns: Namespace,
    id: u64,
) -> Result<Option<Seq<u8>>, Error> {
    match log_root(img, sb, ns) {
        Err(e) => Err(e),
        Ok(None) => Ok(None),
        Ok(Some(_)) => match value_of(img, sb, w, ns, be_bytes(id as nat, 8)) {
            Err(e) => Err(e),
            Ok(None) => Ok(None),
            Ok(Some(v)) => match record_at(img, v, id) {
                Err(e) => Err(e),
                Ok(p) => Ok(Some(p)),
            },
        },
    }
}

/// Every batch that is kept is the one on file.
pub open spec fn cache_right(img: Image, s: Seq<CachedView>) -> bool {
    forall|i: int|
        0 <= i < s.len() ==> batch_at(img, (#[trigger] s[i]).0) == Ok::<Seq<RecordView>, Error>(
            s[i].1,
        )
}

/// Using a batch keeps the cache right.
proof fn lemma_cache_right_touched(img: Image, s: Seq<CachedView>, slot: u64)
    requires
        cache_right(img, s),
    ensures
        cache_right(img, cache_touched(s, slot)),
        cache_has(s, slot) ==> batch_at(img, slot) == Ok::<Seq<RecordView>, Error>(
            s[cache_find(s, slot)].1,
        ),
{
    lemma_cache_find(s, slot);
    let t = cache_touched(s, slot);
    if cache_has(s, slot) {
        let k = cache_find(s, slot);
        assert forall|i: int| 0 <= i < t.len() implies batch_at(img, (#[trigger] t[i]).0) == Ok::<
            Seq<RecordView>,
            Error,
        >(t[i].1) by {
            if i < k {
                assert(t[i] == s[i]);
            } else if i < s.len() - 1 {
                assert(t[i] == s[i + 1]);
            } else {
                assert(t[i] == s[k]);
            }
        }
        assert(s[k].0 == slot);
    }
}

/// Keeping one more batch keeps the cache right.
proof fn lemma_cache_right_insert(
    img: Image,
    s: Seq<CachedView>,
    slot: u64,
    rs: Seq<RecordView>,
    max_entries: nat,
    max_bytes: nat,
)
    requires
        cache_right(img, s),
        cache_distinct(s),
        batch_at(img, slot) == Ok::<Seq<RecordView>, Error>(rs),
        max_entries > 0,
        footprint(rs) <= max_bytes,
    ensures
        cache_right(
            img,
            cache_trimmed(cache_without(s, slot), footprint(rs), max_entries, max_bytes).push(
                (slot, rs),
            ),
        ),
{
    lemma_cache_find(s, slot);
    let t = cache_without(s, slot);
    let k = cache_find(s, slot);
    assert forall|i: int| 0 <= i < t.len() implies batch_at(img, (#[trigger] t[i]).0) == Ok::<
        Seq<RecordView>,
        Error,
    >(t[i].1) by {
        if !cache_has(s, slot) || i < k {
            assert(t[i] == s[i]);
        } else {
            assert(t[i] == s[i + 1]);
        }
    }
    assert(cache_distinct(t)) by {
        assert forall|i: int, j: int| 0 <= i < j < t.len() implies (#[trigger] t[i]).0 != (
        #[trigger] t[j]).0 by {
            let a = if !cache_has(s, slot) || i < k {
                i
            } else {
                i + 1
            };
            let b = if !cache_has(s, slot) || j < k {
                j
            } else {
                j + 1
            };
            assert(t[i] == s[a] && t[j] == s[b]);
        }
    }
    law_eviction_drops_the_oldest(t, footprint(rs), max_entries, max_bytes);
    let u = cache_trimmed(t, footprint(rs), max_entries, max_bytes);
    let v = u.push((slot, rs));
    assert forall|i: int| 0 <= i < v.len() implies batch_at(img, (#[trigger] v[i]).0) == Ok::<
        Seq<RecordView>,
        Error,
    >(v[i].1) by {
        if i < u.len() {
            assert(v[i] == t[t.len() - u.len() + i]);
        }
    }
}

impl Space {
    /// The records of the batch at `slot`.
    fn read_batch(&self, slot: u64) -> (r: Result<DecodedBatch, Error>)
        ensures
            match r {
                Ok(v) => batch_at(self.file@, slot) == Ok::<Seq<RecordView>, Error>(
                    records_view(v@),
                ),
                Err(e) => batch_at(self.file@, slot) == Err::<Seq<RecordView>, Error>(e),
            },
    {
        let pt = match self.read_owned_chunk(slot) {
            Ok(p) => p,
            Err(e) => {
                return Err(e);
            },
        };
        if pt.kind != ChunkKind::DataBatch {
            return Err(
                Error::WrongNamespaceKind(
                    "log pointer not a DataBatch chunk (namespace is not a log)",
                ),
            );
        }
        decode_batch(pt.payload.as_slice())
    }

    /// The payload of a record, by way of the batches kept.
    fn read_record(&self, slot: u64, log_id: u64, cache: &mut BatchCache) -> (r: Result<
        Vec<u8>,
        Error,
    >)
        requires
            old(cache).wf(),
            cache_right(self.file@, old(cache)@),
        ensures
            final(cache).wf(),
            cache_right(self.file@, final(cache)@),
            match r {
                Ok(p) => batch_at(self.file@, slot) is Ok && last_with_id(
                    batch_at(self.file@, slot)->Ok_0,
                    log_id,
                ) == Some(p@),
                Err(e) => match batch_at(self.file@, slot) {
                    Err(why) => e == why,
                    Ok(rs) => last_with_id(rs, log_id) is None && e == Error::Malformed(
                        "log_id not found in pointed batch",
                    ),
                },
            },
    {
        proof {
            lemma_cache_right_touched(self.file@, cache@, slot);
        }
        if let Some(batch) = cache.get(slot) {
            return match find_in_batch(batch.as_slice(), log_id) {
                Some(p) => Ok(copy_of(p.as_slice())),
                None => Err(Error::Malformed("log_id not found in pointed batch")),
            };
        }
        let records = match self.read_batch(slot) {
            Ok(v) => v,
            Err(e) => {
                return Err(e);
            },
        };
        let found = match find_in_batch(records.as_slice(), log_id) {
            Some(p) => Ok(copy_of(p.as_slice())),
            None => Err(Error::Malformed("log_id not found in pointed batch")),
        };
        proof {
            let rs = records_view(records@);
            lemma_batch_decode_valid(self.file@[slot as int]->0.payload);
            if footprint(rs) <= cache.max_bytes && cache.max_entries > 0 {
                lemma_cache_right_insert(
                    self.file@,
                    cache@,
                    slot,
                    rs,
                    cache.max_entries as nat,
                    cache.max_bytes as nat,
                );
            }
        }
        cache.insert(slot, records);
        found
    }

    /// The records that index entries lead to. Neighbours share batches, so a
    /// bounded number of decoded batches is kept while the page is read; what
    /// is read does not depend on which are kept.
    #[verifier::spinoff_prover]
    fn decode_log_entries(&self, page: &WipedPairs) -> (r: Result<Vec<(u64, Vec<u8>)>, Error>)
        ensures
            match r {
                Ok(v) => records_of(self.file@, entries_view(page.0@)) == Ok::<
                    Seq<RecordView>,
                    Error,
                >(records_view(v@)),
                Err(e) => records_of(self.file@, entries_view(page.0@)) == Err::<
                    Seq<RecordView>,
                    Error,
                >(e),
            },
    {
        let ghost img = self.file@;
        let ghost es = entries_view(page.0@);
        let mut cache = BatchCache::new(MAX_CACHED_BATCHES, MAX_CACHED_BATCH_BYTES);
        let mut out = WipedLogPage(Vec::with_capacity(page.0.len()));
        let mut i: usize = 0;
        proof {
            assert(es.take(0) =~= Seq::<EntryView>::empty());
            assert(records_view(out.0@) =~= Seq::<RecordView>::empty());
        }
        while i < page.0.len()
            invariant
                i <= page.0@.len(),
                img == self.file@,
                es == entries_view(page.0@),
                cache.wf(),
                cache_right(img, cache@),
                records_of(img, es.take(i as int)) == Ok::<Seq<RecordView>, Error>(
                    records_view(out.0@),
                ),
            decreases page.0@.len() - i,
        {
            let ghost next = es.take(i + 1);
            let ghost had = records_view(out.0@);
            proof {
                assert(next.drop_last() =~= es.take(i as int));
                assert(next.last() == es[i as int]);
                assert(es[i as int] == (page.0@[i as int].0@, page.0@[i as int].1@));
            }
            let log_id: u64 = match parse_log_id_key(page.0[i].0.as_slice()) {
                Ok(n) => n,
                Err(e) => {
                    proof {
                        lemma_records_of_fails(img, es, i + 1);
                    }
                    out.wipe();
                    return Err(e);
                },
            };
            let slot: u64 = match parse_batch_slot_value(page.0[i].1.as_slice()) {
                Ok(n) => n,
                Err(e) => {
                    proof {
                        lemma_records_of_fails(img, es, i + 1);
                    }
                    out.wipe();
                    return Err(e);
                },
            };
            match self.read_record(slot, log_id, &mut cache) {
                Ok(payload) => {
                    let ghost rec = (log_id, payload@);
                    out.0.push((log_id, payload));
                    assert(records_view(out.0@) =~= had.push(rec));
                },
                Err(e) => {
                    proof {
                        lemma_records_of_fails(img, es, i + 1);
                    }
                    out.wipe();
                    return Err(e);
                },
            }
            i = i + 1;
        }
        assert(es.take(i as int) =~= es);
        Ok(out.0)
    }

    /// The root of a log. Refused for a namespace that is none.
    pub fn find_log_root_slot(&mut self, namespace: Namespace) -> (r: Result<Option<u64>, Error>)
        requires
            old(self).wf(),
        ensures
            final(self).wf(),
            quiet(*old(self), *final(self)),
            r == log_root(old(self).file@, old(self).state.superblock@, namespace),
    {
        match self.find_root(namespace) {
            Err(e) => Err(e),
            Ok(None) => Ok(None),
            Ok(Some(root)) => {
                if root.kind != NamespaceKind::Log {
                    Err(Error::WrongNamespaceKind("namespace is a KV namespace, not a log"))
                } else {
                    Ok(Some(root.index_slot))
                }
            },
        }
    }

    /// One page of a log.
    fn read_log_page(&mut self, namespace: Namespace, q: &Query, back: bool) -> (r: Result<
        Vec<(u64, Vec<u8>)>,
        Error,
    >)
        requires
            old(self).wf(),
        ensures
            final(self).wf(),
            quiet(*old(self), *final(self)),
            match r {
                Ok(v) => log_page(
                    old(self).file@,
                    old(self).state.superblock@,
                    old(self).walk_now(),
                    namespace,
                    q@,
                    back,
                ) == Ok::<Seq<RecordView>, Error>(records_view(v@)),
                Err(e) => log_page(
                    old(self).file@,
                    old(self).state.superblock@,
                    old(self).walk_now(),
                    namespace,
                    q@,
                    back,
                ) == Err::<Seq<RecordView>, Error>(e),
            },
    {
        let slot: u64 = match self.find_log_root_slot(namespace) {
            Err(e) => {
                return Err(e);
            },
            Ok(None) => {
                let none: Vec<(u64, Vec<u8>)> = Vec::new();
                assert(records_view(none@) =~= Seq::<RecordView>::empty());
                return Ok(none);
            },
            Ok(Some(s)) => s,
        };
        let collected = if back {
            self.collect_page_back(slot, namespace, q)
        } else {
            self.collect_page(slot, namespace, q)
        };
        match collected {
            Err(e) => Err(e),
            Ok(page) => {
                let mut guard = page;
                let out = self.decode_log_entries(&guard);
                guard.wipe();
                out
            },
        }
    }

    /// All records of a log, by rising number.
    pub fn iter_log(&mut self, namespace: Namespace) -> (r: Result<Vec<(u64, Vec<u8>)>, Error>)
        requires
            old(self).wf(),
        ensures
            final(self).wf(),
            quiet(*old(self), *final(self)),
            match r {
                Ok(v) => log_page(
                    old(self).file@,
                    old(self).state.superblock@,
                    old(self).walk_now(),
                    namespace,
                    everything(),
                    false,
                ) == Ok::<Seq<RecordView>, Error>(records_view(v@)),
                Err(e) => log_page(
                    old(self).file@,
                    old(self).state.superblock@,
                    old(self).walk_now(),
                    namespace,
                    everything(),
                    false,
                ) == Err::<Seq<RecordView>, Error>(e),
            },
    {
        self.read_log_page(namespace, &Query::all(), false)
    }

    /// At most `limit` records after one, by rising number.
    pub fn iter_log_after(&mut self, namespace: Namespace, after: Option<u64>, limit: usize) -> (r:
        Result<Vec<(u64, Vec<u8>)>, Error>)
        requires
            old(self).wf(),
        ensures
            final(self).wf(),
            quiet(*old(self), *final(self)),
            limit == 0 ==> r is Ok && r->Ok_0@.len() == 0,
            limit > 0 ==> match r {
                Ok(v) => log_page(
                    old(self).file@,
                    old(self).state.superblock@,
                    old(self).walk_now(),
                    namespace,
                    records_after(after, limit),
                    false,
                ) == Ok::<Seq<RecordView>, Error>(records_view(v@)),
                Err(e) => log_page(
                    old(self).file@,
                    old(self).state.superblock@,
                    old(self).walk_now(),
                    namespace,
                    records_after(after, limit),
                    false,
                ) == Err::<Seq<RecordView>, Error>(e),
            },
    {
        if limit == 0 {
            return Ok(Vec::new());
        }
        let q = Query {
            log: true,
            from: key_of_id(after),
            inclusive: false,
            until: None,
            limit: Some(limit),
        };
        self.read_log_page(namespace, &q, false)
    }

    /// At most `limit` records before one, by falling number.
    pub fn iter_log_before(&mut self, namespace: Namespace, before: Option<u64>, limit: usize) -> (r:
        Result<Vec<(u64, Vec<u8>)>, Error>)
        requires
            old(self).wf(),
        ensures
            final(self).wf(),
            quiet(*old(self), *final(self)),
            limit == 0 ==> r is Ok && r->Ok_0@.len() == 0,
            limit > 0 ==> match r {
                Ok(v) => log_page(
                    old(self).file@,
                    old(self).state.superblock@,
                    old(self).walk_now(),
                    namespace,
                    records_before(before, limit),
                    true,
                ) == Ok::<Seq<RecordView>, Error>(records_view(v@)),
                Err(e) => log_page(
                    old(self).file@,
                    old(self).state.superblock@,
                    old(self).walk_now(),
                    namespace,
                    records_before(before, limit),
                    true,
                ) == Err::<Seq<RecordView>, Error>(e),
            },
    {
        if limit == 0 {
            return Ok(Vec::new());
        }
        let q = Query {
            log: true,
            from: None,
            inclusive: false,
            until: key_of_id(before),
            limit: Some(limit),
        };
        self.read_log_page(namespace, &q, true)
    }

    /// At most `limit` records from one on, up to another, by rising number.
    pub fn iter_log_range(
        &mut self,
        namespace: Namespace,
        start: Option<u64>,
        end: Option<u64>,
        limit: usize,
    ) -> (r: Result<Vec<(u64, Vec<u8>)>, Error>)
        requires
            old(self).wf(),
        ensures
            final(self).wf(),
            quiet(*old(self), *final(self)),
            limit == 0 || (start is Some && end is Some && start->0 >= end->0) ==> r is Ok
                && r->Ok_0@.len() == 0,
            limit > 0 && !(start is Some && end is Some && start->0 >= end->0) ==> match r {
                Ok(v) => log_page(
                    old(self).file@,
                    old(self).state.superblock@,
                    old(self).walk_now(),
                    namespace,
                    records_between(start, end, limit),
                    false,
                ) == Ok::<Seq<RecordView>, Error>(records_view(v@)),
                Err(e) => log_page(
                    old(self).file@,
                    old(self).state.superblock@,
                    old(self).walk_now(),
                    namespace,
                    records_between(start, end, limit),
                    false,
                ) == Err::<Seq<RecordView>, Error>(e),
            },
    {
        if limit == 0 {
            return Ok(Vec::new());
        }
        if let (Some(s), Some(e)) = (start, end) {
            if s >= e {
                return Ok(Vec::new());
            }
        }
        let q = Query {
            log: true,
            from: key_of_id(start),
            inclusive: true,
            until: key_of_id(end),
            limit: Some(limit),
        };
        self.read_log_page(namespace, &q, false)
    }

    /// The record with this number.
    pub fn read_log(&mut self, namespace: Namespace, log_id: u64) -> (r: Result<
        Option<Vec<u8>>,
        Error,
    >)
        requires
            old(self).wf(),
        ensures
            final(self).wf(),
            quiet(*old(self), *final(self)),
            match r {
                Ok(v) => log_value(
                    old(self).file@,
                    old(self).state.superblock@,
                    old(self).walk_now(),
                    namespace,
                    log_id,
                ) == Ok::<Option<Seq<u8>>, Error>(opt_bytes(v)),
                Err(e) => log_value(
                    old(self).file@,
                    old(self).state.superblock@,
                    old(self).walk_now(),
                    namespace,
                    log_id,
                ) == Err::<Option<Seq<u8>>, Error>(e),
            },
    {
        match self.find_log_root_slot(namespace) {
            Err(e) => {
                return Err(e);
            },
            Ok(None) => {
                return Ok(None);
            },
            Ok(Some(_)) => {},
        }
        let key = log_id_key(log_id);
        let value = match self.get(namespace, key.as_slice()) {
            Err(e) => {
                return Err(e);
            },
            Ok(None) => {
                return Ok(None);
            },
            Ok(Some(v)) => v,
        };
        let slot: u64 = match parse_batch_slot_value(value.as_slice()) {
            Ok(n) => n,
            Err(e) => {
                return Err(e);
            },
        };
        let records = match self.read_batch(slot) {
            Ok(v) => v,
            Err(e) => {
                return Err(e);
            },
        };
        match find_in_batch(records.as_slice(), log_id) {
            Some(p) => Ok(Some(copy_of(p.as_slice()))),
            None => Err(Error::Malformed("log_id not found in pointed batch")),
        }
    }
}

/// The key of a record number, if there is one.
fn key_of_id(id: Option<u64>) -> (r: Option<Vec<u8>>)
    ensures
        opt_bytes(r) == opt_key(id),
{
    match id {
        Some(n) => Some(copy_of(log_id_key(n).as_slice())),
        None => None,
    }
}

} // verus!
