//! What a cache of batches keeps, and in what order it lets go.

use vstd::prelude::*;

use crate::space::log::{footprint, RecordView};
use crate::space::log_iter::{
    cache_distinct, cache_find, cache_has, cache_total, cache_touched, cache_trimmed,
    cache_without, cached_view, law_eviction_drops_the_oldest, lemma_cache_find,
    lemma_cache_find_is, lemma_cache_total_push, CachedView, DecodedBatch,
};

verus! {

/// A cache has a batch where one of its entries is of that slot, and where no slot
/// is there twice it is that entry that is found.
pub proof fn law_what_a_cache_finds(s: Seq<CachedView>, slot: u64, i: int)
    ensures
        cache_has(s, slot) <==> exists|j: int| 0 <= j < s.len() && (#[trigger] s[j]).0 == slot,
        cache_distinct(s) && 0 <= i < s.len() && s[i].0 == slot ==> cache_find(s, slot) == i,
{
    lemma_cache_find(s, slot);
    if cache_has(s, slot) {
        assert(s[cache_find(s, slot)].0 == slot);
    }
    if cache_distinct(s) && 0 <= i < s.len() && s[i].0 == slot {
        lemma_cache_find_is(s, slot, i);
    }
}

/// To use a batch makes it the most recent, and changes neither what there is nor
/// the order of the others; to look for one that is not there changes nothing.
pub proof fn law_use_makes_recent(s: Seq<CachedView>, slot: u64, i: int)
    requires
        cache_distinct(s),
    ensures
        0 <= i < s.len() && s[i].0 == slot ==> cache_touched(s, slot) == s.take(i) + s.skip(i + 1)
            + seq![s[i]],
        (forall|j: int| 0 <= j < s.len() ==> (#[trigger] s[j]).0 != slot) ==> cache_touched(s, slot)
            == s,
{
    law_what_a_cache_finds(s, slot, i);
    if 0 <= i < s.len() && s[i].0 == slot {
        assert(cache_touched(s, slot) =~= s.take(i) + s.skip(i + 1) + seq![s[i]]);
    }
}

/// A batch that is put in takes the place of one of the same slot and comes last.
/// To make room for it the others go, from the least recent on: as many as must
/// for both bounds to hold, and no more.
pub proof fn law_room_is_made_for_a_batch(
    s: Seq<CachedView>,
    slot: u64,
    rs: Seq<RecordView>,
    max_entries: nat,
    max_bytes: nat,
    i: int,
)
    requires
        cache_distinct(s),
        max_entries > 0,
        footprint(rs) <= max_bytes,
    ensures
        ({
            let without = cache_without(s, slot);
            let kept = cache_trimmed(without, footprint(rs), max_entries, max_bytes);
            let n = without.len() - kept.len();
            &&& 0 <= i < s.len() && s[i].0 == slot ==> without == s.take(i) + s.skip(i + 1)
            &&& (forall|j: int| 0 <= j < s.len() ==> (#[trigger] s[j]).0 != slot) ==> without == s
            &&& 0 <= n
            &&& kept == without.skip(n)
            &&& kept.len() < max_entries
            &&& cache_total(kept) + footprint(rs) <= max_bytes
            &&& n > 0 ==> kept.len() + 1 >= max_entries || cache_total(without.skip(n - 1))
                + footprint(rs) > max_bytes
        }),
{
    law_what_a_cache_finds(s, slot, i);
    lemma_cache_find(s, slot);
    let without = cache_without(s, slot);
    let k = cache_find(s, slot);
    assert forall|a: int, b: int| 0 <= a < b < without.len() implies (#[trigger] without[a]).0 != (
    #[trigger] without[b]).0 by {
        let x = if !cache_has(s, slot) || a < k {
            a
        } else {
            a + 1
        };
        let y = if !cache_has(s, slot) || b < k {
            b
        } else {
            b + 1
        };
        assert(without[a] == s[x] && without[b] == s[y]);
    }
    if 0 <= i < s.len() && s[i].0 == slot {
        assert(without =~= s.take(i) + s.skip(i + 1));
    }
    law_eviction_drops_the_oldest(without, footprint(rs), max_entries, max_bytes);
    lemma_no_more_than_must(without, footprint(rs), max_entries, max_bytes);
}

proof fn lemma_no_more_than_must(s: Seq<CachedView>, cost: nat, max_entries: nat, max_bytes: nat)
    requires
        cache_distinct(s),
        max_entries > 0,
        cost <= max_bytes,
    ensures
        ({
            let t = cache_trimmed(s, cost, max_entries, max_bytes);
            let n = s.len() - t.len();
            n > 0 ==> t.len() + 1 >= max_entries || cache_total(s.skip(n - 1)) + cost > max_bytes
        }),
    decreases s.len(),
{
    if s.len() > 0 && (s.len() >= max_entries || cache_total(s) + cost > max_bytes) {
        let r = s.drop_first();
        assert forall|a: int, b: int| 0 <= a < b < r.len() implies (#[trigger] r[a]).0 != (
        #[trigger] r[b]).0 by {
            assert(r[a] == s[a + 1] && r[b] == s[b + 1]);
        }
        lemma_no_more_than_must(r, cost, max_entries, max_bytes);
        law_eviction_drops_the_oldest(r, cost, max_entries, max_bytes);
        let t = cache_trimmed(r, cost, max_entries, max_bytes);
        let n = s.len() - t.len();
        if n == 1 {
            assert(s.skip(0) =~= s);
        } else {
            assert(r.skip(n - 2) =~= s.skip(n - 1));
        }
    }
}

/// What a cache costs is what its batches cost together.
pub proof fn law_what_a_cache_costs(s: Seq<CachedView>, x: CachedView)
    ensures
        cache_total(Seq::<CachedView>::empty()) == 0,
        cache_total(s.push(x)) == cache_total(s) + footprint(x.1),
{
    lemma_cache_total_push(s, x);
}

/// The entries of a cache stand for a slot each and the records of a batch.
pub proof fn law_caches_stand_for_batches(v: Seq<(u64, DecodedBatch)>, i: int, j: int)
    ensures
        cached_view(v).len() == v.len(),
        0 <= i < v.len() ==> cached_view(v)[i].0 == v[i].0 && cached_view(v)[i].1.len()
            == v[i].1@.len(),
        0 <= i < v.len() && 0 <= j < v[i].1@.len() ==> cached_view(v)[i].1[j] == (
            v[i].1@[j].0,
            v[i].1@[j].1@,
        ),
{
}

} // verus!
