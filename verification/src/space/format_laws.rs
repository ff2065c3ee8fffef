//! How things lie on disk, byte by byte.

use vstd::prelude::*;

use crate::bytes::{be_bytes, le_bytes, le_value, lemma_le_bytes_len, lex_lt};
use crate::codec::{cat, lemma_cat_push};
use crate::error::Error;
use crate::space::checkpoint::{checkpoint_encode, slot_enc, CheckpointView};
use crate::space::index::{
    boundary_coin, boundary_domain, child_enc, child_index, child_keys_legal, ends_node,
    internal_bytes, internal_encode, internal_len, leaf_bytes, leaf_enc, leaf_encode, leaf_len,
    lemma_child_index, lemma_internal_decode_valid, lemma_leaf_decode_valid, lemma_leaf_fault_all,
    node_decode, node_encode, ChildView, EntryView, InternalView, LeafView, Namespace, NodeView,
};
use crate::space::log::{log_id_of_key, slot_of_value};
use crate::space::superblock::{superblock_encode, SuperblockView};
use crate::tx::commit::{
    blake3_digest, commit_bytes, commit_encode, root_enc, root_hash_enc, tx_root_digest, CommitView,
    NamespaceKind, RootView,
};

verus! {

// ---------------------------------------------------------------------------
// Numbers
// ---------------------------------------------------------------------------

/// A number in bytes, the lowest first: each byte is the remainder by 256, and
/// what follows it is the rest of the number. With the highest byte first, the
/// same bytes from the other end.
pub proof fn law_numbers_in_bytes(v: nat, n: nat, i: int)
    ensures
        le_bytes(v, n).len() == n,
        n > 0 ==> le_bytes(v, n)[0] == v % 256,
        n > 0 ==> le_bytes(v, n).drop_first() == le_bytes(v / 256, (n - 1) as nat),
        be_bytes(v, n).len() == n,
        0 <= i < n ==> be_bytes(v, n)[i] == le_bytes(v, n)[n - 1 - i],
{
    lemma_le_bytes_len(v, n);
    if n > 0 {
        lemma_le_bytes_len(v / 256, (n - 1) as nat);
        assert(le_bytes(v, n).drop_first() =~= le_bytes(v / 256, (n - 1) as nat));
    }
}

/// A log's index has a record's number as its key, in eight bytes with the
/// highest first, and the slot of its batch as the value, in eight bytes with the
/// lowest first; nothing of another length stands for either.
pub proof fn law_log_entries_on_disk(id: u64, key: Seq<u8>, slot: u64, value: Seq<u8>)
    ensures
        log_id_of_key(key) == Ok::<u64, Error>(id) <==> key == be_bytes(id as nat, 8),
        key.len() != 8 ==> log_id_of_key(key) is Err,
        slot_of_value(value) == Ok::<u64, Error>(slot) <==> value == le_bytes(slot as nat, 8),
        value.len() != 8 ==> slot_of_value(value) is Err,
{
    crate::space::log::law_log_id_key_round_trip(id, key);
    crate::space::log::law_batch_slot_value_round_trip(slot, value);
    lemma_le_bytes_len(id as nat, 8);
    lemma_le_bytes_len(slot as nat, 8);
}

// ---------------------------------------------------------------------------
// Superblocks
// ---------------------------------------------------------------------------

/// A superblock: its number, the slot of its commit record, the hash over that
/// record's roots, and, only where there is a checkpoint, the slot of that.
pub proof fn law_superblock_on_disk(s: SuperblockView)
    requires
        s.root_hash.len() == 32,
    ensures
        ({
            let b = superblock_encode(s);
            &&& s.checkpoint_slot == 0xffff_ffff_ffff_ffff ==> b.len() == 48
            &&& s.checkpoint_slot != 0xffff_ffff_ffff_ffff ==> b.len() == 56 && b.subrange(48, 56)
                == le_bytes(s.checkpoint_slot as nat, 8)
            &&& b.subrange(0, 8) == le_bytes(s.seq as nat, 8)
            &&& b.subrange(8, 16) == le_bytes(s.root_slot as nat, 8)
            &&& b.subrange(16, 48) == s.root_hash
        }),
{
    let b = superblock_encode(s);
    lemma_le_bytes_len(s.seq as nat, 8);
    lemma_le_bytes_len(s.root_slot as nat, 8);
    lemma_le_bytes_len(s.checkpoint_slot as nat, 8);
    assert(b.subrange(0, 8) =~= le_bytes(s.seq as nat, 8));
    assert(b.subrange(8, 16) =~= le_bytes(s.root_slot as nat, 8));
    assert(b.subrange(16, 48) =~= s.root_hash);
    if b.len() == 56 {
        assert(b.subrange(48, 56) =~= le_bytes(s.checkpoint_slot as nat, 8));
    }
}

// ---------------------------------------------------------------------------
// Nodes
// ---------------------------------------------------------------------------

/// A leaf: a zero, its namespace, how many entries it has in two bytes; then of
/// each entry the length of its key in two bytes, the key, the length of its
/// value in four, and the value.
pub proof fn law_leaf_on_disk(ns: Namespace, es: Seq<EntryView>, e: EntryView)
    ensures
        leaf_bytes(LeafView { namespace: ns, entries: Seq::<EntryView>::empty() }) == seq![
            0u8,
            ns.0,
            0u8,
            0u8,
        ],
        leaf_bytes(LeafView { namespace: ns, entries: es.push(e) }) == seq![0u8, ns.0] + le_bytes(
            es.len() + 1,
            2,
        ) + leaf_bytes(LeafView { namespace: ns, entries: es }).skip(4) + le_bytes(e.0.len(), 2)
            + e.0 + le_bytes(e.1.len(), 4) + e.1,
{
    lemma_le_bytes_len(es.len(), 2);
    lemma_le_bytes_len(0, 2);
    lemma_cat_push(leaf_enc(), es, e);
    let l = LeafView { namespace: ns, entries: es };
    assert(leaf_bytes(l).skip(4) =~= cat(leaf_enc(), es));
    assert(leaf_bytes(LeafView { namespace: ns, entries: es.push(e) }) =~= seq![0u8, ns.0]
        + le_bytes(es.len() + 1, 2) + leaf_bytes(l).skip(4) + le_bytes(e.0.len(), 2) + e.0
        + le_bytes(e.1.len(), 4) + e.1);
    assert(le_bytes(0, 2) =~= seq![0u8, 0u8]) by {
        reveal_with_fuel(le_bytes, 3);
    }
    assert(leaf_bytes(LeafView { namespace: ns, entries: Seq::<EntryView>::empty() }) =~= seq![
        0u8,
        ns.0,
        0u8,
        0u8,
    ]);
}

/// A leaf is written where its bytes fit in a chunk, every key has 1 to 256 bytes
/// and every value at most 2048; and then these are its bytes.
pub proof fn law_which_leaves_are_written(l: LeafView)
    ensures
        leaf_encode(l) is Ok <==> leaf_bytes(l).len() <= 4040 && forall|i: int|
            0 <= i < l.entries.len() ==> 1 <= (#[trigger] l.entries[i]).0.len() <= 256
                && l.entries[i].1.len() <= 2048,
        leaf_encode(l) is Ok ==> leaf_encode(l)->Ok_0 == leaf_bytes(l),
{
    lemma_leaf_fault_all(l.entries);
    lemma_le_bytes_len(l.entries.len(), 2);
    assert(leaf_bytes(l).len() == leaf_len(l.entries));
    if leaf_encode(l) is Ok {
        assert forall|i: int| 0 <= i < l.entries.len() implies 1 <= (#[trigger] l.entries[i]).0.len()
            <= 256 && l.entries[i].1.len() <= 2048 by {
            assert(crate::space::index::leaf_entry_fault(l.entries[i]) is None);
        }
    }
    if forall|i: int|
        0 <= i < l.entries.len() ==> 1 <= (#[trigger] l.entries[i]).0.len() <= 256
            && l.entries[i].1.len() <= 2048 {
        assert forall|i: int|
            0 <= i < l.entries.len() implies crate::space::index::leaf_entry_fault(
            #[trigger] l.entries[i],
        ) is None by {}
    }
}

/// An internal node: a one, its namespace, how many children it has in two bytes;
/// then of each child the length of its first key in two bytes, that key, its
/// slot in eight bytes, and its hash.
pub proof fn law_internal_on_disk(ns: Namespace, cs: Seq<ChildView>, c: ChildView)
    ensures
        internal_bytes(InternalView { namespace: ns, children: cs.push(c) }) == seq![1u8, ns.0]
            + le_bytes(cs.len() + 1, 2) + internal_bytes(
            InternalView { namespace: ns, children: cs },
        ).skip(4) + le_bytes(c.first_key.len(), 2) + c.first_key + le_bytes(c.child_slot as nat, 8)
            + c.child_hash,
        internal_bytes(InternalView { namespace: ns, children: Seq::<ChildView>::empty() }).len()
            == 4,
{
    lemma_le_bytes_len(cs.len(), 2);
    lemma_le_bytes_len(0, 2);
    lemma_cat_push(child_enc(), cs, c);
    let n = InternalView { namespace: ns, children: cs };
    assert(internal_bytes(n).skip(4) =~= cat(child_enc(), cs));
    assert(internal_bytes(InternalView { namespace: ns, children: cs.push(c) }) =~= seq![1u8, ns.0]
        + le_bytes(cs.len() + 1, 2) + internal_bytes(n).skip(4) + le_bytes(c.first_key.len(), 2)
        + c.first_key + le_bytes(c.child_slot as nat, 8) + c.child_hash);
}

proof fn lemma_internal_bytes_len(n: InternalView)
    requires
        forall|i: int| 0 <= i < n.children.len() ==> (#[trigger] n.children[i]).child_hash.len()
            == 32,
    ensures
        internal_bytes(n).len() == internal_len(n.children),
    decreases n.children.len(),
{
    lemma_le_bytes_len(n.children.len(), 2);
    if n.children.len() > 0 {
        let init = n.children.drop_last();
        let m = InternalView { namespace: n.namespace, children: init };
        assert forall|i: int| 0 <= i < init.len() implies (#[trigger] init[i]).child_hash.len()
            == 32 by {
            assert(init[i] == n.children[i]);
        }
        lemma_internal_bytes_len(m);
        lemma_le_bytes_len(init.len(), 2);
        lemma_le_bytes_len(n.children.last().first_key.len(), 2);
        lemma_le_bytes_len(n.children.last().child_slot as nat, 8);
        assert(n.children[n.children.len() - 1].child_hash.len() == 32);
    }
}

/// An internal node is written where it has a child, its bytes fit in a chunk,
/// and every first key has 1 to 256 bytes; and then these are its bytes.
pub proof fn law_which_internal_nodes_are_written(n: InternalView)
    requires
        forall|i: int| 0 <= i < n.children.len() ==> (#[trigger] n.children[i]).child_hash.len()
            == 32,
    ensures
        internal_encode(n) is Ok <==> n.children.len() > 0 && internal_bytes(n).len() <= 4040
            && forall|i: int|
            0 <= i < n.children.len() ==> 1 <= (#[trigger] n.children[i]).first_key.len() <= 256,
        internal_encode(n) is Ok ==> internal_encode(n)->Ok_0 == internal_bytes(n),
{
    lemma_internal_bytes_len(n);
    if internal_encode(n) is Ok {
        assert forall|i: int| 0 <= i < n.children.len() implies 1 <= (
        #[trigger] n.children[i]).first_key.len() <= 256 by {
            assert(crate::space::index::legal_key(n.children[i].first_key));
        }
    }
    if forall|i: int|
        0 <= i < n.children.len() ==> 1 <= (#[trigger] n.children[i]).first_key.len() <= 256 {
        assert(child_keys_legal(n.children));
    }
}

/// What is read as a node is one that could have been written: its keys rise, an
/// internal node has children, and writing it gives the bytes that were read.
pub proof fn law_only_written_nodes_are_read(b: Seq<u8>, i: int, j: int)
    requires
        b.len() <= 4040,
        node_decode(b) is Ok,
    ensures
        node_encode(node_decode(b)->Ok_0) == Ok::<Seq<u8>, Error>(b),
        node_decode(b)->Ok_0 matches NodeView::Leaf(l) ==> (0 <= i < j < l.entries.len() ==> lex_lt(
            l.entries[i].0,
            l.entries[j].0,
        )),
        node_decode(b)->Ok_0 matches NodeView::Internal(n) ==> n.children.len() > 0 && (0 <= i < j
            < n.children.len() ==> lex_lt(n.children[i].first_key, n.children[j].first_key)),
{
    crate::space::index::law_node_encode_of_decode(b);
    match node_decode(b)->Ok_0 {
        NodeView::Leaf(l) => {
            lemma_leaf_decode_valid(b);
        },
        NodeView::Internal(n) => {
            lemma_internal_decode_valid(b);
        },
    }
}

/// A search for a key goes to the last child whose first key is not after it, and
/// to the first child where there is none.
pub proof fn law_where_a_search_goes(cs: Seq<ChildView>, key: Seq<u8>, j: int)
    requires
        cs.len() > 0,
        0 <= j < cs.len(),
    ensures
        0 <= child_index(cs, key) < cs.len(),
        child_index(cs, key) > 0 ==> !lex_lt(key, cs[child_index(cs, key)].first_key),
        child_index(cs, key) < j ==> lex_lt(key, cs[j].first_key),
{
    lemma_child_index(cs, key);
}

// ---------------------------------------------------------------------------
// Commit records
// ---------------------------------------------------------------------------

/// A commit record: how many roots it has in two bytes; then of each its
/// namespace, its kind (zero for keys, one for a log), its slot in eight bytes
/// and its hash; then the hash over the roots.
pub proof fn law_commit_on_disk(rs: Seq<RootView>, r: RootView, hash: Seq<u8>)
    requires
        hash.len() == 32,
    ensures
        commit_bytes(CommitView { roots: Seq::<RootView>::empty(), tx_root_hash: hash }) == seq![
            0u8,
            0u8,
        ] + hash,
        ({
            let b = commit_bytes(CommitView { roots: rs, tx_root_hash: hash });
            commit_bytes(CommitView { roots: rs.push(r), tx_root_hash: hash }) == le_bytes(
                rs.len() + 1,
                2,
            ) + b.subrange(2, b.len() - 32) + seq![
                r.namespace.0,
                if r.kind == NamespaceKind::Kv {
                    0u8
                } else {
                    1u8
                },
            ] + le_bytes(r.index_slot as nat, 8) + r.payload_hash + hash
        }),
{
    let b = commit_bytes(CommitView { roots: rs, tx_root_hash: hash });
    lemma_le_bytes_len(rs.len(), 2);
    lemma_cat_push(root_enc(), rs, r);
    assert(b.subrange(2, b.len() - 32) =~= cat(root_enc(), rs));
    assert(commit_bytes(CommitView { roots: rs.push(r), tx_root_hash: hash }) =~= le_bytes(
        rs.len() + 1,
        2,
    ) + b.subrange(2, b.len() - 32) + seq![
        r.namespace.0,
        if r.kind == NamespaceKind::Kv {
            0u8
        } else {
            1u8
        },
    ] + le_bytes(r.index_slot as nat, 8) + r.payload_hash + hash);
    assert(le_bytes(0, 2) =~= seq![0u8, 0u8]) by {
        reveal_with_fuel(le_bytes, 3);
    }
    assert(commit_bytes(CommitView { roots: Seq::<RootView>::empty(), tx_root_hash: hash })
        =~= seq![0u8, 0u8] + hash);
}

/// A commit record is written where it has at most 95 roots and they rise by
/// namespace; and then these are its bytes.
pub proof fn law_which_commits_are_written(c: CommitView)
    ensures
        commit_encode(c) is Ok <==> c.roots.len() <= 95 && forall|i: int, j: int|
            0 <= i < j < c.roots.len() ==> (#[trigger] c.roots[i]).namespace.0 < (
            #[trigger] c.roots[j]).namespace.0,
        commit_encode(c) is Ok ==> commit_encode(c)->Ok_0 == commit_bytes(c),
{
    assert((4040int - 2 - 32) / (1int + 1 + 8 + 32) == 95) by (nonlinear_arith);
}

/// The hashes of roots, one after the other.
pub open spec fn hashes_of(rs: Seq<RootView>) -> Seq<u8>
    decreases rs.len(),
{
    if rs.len() == 0 {
        Seq::<u8>::empty()
    } else {
        rs[0].payload_hash + hashes_of(rs.drop_first())
    }
}

proof fn lemma_hashes_of(rs: Seq<RootView>)
    ensures
        cat(root_hash_enc(), rs) == hashes_of(rs),
    decreases rs.len(),
{
    if rs.len() == 1 {
        assert(rs.drop_first() =~= Seq::<RootView>::empty());
        assert(rs.drop_last() =~= Seq::<RootView>::empty());
        reveal_with_fuel(hashes_of, 2);
        reveal_with_fuel(cat, 2);
        assert(hashes_of(rs) =~= rs[0].payload_hash);
        assert(cat(root_hash_enc(), rs) =~= rs[0].payload_hash);
    } else if rs.len() > 1 {
        let init = rs.drop_last();
        lemma_hashes_of(init);
        lemma_hashes_push(init, rs.last());
        assert(init.push(rs.last()) =~= rs);
    }
}

proof fn lemma_hashes_push(rs: Seq<RootView>, r: RootView)
    ensures
        hashes_of(rs.push(r)) == hashes_of(rs) + r.payload_hash,
    decreases rs.len(),
{
    let all = rs.push(r);
    if rs.len() == 0 {
        assert(all.drop_first() =~= Seq::<RootView>::empty());
        reveal_with_fuel(hashes_of, 2);
        assert(hashes_of(all) =~= hashes_of(rs) + r.payload_hash);
    } else {
        assert(all.drop_first() =~= rs.drop_first().push(r));
        lemma_hashes_push(rs.drop_first(), r);
        assert(hashes_of(all) =~= hashes_of(rs) + r.payload_hash);
    }
}

/// The hash over the roots of a commit is the hash of their hashes, all of them
/// and in their order.
pub proof fn law_commit_hash(rs: Seq<RootView>)
    ensures
        tx_root_digest(rs) == blake3_digest(hashes_of(rs)),
{
    lemma_hashes_of(rs);
}

// ---------------------------------------------------------------------------
// Checkpoints
// ---------------------------------------------------------------------------

/// Slots, eight bytes each.
pub open spec fn slots_in_bytes(v: Seq<u64>) -> Seq<u8>
    decreases v.len(),
{
    if v.len() == 0 {
        Seq::<u8>::empty()
    } else {
        slots_in_bytes(v.drop_last()) + le_bytes(v.last() as nat, 8)
    }
}

proof fn lemma_slots_in_bytes(v: Seq<u64>)
    ensures
        cat(slot_enc(), v) == slots_in_bytes(v),
    decreases v.len(),
{
    if v.len() > 0 {
        lemma_slots_in_bytes(v.drop_last());
    }
}

/// A link of a checkpoint: the number of the checkpoint, how many slots it covers
/// and the slot of the next link, in eight bytes each; how many owned and how
/// many free slots follow, in four bytes each; then the owned ones and the free
/// ones. Up to 501 slots go in one link.
pub proof fn law_checkpoint_on_disk(c: CheckpointView)
    ensures
        checkpoint_encode(c) is Ok <==> c.owned.len() + c.pool.len() <= 501,
        checkpoint_encode(c) is Ok ==> ({
            let b = checkpoint_encode(c)->Ok_0;
            &&& b.len() >= 32
            &&& b.subrange(0, 8) == le_bytes(c.cp_seq as nat, 8)
            &&& b.subrange(8, 16) == le_bytes(c.cp_high_water as nat, 8)
            &&& b.subrange(16, 24) == le_bytes(c.next_slot as nat, 8)
            &&& b.subrange(24, 28) == le_bytes(c.owned.len(), 4)
            &&& b.subrange(28, 32) == le_bytes(c.pool.len(), 4)
            &&& b.skip(32) == slots_in_bytes(c.owned + c.pool)
        }),
{
    assert((4040int - 32) / 8 == 501);
    lemma_slots_in_bytes(c.owned + c.pool);
    lemma_le_bytes_len(c.cp_seq as nat, 8);
    lemma_le_bytes_len(c.cp_high_water as nat, 8);
    lemma_le_bytes_len(c.next_slot as nat, 8);
    lemma_le_bytes_len(c.owned.len(), 4);
    lemma_le_bytes_len(c.pool.len(), 4);
    if checkpoint_encode(c) is Ok {
        let b = checkpoint_encode(c)->Ok_0;
        assert(b.subrange(0, 8) =~= le_bytes(c.cp_seq as nat, 8));
        assert(b.subrange(8, 16) =~= le_bytes(c.cp_high_water as nat, 8));
        assert(b.subrange(16, 24) =~= le_bytes(c.next_slot as nat, 8));
        assert(b.subrange(24, 28) =~= le_bytes(c.owned.len(), 4));
        assert(b.subrange(28, 32) =~= le_bytes(c.pool.len(), 4));
        assert(b.skip(32) =~= slots_in_bytes(c.owned + c.pool));
    }
}

// ---------------------------------------------------------------------------
// Where nodes end
// ---------------------------------------------------------------------------

/// The coin of a key at a level is the first eight bytes, lowest first, of a hash
/// over a fixed text, the level and the key.
pub proof fn law_boundary_coin(level: u8, key: Seq<u8>)
    ensures
        ({
            let text = "hidden-volume/index-boundary/v1"@;
            let bytes = Seq::new(text.len(), |i: int| text[i] as u8);
            boundary_coin(level, key) == le_value(
                blake3_digest(bytes + seq![level] + key).subrange(0, 8),
            )
        }),
{
    reveal_strlit("hidden-volume/index-boundary/v1");
    let text = "hidden-volume/index-boundary/v1"@;
    let bytes = Seq::new(text.len(), |i: int| text[i] as u8);
    assert(bytes =~= boundary_domain());
}

/// An item ends its node with odds of its cost to six times what is left of the
/// chunk behind it: always where nothing is left, and the more often the larger
/// the item and the fuller the node.
pub proof fn law_boundary_odds(coin: nat, cost: nat, fill: nat, less: nat, more: nat, fuller: nat)
    requires
        cost > 0,
        less <= coin,
        more >= cost,
        fuller >= fill,
    ensures
        fill >= 4040 ==> ends_node(coin, cost, fill),
        fill < 4040 ==> (ends_node(coin, cost, fill) <==> coin * (6 * (4040 - fill)) < cost
            * 0x1_0000_0000_0000_0000),
        ends_node(coin, cost, fill) ==> ends_node(less, cost, fill),
        ends_node(coin, cost, fill) ==> ends_node(coin, more, fill),
        ends_node(coin, cost, fill) ==> ends_node(coin, cost, fuller),
{
    let left = if fill <= 4040 {
        (4040 - fill) as nat
    } else {
        0
    };
    let then = if fuller <= 4040 {
        (4040 - fuller) as nat
    } else {
        0
    };
    assert(coin * left * 6 == coin * (6 * left)) by (nonlinear_arith);
    assert(less * left * 6 <= coin * left * 6) by (nonlinear_arith)
        requires
            less <= coin,
    ;
    assert(coin * then * 6 <= coin * left * 6) by (nonlinear_arith)
        requires
            then <= left,
    ;
    assert(coin * 0 * 6 == 0);
}

} // verus!
