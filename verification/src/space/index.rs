//! Index nodes: the leaves and internal nodes of a namespace's tree, their
//! encoding, and where the cuts between nodes fall.
//!
//! A node is a four-byte header (node type, namespace, count as `u16` LE)
//! followed by its entries in key order:
//!
//! ```text
//! leaf entry     : key_len u16 LE | key | value_len u32 LE | value
//! internal entry : key_len u16 LE | first_key | child_slot u64 LE | child_hash [32]
//! ```

use vstd::prelude::*;

use crate::bytes::{
    bytes_lt, copy_of, hash_at, le_bytes, le_value, lemma_le_bytes_len, lemma_le_bytes_of_value,
    lemma_le_value_of_bytes, lemma_lex_total, lemma_lex_trans, lemma_pow256_widths, lex_le, lex_lt,
    push_le, u16_at, u32_at, u64_at,
};
use crate::chunk::PAYLOAD_CAP;
use crate::wipe::WipedPairs;
use crate::codec::{lemma_parse_plain, 
    cat, lemma_cat_of_parse, lemma_cat_push, lemma_parse_cat, lemma_prepend_step,
    parse_many, prepend, reads_back, reads_only,
};
use crate::error::{agrees, Error};
use crate::tx::commit::{blake3_digest, blake3_of};

verus! {

/// A separate key space inside one space. Zero is reserved.
#[derive(Debug, Clone, Copy, PartialEq, Eq, Ord, PartialOrd, Hash, Structural)]
pub struct Namespace(pub u8);

impl Namespace {
    /// User preferences and configuration.
    pub fn settings() -> (r: Namespace)
        ensures
            r == Namespace(1),
    {
        Namespace(1)
    }

    /// The address book.
    pub fn contacts() -> (r: Namespace)
        ensures
            r == Namespace(2),
    {
        Namespace(2)
    }

    /// The message log.
    pub fn message_log() -> (r: Namespace)
        ensures
            r == Namespace(3),
    {
        Namespace(3)
    }

    /// Media metadata.
    pub fn media() -> (r: Namespace)
        ensures
            r == Namespace(4),
    {
        Namespace(4)
    }

    /// Never used for data.
    pub fn reserved() -> (r: Namespace)
        ensures
            r == Namespace(0),
    {
        Namespace(0)
    }

    /// The byte that stands for this namespace on disk.
    #[must_use]
    pub fn as_u8(self) -> (r: u8)
        ensures
            r == self.0,
    {
        self.0
    }
}

/// Longest key.
pub const MAX_KEY_LEN: usize = 256;

/// Longest value.
pub const MAX_VALUE_LEN: usize = 2048;

/// Bytes of a node before its first entry: type, namespace, count.
pub const NODE_HEADER_LEN: usize = 4;

/// A content-defined boundary ends an internal node only once it has this
/// many children.
pub const MIN_INTERNAL_CHILDREN: usize = 4;

/// Children that an internal node holds unless it is the last of its level:
/// the smaller of `MIN_INTERNAL_CHILDREN` and what an overflowing node is
/// sure to hold.
pub const MIN_FULL_INTERNAL_FANOUT: usize = 4;

/// The `K` in "seal with probability `cost / (K * bytes still free)`".
pub const BOUNDARY_HAZARD_K: u128 = 6;

const NODE_TYPE_LEAF: u8 = 0;

const NODE_TYPE_INTERNAL: u8 = 1;

/// A key and its value.
pub type EntryView = (Seq<u8>, Seq<u8>);

/// One pointer from an internal node to a child.
#[derive(Debug, PartialEq, Eq)]
pub struct ChildPointer {
    /// First key in the child's subtree.
    pub first_key: Vec<u8>,
    /// Slot of the child's chunk.
    pub child_slot: u64,
    /// BLAKE3 of the child's payload.
    pub child_hash: [u8; 32],
}

/// A child pointer, with its bytes as sequences.
pub struct ChildView {
    pub first_key: Seq<u8>,
    pub child_slot: u64,
    pub child_hash: Seq<u8>,
}

impl View for ChildPointer {
    type V = ChildView;

    open spec fn view(&self) -> ChildView {
        ChildView {
            first_key: self.first_key@,
            child_slot: self.child_slot,
            child_hash: self.child_hash@,
        }
    }
}

impl Clone for ChildPointer {
    fn clone(&self) -> (r: ChildPointer)
        ensures
            r@ == self@,
    {
        ChildPointer {
            first_key: copy_of(self.first_key.as_slice()),
            child_slot: self.child_slot,
            child_hash: self.child_hash,
        }
    }
}

/// A node that holds entries.
#[derive(Debug, PartialEq, Eq)]
pub struct LeafNode {
    pub namespace: Namespace,
    pub entries: Vec<(Vec<u8>, Vec<u8>)>,
}

/// A leaf, with its entries as sequences.
pub struct LeafView {
    pub namespace: Namespace,
    pub entries: Seq<EntryView>,
}

/// The entries of a leaf as sequences.
pub open spec fn entries_view(v: Seq<(Vec<u8>, Vec<u8>)>) -> Seq<EntryView> {
    Seq::new(v.len(), |i: int| (v[i].0@, v[i].1@))
}

impl View for LeafNode {
    type V = LeafView;

    open spec fn view(&self) -> LeafView {
        LeafView { namespace: self.namespace, entries: entries_view(self.entries@) }
    }
}

/// A node that holds pointers to nodes one level below.
#[derive(Debug, PartialEq, Eq)]
pub struct InternalNode {
    pub namespace: Namespace,
    pub children: Vec<ChildPointer>,
}

/// An internal node, with its children as sequences.
pub struct InternalView {
    pub namespace: Namespace,
    pub children: Seq<ChildView>,
}

/// The children of an internal node as sequences.
pub open spec fn children_view(v: Seq<ChildPointer>) -> Seq<ChildView> {
    Seq::new(v.len(), |i: int| v[i]@)
}

impl View for InternalNode {
    type V = InternalView;

    open spec fn view(&self) -> InternalView {
        InternalView { namespace: self.namespace, children: children_view(self.children@) }
    }
}

/// Either kind of node.
#[derive(Debug, PartialEq, Eq)]
pub enum IndexNode {
    Leaf(LeafNode),
    Internal(InternalNode),
}

/// Either kind of node, as sequences.
pub enum NodeView {
    Leaf(LeafView),
    Internal(InternalView),
}

impl NodeView {
    /// The namespace that the node says it belongs to.
    pub open spec fn namespace(self) -> Namespace {
        match self {
            NodeView::Leaf(l) => l.namespace,
            NodeView::Internal(i) => i.namespace,
        }
    }
}

impl View for IndexNode {
    type V = NodeView;

    open spec fn view(&self) -> NodeView {
        match self {
            IndexNode::Leaf(l) => NodeView::Leaf(l@),
            IndexNode::Internal(i) => NodeView::Internal(i@),
        }
    }
}

/// Keys rise strictly.
pub open spec fn keys_sorted(es: Seq<EntryView>) -> bool {
    forall|i: int, j: int|
        0 <= i < j < es.len() ==> lex_lt((#[trigger] es[i]).0, (#[trigger] es[j]).0)
}

/// First keys rise strictly.
pub open spec fn children_sorted(cs: Seq<ChildView>) -> bool {
    forall|i: int, j: int|
        0 <= i < j < cs.len() ==> lex_lt(
            (#[trigger] cs[i]).first_key,
            (#[trigger] cs[j]).first_key,
        )
}

// ---------------------------------------------------------------------------
// Leaf encoding
// ---------------------------------------------------------------------------

/// Bytes one entry adds to a leaf.
pub open spec fn leaf_cost(e: EntryView) -> nat {
    6 + e.0.len() + e.1.len()
}

/// The encoding of one entry.
pub open spec fn leaf_entry_bytes(e: EntryView) -> Seq<u8> {
    le_bytes(e.0.len(), 2) + e.0 + le_bytes(e.1.len(), 4) + e.1
}

/// `leaf_entry_bytes` as a value.
pub open spec fn leaf_enc() -> spec_fn(EntryView) -> Seq<u8> {
    |e: EntryView| leaf_entry_bytes(e)
}

/// Reads one entry of a leaf.
pub open spec fn parse_leaf_entry(b: Seq<u8>, off: int) -> Result<(EntryView, int), Error> {
    if b.len() < off + 2 {
        Err(Error::Malformed("leaf truncated at key_len"))
    } else {
        let klen = le_value(b.subrange(off, off + 2));
        let at_value_len = off + 2 + klen;
        if klen == 0 || klen > MAX_KEY_LEN {
            Err(Error::Malformed("invalid leaf key length"))
        } else if b.len() < at_value_len + 4 {
            Err(Error::Malformed("leaf truncated at key/value_len"))
        } else {
            let vlen = le_value(b.subrange(at_value_len, at_value_len + 4));
            let at_value = at_value_len + 4;
            if vlen > MAX_VALUE_LEN {
                Err(Error::Malformed("invalid leaf value length"))
            } else if b.len() < at_value + vlen {
                Err(Error::Malformed("leaf truncated at value"))
            } else {
                Ok(
                    (
                        (b.subrange(off + 2, at_value_len), b.subrange(at_value, at_value + vlen)),
                        at_value + vlen,
                    ),
                )
            }
        }
    }
}

/// `parse_leaf_entry` as a value.
pub open spec fn leaf_item() -> spec_fn(Seq<u8>, int) -> Result<(EntryView, int), Error> {
    |b: Seq<u8>, off: int| parse_leaf_entry(b, off)
}

/// What is wrong with one entry, if anything.
pub open spec fn leaf_entry_fault(e: EntryView) -> Option<Error> {
    if e.0.len() == 0 || e.0.len() > MAX_KEY_LEN {
        Some(Error::Malformed("invalid key length"))
    } else if e.1.len() > MAX_VALUE_LEN {
        Some(Error::Malformed("value exceeds MAX_VALUE_LEN"))
    } else {
        None
    }
}

/// What is wrong with the first faulty entry, if there is one.
pub open spec fn leaf_fault(es: Seq<EntryView>) -> Option<Error>
    decreases es.len(),
{
    if es.len() == 0 {
        None
    } else {
        match leaf_fault(es.drop_last()) {
            Some(e) => Some(e),
            None => leaf_entry_fault(es.last()),
        }
    }
}

/// Size of the encoding of a leaf with these entries.
pub open spec fn leaf_len(es: Seq<EntryView>) -> nat {
    NODE_HEADER_LEN as nat + cat(leaf_enc(), es).len()
}

/// The bytes of a leaf.
pub open spec fn leaf_bytes(l: LeafView) -> Seq<u8> {
    seq![0u8, l.namespace.0] + le_bytes(l.entries.len(), 2) + cat(leaf_enc(), l.entries)
}

/// The encoding of a leaf, or why it has none.
pub open spec fn leaf_encode(l: LeafView) -> Result<Seq<u8>, Error> {
    if leaf_len(l.entries) > PAYLOAD_CAP {
        Err(Error::Malformed("leaf node would exceed PAYLOAD_CAP"))
    } else {
        match leaf_fault(l.entries) {
            Some(e) => Err(e),
            None => Ok(leaf_bytes(l)),
        }
    }
}

/// The leaf that the bytes encode, or why they encode none.
pub open spec fn leaf_decode(b: Seq<u8>) -> Result<LeafView, Error> {
    if b.len() < NODE_HEADER_LEN || b[0] != 0 {
        Err(Error::Malformed("not a leaf node"))
    } else {
        let num = le_value(b.subrange(2, 4));
        if num * 7 > b.len() - NODE_HEADER_LEN {
            Err(Error::Malformed("leaf count exceeds payload bound"))
        } else {
            match parse_many(leaf_item(), b, NODE_HEADER_LEN as int, num) {
                Err(e) => Err(e),
                Ok((es, end)) => if end != b.len() {
                    Err(Error::Malformed("leaf payload trailing bytes after last entry"))
                } else if !keys_sorted(es) {
                    Err(Error::Malformed("leaf entries not sorted"))
                } else {
                    Ok(LeafView { namespace: Namespace(b[1]), entries: es })
                },
            }
        }
    }
}

/// The size of one encoded entry.
pub proof fn lemma_leaf_entry_len(e: EntryView)
    ensures
        leaf_entry_bytes(e).len() == leaf_cost(e),
{
    lemma_le_bytes_len(e.0.len(), 2);
    lemma_le_bytes_len(e.1.len(), 4);
}

/// Adding an entry adds its cost.
pub proof fn lemma_leaf_len_push(es: Seq<EntryView>, e: EntryView)
    ensures
        leaf_len(es.push(e)) == leaf_len(es) + leaf_cost(e),
{
    lemma_cat_push(leaf_enc(), es, e);
    lemma_leaf_entry_len(e);
}

/// A leaf is at least as long as any of its prefixes, and has at least six
/// bytes per entry.
pub proof fn lemma_leaf_len_take(es: Seq<EntryView>, n: int)
    requires
        0 <= n <= es.len(),
    ensures
        leaf_len(es.take(n)) <= leaf_len(es),
        leaf_len(es) >= 4 + 6 * es.len(),
    decreases es.len(),
{
    if es.len() > 0 {
        let init = es.drop_last();
        assert(es =~= init.push(es.last()));
        lemma_leaf_len_push(init, es.last());
        if n < es.len() {
            lemma_leaf_len_take(init, n);
            assert(init.take(n) =~= es.take(n));
        } else {
            lemma_leaf_len_take(init, init.len() as int);
            assert(es.take(n) =~= es);
        }
    } else {
        assert(es.take(n) =~= es);
    }
}

/// No fault means that every entry is without fault.
pub proof fn lemma_leaf_fault_all(es: Seq<EntryView>)
    ensures
        leaf_fault(es) is None <==> forall|i: int|
            0 <= i < es.len() ==> leaf_entry_fault(#[trigger] es[i]) is None,
    decreases es.len(),
{
    if es.len() > 0 {
        let init = es.drop_last();
        lemma_leaf_fault_all(init);
        if leaf_fault(es) is None {
            assert forall|i: int| 0 <= i < es.len() implies leaf_entry_fault(
                #[trigger] es[i],
            ) is None by {
                if i < init.len() {
                    assert(init[i] == es[i]);
                }
            }
        } else {
            if forall|i: int| 0 <= i < es.len() ==> leaf_entry_fault(#[trigger] es[i]) is None {
                assert forall|i: int| 0 <= i < init.len() implies leaf_entry_fault(
                    #[trigger] init[i],
                ) is None by {
                    assert(init[i] == es[i]);
                }
                assert(leaf_entry_fault(es[es.len() - 1]) is None);
            }
        }
    }
}

/// An entry without fault is read back.
proof fn lemma_leaf_entry_reads_back(e: EntryView)
    requires
        leaf_entry_fault(e) is None,
    ensures
        reads_back(leaf_item(), leaf_enc(), e),
{
    let s = leaf_entry_bytes(e);
    lemma_leaf_entry_len(e);
    lemma_pow256_widths();
    lemma_le_value_of_bytes(e.0.len(), 2);
    lemma_le_value_of_bytes(e.1.len(), 4);
    let k = e.0.len() as int;
    let v = e.1.len() as int;
    assert forall|b: Seq<u8>, off: int|
        0 <= off && off + s.len() <= b.len() && b.subrange(off, off + s.len())
            == s implies #[trigger] leaf_item()(b, off) == Ok::<(EntryView, int), Error>(
        (e, off + s.len()),
    ) by {
        assert forall|i: int| 0 <= i < s.len() implies b[off + i] == #[trigger] s[i] by {
            assert(b.subrange(off, off + s.len())[i] == s[i]);
        }
        assert(b.subrange(off, off + 2) =~= le_bytes(e.0.len(), 2)) by {
            assert forall|i: int| 0 <= i < 2 implies b[off + i] == le_bytes(e.0.len(), 2)[i] by {
                assert(s[i] == le_bytes(e.0.len(), 2)[i]);
            }
        }
        assert(b.subrange(off + 2, off + 2 + k) =~= e.0) by {
            assert forall|i: int| 0 <= i < k implies b[off + 2 + i] == e.0[i] by {
                assert(s[2 + i] == e.0[i]);
            }
        }
        assert(b.subrange(off + 2 + k, off + 6 + k) =~= le_bytes(e.1.len(), 4)) by {
            assert forall|i: int| 0 <= i < 4 implies b[off + 2 + k + i] == le_bytes(
                e.1.len(),
                4,
            )[i] by {
                assert(s[2 + k + i] == le_bytes(e.1.len(), 4)[i]);
            }
        }
        assert(b.subrange(off + 6 + k, off + 6 + k + v) =~= e.1) by {
            assert forall|i: int| 0 <= i < v implies b[off + 6 + k + i] == e.1[i] by {
                assert(s[6 + k + i] == e.1[i]);
            }
        }
    }
}

/// Only encodings of entries are read.
proof fn lemma_leaf_entry_reads_only(b: Seq<u8>)
    ensures
        reads_only(leaf_item(), leaf_enc(), b),
        forall|off: int|
            0 <= off ==> match #[trigger] leaf_item()(b, off) {
                Ok((e, _)) => leaf_entry_fault(e) is None,
                Err(_) => true,
            },
{
    assert forall|off: int| 0 <= off <= b.len() implies match #[trigger] leaf_item()(b, off) {
        Ok((x, end)) => off <= end <= b.len() && leaf_enc()(x) == b.subrange(off, end),
        Err(_) => true,
    } by {
        if let Ok((x, end)) = parse_leaf_entry(b, off) {
            let kb = b.subrange(off, off + 2);
            let k = le_value(kb) as int;
            let vb = b.subrange(off + 2 + k, off + 6 + k);
            lemma_le_bytes_of_value(kb);
            lemma_le_bytes_of_value(vb);
            assert(leaf_entry_bytes(x) =~= b.subrange(off, end));
        }
    }
}

/// What a parse of leaf entries gives has no fault.
proof fn lemma_parsed_leaf_no_fault(b: Seq<u8>, off: int, n: nat)
    requires
        0 <= off <= b.len(),
    ensures
        match parse_many(leaf_item(), b, off, n) {
            Ok((es, _)) => forall|i: int|
                0 <= i < es.len() ==> leaf_entry_fault(#[trigger] es[i]) is None,
            Err(_) => true,
        },
    decreases n,
{
    lemma_leaf_entry_reads_only(b);
    if n > 0 {
        if let Ok((x, mid)) = leaf_item()(b, off) {
            lemma_parsed_leaf_no_fault(b, mid, (n - 1) as nat);
        }
    }
}

/// Decoding undoes encoding: a leaf whose keys rise comes back as it was.
pub proof fn law_leaf_decode_of_encode(l: LeafView)
    requires
        keys_sorted(l.entries),
        leaf_encode(l) is Ok,
    ensures
        leaf_decode(leaf_encode(l)->Ok_0) == Ok::<LeafView, Error>(l),
        leaf_encode(l)->Ok_0.len() == leaf_len(l.entries),
{
    let b = leaf_bytes(l);
    let n = l.entries.len();
    lemma_leaf_len_take(l.entries, n as int);
    lemma_pow256_widths();
    lemma_le_value_of_bytes(n, 2);
    assert(b.subrange(2, 4) =~= le_bytes(n, 2));
    assert(b.subrange(4, b.len() as int) =~= cat(leaf_enc(), l.entries));
    lemma_leaf_fault_all(l.entries);
    assert forall|i: int| 0 <= i < n implies reads_back(
        leaf_item(),
        leaf_enc(),
        #[trigger] l.entries[i],
    ) by {
        lemma_leaf_entry_reads_back(l.entries[i]);
    }
    lemma_parse_cat(leaf_item(), leaf_enc(), l.entries, b, 4);
    lemma_leaf_min_len(l.entries);
}

/// Entries without fault take at least seven bytes each.
proof fn lemma_leaf_min_len(es: Seq<EntryView>)
    requires
        leaf_fault(es) is None,
    ensures
        cat(leaf_enc(), es).len() >= 7 * es.len(),
    decreases es.len(),
{
    if es.len() > 0 {
        lemma_leaf_min_len(es.drop_last());
        lemma_leaf_entry_len(es.last());
    }
}

/// Encoding undoes decoding: a leaf has one encoding.
pub proof fn law_leaf_encode_of_decode(b: Seq<u8>)
    requires
        leaf_decode(b) is Ok,
        b.len() <= PAYLOAD_CAP,
    ensures
        leaf_encode(leaf_decode(b)->Ok_0) == Ok::<Seq<u8>, Error>(b),
        keys_sorted(leaf_decode(b)->Ok_0.entries),
{
    let l = leaf_decode(b)->Ok_0;
    let num = le_value(b.subrange(2, 4));
    lemma_leaf_entry_reads_only(b);
    lemma_cat_of_parse(leaf_item(), leaf_enc(), b, 4, num);
    lemma_parsed_leaf_no_fault(b, 4, num);
    lemma_leaf_fault_all(l.entries);
    lemma_le_bytes_of_value(b.subrange(2, 4));
    assert(leaf_bytes(l) =~= b);
}

/// Every entry of a decoded leaf has a key of legal length and a value of
/// legal length, and the keys rise.
pub proof fn lemma_leaf_decode_valid(b: Seq<u8>)
    requires
        leaf_decode(b) is Ok,
    ensures
        keys_sorted(leaf_decode(b)->Ok_0.entries),
        leaf_fault(leaf_decode(b)->Ok_0.entries) is None,
        leaf_len(leaf_decode(b)->Ok_0.entries) == b.len(),
{
    let l = leaf_decode(b)->Ok_0;
    let num = le_value(b.subrange(2, 4));
    lemma_leaf_entry_reads_only(b);
    lemma_cat_of_parse(leaf_item(), leaf_enc(), b, 4, num);
    lemma_parsed_leaf_no_fault(b, 4, num);
    lemma_leaf_fault_all(l.entries);
}

/// The value under `key`, if there is one; the last where there are several.
pub open spec fn lookup(es: Seq<EntryView>, key: Seq<u8>) -> Option<Seq<u8>>
    decreases es.len(),
{
    if es.len() == 0 {
        None
    } else if es.last().0 == key {
        Some(es.last().1)
    } else {
        lookup(es.drop_last(), key)
    }
}

/// What a lookup finds is there, and what is there is found.
pub proof fn lemma_lookup(es: Seq<EntryView>, key: Seq<u8>)
    ensures
        match lookup(es, key) {
            Some(v) => exists|i: int| 0 <= i < es.len() && #[trigger] es[i] == (key, v),
            None => forall|i: int| 0 <= i < es.len() ==> (#[trigger] es[i]).0 != key,
        },
    decreases es.len(),
{
    if es.len() > 0 {
        let init = es.drop_last();
        if es.last().0 == key {
            assert(es[es.len() - 1] == (key, es.last().1));
        } else {
            lemma_lookup(init, key);
            match lookup(init, key) {
                Some(v) => {
                    let i = choose|i: int| 0 <= i < init.len() && #[trigger] init[i] == (key, v);
                    assert(es[i] == (key, v));
                },
                None => {
                    assert forall|i: int| 0 <= i < es.len() implies (#[trigger] es[i]).0
                        != key by {
                        if i < init.len() {
                            assert(init[i] == es[i]);
                        }
                    }
                },
            }
        }
    }
}

/// Among rising keys the one place that has the key is what is found.
pub proof fn lemma_lookup_at(es: Seq<EntryView>, i: int)
    requires
        keys_sorted(es),
        0 <= i < es.len(),
    ensures
        lookup(es, es[i].0) == Some(es[i].1),
{
    lemma_lookup(es, es[i].0);
    match lookup(es, es[i].0) {
        Some(v) => {
            let j = choose|j: int| 0 <= j < es.len() && #[trigger] es[j] == (es[i].0, v);
            lemma_lex_total(es[i].0, es[j].0);
            if i < j {
                assert(lex_lt(es[i].0, es[j].0));
            } else if j < i {
                assert(lex_lt(es[j].0, es[i].0));
            }
        },
        None => {},
    }
}

impl LeafNode {
    /// A leaf without entries.
    #[must_use]
    pub fn new(namespace: Namespace) -> (r: LeafNode)
        ensures
            r@ == (LeafView { namespace, entries: Seq::<EntryView>::empty() }),
    {
        let r = LeafNode { namespace, entries: Vec::new() };
        assert(r@.entries =~= Seq::<EntryView>::empty());
        r
    }

    /// Size of the encoding.
    #[must_use]
    pub fn encoded_len(&self) -> (r: usize)
        requires
            leaf_len(self@.entries) <= usize::MAX,
        ensures
            r == leaf_len(self@.entries),
    {
        let mut n: usize = NODE_HEADER_LEN;
        let mut i: usize = 0;
        let ghost es = self@.entries;
        assert(es.take(0) =~= Seq::<EntryView>::empty());
        while i < self.entries.len()
            invariant
                i <= self.entries@.len(),
                es == entries_view(self.entries@),
                leaf_len(es) <= usize::MAX,
                n == leaf_len(es.take(i as int)),
            decreases self.entries@.len() - i,
        {
            let k: usize = self.entries[i].0.len();
            let v: usize = self.entries[i].1.len();
            proof {
                assert(es.take(i + 1) =~= es.take(i as int).push(es[i as int]));
                lemma_leaf_len_push(es.take(i as int), es[i as int]);
                lemma_leaf_len_take(es, i + 1);
            }
            n = n + (2 + k + 4 + v);
            i = i + 1;
        }
        assert(es.take(i as int) =~= es);
        n
    }

    /// The size of the encoding, unless it would not fit in a chunk.
    fn capped_len(&self) -> (r: Option<usize>)
        ensures
            r is Some <==> leaf_len(self@.entries) <= PAYLOAD_CAP,
            r is Some ==> r->0 == leaf_len(self@.entries),
    {
        let mut n: usize = NODE_HEADER_LEN;
        let mut i: usize = 0;
        let ghost es = self@.entries;
        assert(es.take(0) =~= Seq::<EntryView>::empty());
        while i < self.entries.len()
            invariant
                i <= self.entries@.len(),
                es == entries_view(self.entries@),
                n <= PAYLOAD_CAP,
                n == leaf_len(es.take(i as int)),
            decreases self.entries@.len() - i,
        {
            let k: usize = self.entries[i].0.len();
            let v: usize = self.entries[i].1.len();
            proof {
                assert(es.take(i + 1) =~= es.take(i as int).push(es[i as int]));
                lemma_leaf_len_push(es.take(i as int), es[i as int]);
                lemma_leaf_len_take(es, i + 1);
            }
            if k > PAYLOAD_CAP || v > PAYLOAD_CAP || n + (2 + k + 4 + v) > PAYLOAD_CAP {
                return None;
            }
            n = n + (2 + k + 4 + v);
            i = i + 1;
        }
        assert(es.take(i as int) =~= es);
        Some(n)
    }

    /// The encoding. Refused if it would not fit in a chunk, or at the first
    /// entry whose key or value has an illegal length.
    pub fn encode(&self) -> (r: Result<Vec<u8>, Error>)
        ensures
            agrees(r, leaf_encode(self@)),
    {
        let total: usize = match self.capped_len() {
            Some(n) => n,
            None => {
                return Err(Error::Malformed("leaf node would exceed PAYLOAD_CAP"));
            },
        };
        let ghost es = self@.entries;
        let ghost head = seq![0u8, self.namespace.0] + le_bytes(es.len(), 2);
        let mut buf: Vec<u8> = Vec::with_capacity(total);
        buf.push(NODE_TYPE_LEAF);
        buf.push(self.namespace.0);
        push_le(&mut buf, self.entries.len() as u64, 2);
        assert(buf@ =~= head);
        assert(es.take(0) =~= Seq::<EntryView>::empty());
        assert(head + cat(leaf_enc(), es.take(0)) =~= head);
        let mut i: usize = 0;
        while i < self.entries.len()
            invariant
                i <= self.entries@.len(),
                es == entries_view(self.entries@),
                self@.entries == es,
                leaf_len(es) <= PAYLOAD_CAP,
                buf@ == head + cat(leaf_enc(), es.take(i as int)),
                leaf_fault(es.take(i as int)) is None,
            decreases self.entries@.len() - i,
        {
            let k: &Vec<u8> = &self.entries[i].0;
            let v: &Vec<u8> = &self.entries[i].1;
            proof {
                let next = es.take(i + 1);
                assert(next =~= es.take(i as int).push(es[i as int]));
                assert(next.drop_last() =~= es.take(i as int));
                lemma_cat_push(leaf_enc(), es.take(i as int), es[i as int]);
                if leaf_entry_fault(es[i as int]) is Some {
                    lemma_leaf_fault_prefix(es, i as int);
                }
            }
            if k.len() == 0 || k.len() > MAX_KEY_LEN {
                return Err(Error::Malformed("invalid key length"));
            }
            if v.len() > MAX_VALUE_LEN {
                return Err(Error::Malformed("value exceeds MAX_VALUE_LEN"));
            }
            let ghost before = buf@;
            push_le(&mut buf, k.len() as u64, 2);
            buf.extend_from_slice(k.as_slice());
            push_le(&mut buf, v.len() as u64, 4);
            buf.extend_from_slice(v.as_slice());
            assert(buf@ =~= before + leaf_entry_bytes(es[i as int]));
            assert(buf@ =~= head + cat(leaf_enc(), es.take(i + 1)));
            i = i + 1;
        }
        assert(es.take(i as int) =~= es);
        assert(buf@ =~= leaf_bytes(self@));
        Ok(buf)
    }

    /// The leaf that `bytes` encode. Where they encode none, what has been read
    /// of them by then is cleared.
    pub fn decode(bytes: &[u8]) -> (r: Result<LeafNode, Error>)
        ensures
            agrees(r, leaf_decode(bytes@)),
    {
        let mut page = WipedPairs::new(Vec::new());
        match Self::gather(bytes, &mut page) {
            Ok(namespace) => Ok(LeafNode { namespace, entries: page.take() }),
            Err(e) => {
                page.wipe();
                Err(e)
            },
        }
    }

    /// Reads the entries of the leaf that `bytes` encode onto an empty page, and
    /// gives its namespace.
    fn gather(bytes: &[u8], page: &mut WipedPairs) -> (r: Result<Namespace, Error>)
        requires
            old(page).0@.len() == 0,
        ensures
            match r {
                Ok(namespace) => leaf_decode(bytes@) == Ok::<LeafView, Error>(
                    LeafView { namespace, entries: entries_view(final(page).0@) },
                ),
                Err(e) => leaf_decode(bytes@) == Err::<LeafView, Error>(e),
            },
    {
        if bytes.len() < NODE_HEADER_LEN || bytes[0] != NODE_TYPE_LEAF {
            return Err(Error::Malformed("not a leaf node"));
        }
        let namespace = Namespace(bytes[1]);
        let num: usize = u16_at(bytes, 2) as usize;
        if num * 7 > bytes.len() - NODE_HEADER_LEN {
            return Err(Error::Malformed("leaf count exceeds payload bound"));
        }
        let mut off: usize = NODE_HEADER_LEN;
        let mut i: usize = 0;
        let ghost b = bytes@;
        proof {
            let whole = parse_many(leaf_item(), b, 4, num as nat);
            assert(entries_view(page.0@) =~= Seq::<EntryView>::empty());
            if let Ok((es, end)) = whole {
                assert(Seq::<EntryView>::empty() + es =~= es);
            }
        }
        while i < num
            invariant
                b == bytes@,
                i <= num,
                off <= bytes.len(),
                num <= 0xffff,
                num as nat == le_value(b.subrange(2, 4)),
                b.len() >= NODE_HEADER_LEN,
                b[0] == 0,
                num * 7 <= b.len() - NODE_HEADER_LEN,
                parse_many(leaf_item(), b, 4, num as nat) == prepend(
                    entries_view(page.0@),
                    parse_many(leaf_item(), b, off as int, (num - i) as nat),
                ),
            decreases num - i,
        {
            let ghost at = off as int;
            if bytes.len() - off < 2 {
                return Err(Error::Malformed("leaf truncated at key_len"));
            }
            let klen: usize = u16_at(bytes, off) as usize;
            off = off + 2;
            if klen == 0 || klen > MAX_KEY_LEN {
                return Err(Error::Malformed("invalid leaf key length"));
            }
            if bytes.len() - off < klen + 4 {
                return Err(Error::Malformed("leaf truncated at key/value_len"));
            }
            let key_at: usize = off;
            off = off + klen;
            let vlen: usize = u32_at(bytes, off) as usize;
            off = off + 4;
            if vlen > MAX_VALUE_LEN {
                return Err(Error::Malformed("invalid leaf value length"));
            }
            if bytes.len() - off < vlen {
                return Err(Error::Malformed("leaf truncated at value"));
            }
            let key = copy_of(&bytes[key_at..key_at + klen]);
            let value = copy_of(&bytes[off..off + vlen]);
            off = off + vlen;
            proof {
                let x = (key@, value@);
                assert(leaf_item()(b, at) == Ok::<(EntryView, int), Error>((x, off as int)));
                lemma_prepend_step(
                    entries_view(page.0@),
                    x,
                    parse_many(leaf_item(), b, off as int, (num - i - 1) as nat),
                );
            }
            let ghost had = entries_view(page.0@);
            let ghost x = (key@, value@);
            page.0.push((key, value));
            assert(entries_view(page.0@) =~= had.push(x));
            i = i + 1;
        }
        let ghost es = entries_view(page.0@);
        assert(es + Seq::<EntryView>::empty() =~= es);
        assert(parse_many(leaf_item(), b, 4, num as nat) == Ok::<(Seq<EntryView>, int), Error>(
            (es, off as int),
        ));
        if off != bytes.len() {
            return Err(Error::Malformed("leaf payload trailing bytes after last entry"));
        }
        if !entries_rise(&page.0) {
            return Err(Error::Malformed("leaf entries not sorted"));
        }
        Ok(namespace)
    }

    /// The value stored under `key`, found by binary search. In a leaf whose
    /// keys rise it is found whenever it is there.
    #[must_use]
    pub fn get(&self, key: &[u8]) -> (r: Option<&[u8]>)
        ensures
            r matches Some(v) ==> exists|i: int|
                0 <= i < self@.entries.len() && #[trigger] self@.entries[i] == (key@, v@),
            keys_sorted(self@.entries) ==> match r {
                Some(v) => lookup(self@.entries, key@) == Some(v@),
                None => lookup(self@.entries, key@) is None,
            },
    {
        let ghost es = self@.entries;
        let mut lo: usize = 0;
        let mut hi: usize = self.entries.len();
        while lo < hi
            invariant
                lo <= hi <= self.entries@.len(),
                es == self@.entries,
                es == entries_view(self.entries@),
                keys_sorted(es) ==> forall|i: int|
                    0 <= i < lo ==> lex_lt((#[trigger] es[i]).0, key@),
                keys_sorted(es) ==> forall|i: int|
                    hi <= i < es.len() ==> lex_lt(key@, (#[trigger] es[i]).0),
            decreases hi - lo,
        {
            let mid: usize = lo + (hi - lo) / 2;
            let k = self.entries[mid].0.as_slice();
            proof {
                lemma_lex_total(k@, key@);
                assert(es[mid as int].0 == k@);
                if keys_sorted(es) {
                    assert forall|i: int| 0 <= i < mid implies lex_lt(
                        (#[trigger] es[i]).0,
                        k@,
                    ) by {
                    }
                    assert forall|i: int| mid < i < es.len() implies lex_lt(
                        k@,
                        (#[trigger] es[i]).0,
                    ) by {
                    }
                }
            }
            if bytes_lt(k, key) {
                proof {
                    assert forall|i: int| keys_sorted(es) && 0 <= i < mid implies lex_lt(
                        (#[trigger] es[i]).0,
                        key@,
                    ) by {
                        lemma_lex_trans(es[i].0, k@, key@);
                    }
                }
                lo = mid + 1;
            } else if bytes_lt(key, k) {
                proof {
                    assert forall|i: int| keys_sorted(es) && mid < i < es.len() implies lex_lt(
                        key@,
                        (#[trigger] es[i]).0,
                    ) by {
                        lemma_lex_trans(key@, k@, es[i].0);
                    }
                }
                hi = mid;
            } else {
                assert(es[mid as int] == (key@, self.entries[mid as int].1@));
                proof {
                    if keys_sorted(es) {
                        lemma_lookup_at(es, mid as int);
                    }
                }
                return Some(self.entries[mid].1.as_slice());
            }
        }
        proof {
            if keys_sorted(es) {
                assert forall|i: int| 0 <= i < es.len() implies (#[trigger] es[i]).0 != key@ by {
                    lemma_lex_total(es[i].0, key@);
                }
                lemma_lookup(es, key@);
            }
        }
        None
    }
}

/// A faulty entry after faultless ones is the first fault.
proof fn lemma_leaf_fault_prefix(es: Seq<EntryView>, i: int)
    requires
        0 <= i < es.len(),
        leaf_fault(es.take(i)) is None,
        leaf_entry_fault(es[i]) is Some,
    ensures
        leaf_fault(es) == leaf_entry_fault(es[i]),
    decreases es.len(),
{
    if i == es.len() - 1 {
        assert(es.drop_last() =~= es.take(i));
    } else {
        let init = es.drop_last();
        assert(init.take(i) =~= es.take(i));
        lemma_leaf_fault_prefix(init, i);
    }
}

/// Do the keys rise strictly?
fn entries_rise(entries: &Vec<(Vec<u8>, Vec<u8>)>) -> (r: bool)
    ensures
        r == keys_sorted(entries_view(entries@)),
{
    let ghost es = entries_view(entries@);
    let mut i: usize = 1;
    while i < entries.len()
        invariant
            1 <= i,
            es == entries_view(entries@),
            es.len() > 0 ==> i <= es.len(),
            forall|j: int, k: int|
                0 <= j < k < i && k < es.len() ==> lex_lt(
                    (#[trigger] es[j]).0,
                    (#[trigger] es[k]).0,
                ),
        decreases entries@.len() - i,
    {
        if !bytes_lt(entries[i - 1].0.as_slice(), entries[i].0.as_slice()) {
            assert(!lex_lt(es[i - 1].0, es[i as int].0));
            return false;
        }
        assert forall|j: int, k: int| 0 <= j < k < i + 1 && k < es.len() implies lex_lt(
            (#[trigger] es[j]).0,
            (#[trigger] es[k]).0,
        ) by {
            if k == i && j < i - 1 {
                lemma_lex_trans(es[j].0, es[i - 1].0, es[k].0);
            }
        }
        i = i + 1;
    }
    true
}

// ---------------------------------------------------------------------------
// Internal-node encoding
// ---------------------------------------------------------------------------

/// Bytes one child adds to an internal node.
pub open spec fn child_cost(first_key: Seq<u8>) -> nat {
    42 + first_key.len()
}

/// The encoding of one child.
pub open spec fn child_bytes(c: ChildView) -> Seq<u8> {
    le_bytes(c.first_key.len(), 2) + c.first_key + le_bytes(c.child_slot as nat, 8) + c.child_hash
}

/// `child_bytes` as a value.
pub open spec fn child_enc() -> spec_fn(ChildView) -> Seq<u8> {
    |c: ChildView| child_bytes(c)
}

/// Reads one child of an internal node.
pub open spec fn parse_child(b: Seq<u8>, off: int) -> Result<(ChildView, int), Error> {
    if b.len() < off + 2 {
        Err(Error::Malformed("internal truncated at first_key_len"))
    } else {
        let klen = le_value(b.subrange(off, off + 2));
        let at_slot = off + 2 + klen;
        if klen == 0 || klen > MAX_KEY_LEN {
            Err(Error::Malformed("invalid internal first_key length"))
        } else if b.len() < at_slot + 8 + 32 {
            Err(Error::Malformed("internal truncated at child entry"))
        } else {
            Ok(
                (
                    ChildView {
                        first_key: b.subrange(off + 2, at_slot),
                        child_slot: le_value(b.subrange(at_slot, at_slot + 8)) as u64,
                        child_hash: b.subrange(at_slot + 8, at_slot + 40),
                    },
                    at_slot + 40,
                ),
            )
        }
    }
}

/// `parse_child` as a value.
pub open spec fn child_item() -> spec_fn(Seq<u8>, int) -> Result<(ChildView, int), Error> {
    |b: Seq<u8>, off: int| parse_child(b, off)
}

/// A first key of legal length.
pub open spec fn legal_key(k: Seq<u8>) -> bool {
    0 < k.len() <= MAX_KEY_LEN
}

/// A child that can be written: a legal first key and a 32-byte hash.
pub open spec fn legal_child(c: ChildView) -> bool {
    legal_key(c.first_key) && c.child_hash.len() == 32
}

/// Every first key has a legal length.
pub open spec fn child_keys_legal(cs: Seq<ChildView>) -> bool {
    forall|i: int| 0 <= i < cs.len() ==> legal_key((#[trigger] cs[i]).first_key)
}

/// Size of the encoding of an internal node with these children.
pub open spec fn internal_len(cs: Seq<ChildView>) -> nat
    decreases cs.len(),
{
    if cs.len() == 0 {
        NODE_HEADER_LEN as nat
    } else {
        internal_len(cs.drop_last()) + child_cost(cs.last().first_key)
    }
}

/// The bytes of an internal node.
pub open spec fn internal_bytes(n: InternalView) -> Seq<u8> {
    seq![1u8, n.namespace.0] + le_bytes(n.children.len(), 2) + cat(child_enc(), n.children)
}

/// The encoding of an internal node, or why it has none.
pub open spec fn internal_encode(n: InternalView) -> Result<Seq<u8>, Error> {
    if n.children.len() == 0 {
        Err(Error::Malformed("internal node has zero children"))
    } else if internal_len(n.children) > PAYLOAD_CAP {
        Err(Error::IndexFull)
    } else if !child_keys_legal(n.children) {
        Err(Error::Malformed("invalid first_key length"))
    } else {
        Ok(internal_bytes(n))
    }
}

/// The internal node that the bytes encode, or why they encode none.
pub open spec fn internal_decode(b: Seq<u8>) -> Result<InternalView, Error> {
    if b.len() < NODE_HEADER_LEN || b[0] != 1 {
        Err(Error::Malformed("not an internal node"))
    } else {
        let num = le_value(b.subrange(2, 4));
        if num == 0 {
            Err(Error::Malformed("internal node has zero children"))
        } else if num * 43 > b.len() - NODE_HEADER_LEN {
            Err(Error::Malformed("internal count exceeds payload bound"))
        } else {
            match parse_many(child_item(), b, NODE_HEADER_LEN as int, num) {
                Err(e) => Err(e),
                Ok((cs, end)) => if end != b.len() {
                    Err(Error::Malformed("internal payload trailing bytes after last child"))
                } else if !children_sorted(cs) {
                    Err(Error::Malformed("internal children not sorted"))
                } else {
                    Ok(InternalView { namespace: Namespace(b[1]), children: cs })
                },
            }
        }
    }
}

/// Adding a child adds its cost.
pub proof fn lemma_internal_len_push(cs: Seq<ChildView>, c: ChildView)
    ensures
        internal_len(cs.push(c)) == internal_len(cs) + child_cost(c.first_key),
{
    assert(cs.push(c).drop_last() =~= cs);
}

/// An internal node is at least as long as any of its prefixes, and has at
/// least 42 bytes per child.
pub proof fn lemma_internal_len_take(cs: Seq<ChildView>, n: int)
    requires
        0 <= n <= cs.len(),
    ensures
        internal_len(cs.take(n)) <= internal_len(cs),
        internal_len(cs) >= 4 + 42 * cs.len(),
    decreases cs.len(),
{
    if cs.len() > 0 {
        let init = cs.drop_last();
        if n < cs.len() {
            lemma_internal_len_take(init, n);
            assert(init.take(n) =~= cs.take(n));
        } else {
            lemma_internal_len_take(init, init.len() as int);
            assert(cs.take(n) =~= cs);
        }
    } else {
        assert(cs.take(n) =~= cs);
    }
}

/// The encoding of children is as long as `internal_len` says.
pub proof fn lemma_internal_len_is(cs: Seq<ChildView>)
    requires
        forall|i: int| 0 <= i < cs.len() ==> (#[trigger] cs[i]).child_hash.len() == 32,
    ensures
        internal_len(cs) == NODE_HEADER_LEN + cat(child_enc(), cs).len(),
    decreases cs.len(),
{
    if cs.len() > 0 {
        let c = cs.last();
        assert(c == cs[cs.len() - 1]);
        lemma_le_bytes_len(c.first_key.len(), 2);
        lemma_le_bytes_len(c.child_slot as nat, 8);
        assert forall|i: int| 0 <= i < cs.drop_last().len() implies (
        #[trigger] cs.drop_last()[i]).child_hash.len() == 32 by {
            assert(cs.drop_last()[i] == cs[i]);
        }
        lemma_internal_len_is(cs.drop_last());
    }
}

/// A child that can be written is read back.
proof fn lemma_child_reads_back(c: ChildView)
    requires
        legal_child(c),
    ensures
        reads_back(child_item(), child_enc(), c),
{
    let s = child_bytes(c);
    lemma_pow256_widths();
    lemma_le_value_of_bytes(c.first_key.len(), 2);
    lemma_le_value_of_bytes(c.child_slot as nat, 8);
    let k = c.first_key.len() as int;
    assert(s.len() == 42 + k);
    assert forall|b: Seq<u8>, off: int|
        0 <= off && off + s.len() <= b.len() && b.subrange(off, off + s.len())
            == s implies #[trigger] child_item()(b, off) == Ok::<(ChildView, int), Error>(
        (c, off + s.len()),
    ) by {
        assert forall|i: int| 0 <= i < s.len() implies b[off + i] == #[trigger] s[i] by {
            assert(b.subrange(off, off + s.len())[i] == s[i]);
        }
        assert(b.subrange(off, off + 2) =~= le_bytes(c.first_key.len(), 2)) by {
            assert forall|i: int| 0 <= i < 2 implies b[off + i] == le_bytes(
                c.first_key.len(),
                2,
            )[i] by {
                assert(s[i] == le_bytes(c.first_key.len(), 2)[i]);
            }
        }
        assert(b.subrange(off + 2, off + 2 + k) =~= c.first_key) by {
            assert forall|i: int| 0 <= i < k implies b[off + 2 + i] == c.first_key[i] by {
                assert(s[2 + i] == c.first_key[i]);
            }
        }
        assert(b.subrange(off + 2 + k, off + 10 + k) =~= le_bytes(c.child_slot as nat, 8)) by {
            assert forall|i: int| 0 <= i < 8 implies b[off + 2 + k + i] == le_bytes(
                c.child_slot as nat,
                8,
            )[i] by {
                assert(s[2 + k + i] == le_bytes(c.child_slot as nat, 8)[i]);
            }
        }
        assert(b.subrange(off + 10 + k, off + 42 + k) =~= c.child_hash) by {
            assert forall|i: int| 0 <= i < 32 implies b[off + 10 + k + i] == c.child_hash[i] by {
                assert(s[10 + k + i] == c.child_hash[i]);
            }
        }
    }
}

/// Only encodings of children are read.
proof fn lemma_child_reads_only(b: Seq<u8>)
    ensures
        reads_only(child_item(), child_enc(), b),
        forall|off: int|
            0 <= off ==> match #[trigger] child_item()(b, off) {
                Ok((c, _)) => legal_child(c),
                Err(_) => true,
            },
{
    lemma_pow256_widths();
    assert forall|off: int| 0 <= off <= b.len() implies match #[trigger] child_item()(b, off) {
        Ok((x, end)) => off <= end <= b.len() && child_enc()(x) == b.subrange(off, end),
        Err(_) => true,
    } by {
        if let Ok((x, end)) = parse_child(b, off) {
            let kb = b.subrange(off, off + 2);
            let k = le_value(kb) as int;
            let sb = b.subrange(off + 2 + k, off + 10 + k);
            lemma_le_bytes_of_value(kb);
            lemma_le_bytes_of_value(sb);
            assert(child_bytes(x) =~= b.subrange(off, end));
        }
    }
}

/// What a parse of children gives can be written.
proof fn lemma_parsed_children_legal(b: Seq<u8>, off: int, n: nat)
    requires
        0 <= off <= b.len(),
    ensures
        match parse_many(child_item(), b, off, n) {
            Ok((cs, _)) => forall|i: int| 0 <= i < cs.len() ==> legal_child(#[trigger] cs[i]),
            Err(_) => true,
        },
    decreases n,
{
    lemma_child_reads_only(b);
    if n > 0 {
        if let Ok((x, mid)) = child_item()(b, off) {
            lemma_parsed_children_legal(b, mid, (n - 1) as nat);
        }
    }
}

/// Decoding undoes encoding: an internal node whose first keys rise comes
/// back as it was.
pub proof fn law_internal_decode_of_encode(n: InternalView)
    requires
        children_sorted(n.children),
        forall|i: int| 0 <= i < n.children.len() ==> (#[trigger] n.children[i]).child_hash.len()
            == 32,
        internal_encode(n) is Ok,
    ensures
        internal_decode(internal_encode(n)->Ok_0) == Ok::<InternalView, Error>(n),
        internal_encode(n)->Ok_0.len() == internal_len(n.children),
{
    let b = internal_bytes(n);
    let k = n.children.len();
    lemma_internal_len_take(n.children, k as int);
    lemma_internal_len_is(n.children);
    lemma_pow256_widths();
    lemma_le_value_of_bytes(k, 2);
    assert(b.subrange(2, 4) =~= le_bytes(k, 2));
    assert(b.subrange(4, b.len() as int) =~= cat(child_enc(), n.children));
    assert forall|i: int| 0 <= i < k implies reads_back(
        child_item(),
        child_enc(),
        #[trigger] n.children[i],
    ) by {
        lemma_child_reads_back(n.children[i]);
    }
    lemma_parse_cat(child_item(), child_enc(), n.children, b, 4);
    lemma_internal_min_len(n.children);
}

/// Children with legal keys take at least 43 bytes each.
proof fn lemma_internal_min_len(cs: Seq<ChildView>)
    requires
        child_keys_legal(cs),
    ensures
        internal_len(cs) >= 4 + 43 * cs.len(),
    decreases cs.len(),
{
    if cs.len() > 0 {
        assert(legal_key(cs[cs.len() - 1].first_key));
        assert forall|i: int| 0 <= i < cs.drop_last().len() implies legal_key(
            (#[trigger] cs.drop_last()[i]).first_key,
        ) by {
            assert(cs.drop_last()[i] == cs[i]);
        }
        lemma_internal_min_len(cs.drop_last());
    }
}

/// Every child of a decoded internal node can be written, the first keys
/// rise, and there is at least one.
pub proof fn lemma_internal_decode_valid(b: Seq<u8>)
    requires
        internal_decode(b) is Ok,
    ensures
        children_sorted(internal_decode(b)->Ok_0.children),
        internal_decode(b)->Ok_0.children.len() > 0,
        forall|i: int|
            0 <= i < internal_decode(b)->Ok_0.children.len() ==> legal_child(
                #[trigger] internal_decode(b)->Ok_0.children[i],
            ),
        internal_len(internal_decode(b)->Ok_0.children) == b.len(),
{
    let n = internal_decode(b)->Ok_0;
    let num = le_value(b.subrange(2, 4));
    lemma_child_reads_only(b);
    lemma_cat_of_parse(child_item(), child_enc(), b, 4, num);
    lemma_parsed_children_legal(b, 4, num);
    lemma_internal_len_is(n.children);
}

/// Encoding undoes decoding: an internal node has one encoding.
pub proof fn law_internal_encode_of_decode(b: Seq<u8>)
    requires
        internal_decode(b) is Ok,
        b.len() <= PAYLOAD_CAP,
    ensures
        internal_encode(internal_decode(b)->Ok_0) == Ok::<Seq<u8>, Error>(b),
{
    let n = internal_decode(b)->Ok_0;
    let num = le_value(b.subrange(2, 4));
    lemma_internal_decode_valid(b);
    lemma_child_reads_only(b);
    lemma_cat_of_parse(child_item(), child_enc(), b, 4, num);
    lemma_le_bytes_of_value(b.subrange(2, 4));
    assert(internal_bytes(n) =~= b);
}

/// Where the search for `key` goes among children: the last whose first key
/// is not after `key`, or the first if there is none.
pub open spec fn child_index(cs: Seq<ChildView>, key: Seq<u8>) -> int
    decreases cs.len(),
{
    if cs.len() <= 1 {
        0
    } else if lex_le(cs.last().first_key, key) {
        cs.len() - 1
    } else {
        child_index(cs.drop_last(), key)
    }
}

/// The child that the search goes to is the one whose range holds `key`.
pub proof fn lemma_child_index(cs: Seq<ChildView>, key: Seq<u8>)
    requires
        cs.len() > 0,
    ensures
        0 <= child_index(cs, key) < cs.len(),
        child_index(cs, key) > 0 ==> lex_le(cs[child_index(cs, key)].first_key, key),
        forall|j: int|
            child_index(cs, key) < j < cs.len() ==> lex_lt(key, (#[trigger] cs[j]).first_key),
    decreases cs.len(),
{
    if cs.len() > 1 && !lex_le(cs.last().first_key, key) {
        let init = cs.drop_last();
        lemma_child_index(init, key);
        assert forall|j: int| child_index(cs, key) < j < cs.len() implies lex_lt(
            key,
            (#[trigger] cs[j]).first_key,
        ) by {
            if j < init.len() {
                assert(init[j] == cs[j]);
            }
        }
    }
}

/// The index is the only one with that property.
pub proof fn lemma_child_index_unique(cs: Seq<ChildView>, key: Seq<u8>, r: int)
    requires
        0 <= r < cs.len(),
        r > 0 ==> lex_le(cs[r].first_key, key),
        forall|j: int| r < j < cs.len() ==> lex_lt(key, (#[trigger] cs[j]).first_key),
    ensures
        r == child_index(cs, key),
{
    lemma_child_index(cs, key);
    let c = child_index(cs, key);
    if r < c {
        assert(lex_lt(key, cs[c].first_key));
    } else if c < r {
        assert(lex_lt(key, cs[r].first_key));
    }
}

/// Do the first keys rise strictly?
fn children_rise(children: &Vec<ChildPointer>) -> (r: bool)
    ensures
        r == children_sorted(children_view(children@)),
{
    let ghost cs = children_view(children@);
    let mut i: usize = 1;
    while i < children.len()
        invariant
            1 <= i,
            cs == children_view(children@),
            cs.len() > 0 ==> i <= cs.len(),
            forall|j: int, k: int|
                0 <= j < k < i && k < cs.len() ==> lex_lt(
                    (#[trigger] cs[j]).first_key,
                    (#[trigger] cs[k]).first_key,
                ),
        decreases children@.len() - i,
    {
        if !bytes_lt(children[i - 1].first_key.as_slice(), children[i].first_key.as_slice()) {
            assert(!lex_lt(cs[i - 1].first_key, cs[i as int].first_key));
            return false;
        }
        assert forall|j: int, k: int| 0 <= j < k < i + 1 && k < cs.len() implies lex_lt(
            (#[trigger] cs[j]).first_key,
            (#[trigger] cs[k]).first_key,
        ) by {
            if k == i && j < i - 1 {
                lemma_lex_trans(cs[j].first_key, cs[i - 1].first_key, cs[k].first_key);
            }
        }
        i = i + 1;
    }
    true
}

impl InternalNode {
    /// An internal node without children.
    #[must_use]
    pub fn new(namespace: Namespace) -> (r: InternalNode)
        ensures
            r@ == (InternalView { namespace, children: Seq::<ChildView>::empty() }),
    {
        let r = InternalNode { namespace, children: Vec::new() };
        assert(r@.children =~= Seq::<ChildView>::empty());
        r
    }

    /// Size of the encoding.
    #[must_use]
    pub fn encoded_len(&self) -> (r: usize)
        requires
            internal_len(self@.children) <= usize::MAX,
        ensures
            r == internal_len(self@.children),
    {
        let mut n: usize = NODE_HEADER_LEN;
        let mut i: usize = 0;
        let ghost cs = self@.children;
        assert(cs.take(0) =~= Seq::<ChildView>::empty());
        while i < self.children.len()
            invariant
                i <= self.children@.len(),
                cs == children_view(self.children@),
                internal_len(cs) <= usize::MAX,
                n == internal_len(cs.take(i as int)),
            decreases self.children@.len() - i,
        {
            let k: usize = self.children[i].first_key.len();
            proof {
                assert(cs.take(i + 1) =~= cs.take(i as int).push(cs[i as int]));
                lemma_internal_len_push(cs.take(i as int), cs[i as int]);
                lemma_internal_len_take(cs, i + 1);
            }
            n = n + (2 + k + 8 + 32);
            i = i + 1;
        }
        assert(cs.take(i as int) =~= cs);
        n
    }

    /// The size of the encoding, unless it would not fit in a chunk.
    fn capped_len(&self) -> (r: Option<usize>)
        ensures
            r is Some <==> internal_len(self@.children) <= PAYLOAD_CAP,
            r is Some ==> r->0 == internal_len(self@.children),
    {
        let mut n: usize = NODE_HEADER_LEN;
        let mut i: usize = 0;
        let ghost cs = self@.children;
        assert(cs.take(0) =~= Seq::<ChildView>::empty());
        while i < self.children.len()
            invariant
                i <= self.children@.len(),
                cs == children_view(self.children@),
                n <= PAYLOAD_CAP,
                n == internal_len(cs.take(i as int)),
            decreases self.children@.len() - i,
        {
            let k: usize = self.children[i].first_key.len();
            proof {
                assert(cs.take(i + 1) =~= cs.take(i as int).push(cs[i as int]));
                lemma_internal_len_push(cs.take(i as int), cs[i as int]);
                lemma_internal_len_take(cs, i + 1);
            }
            if k > PAYLOAD_CAP || n + (2 + k + 8 + 32) > PAYLOAD_CAP {
                return None;
            }
            n = n + (2 + k + 8 + 32);
            i = i + 1;
        }
        assert(cs.take(i as int) =~= cs);
        Some(n)
    }

    /// The encoding. Refused without children, if it would not fit in a
    /// chunk, or if a first key has an illegal length.
    pub fn encode(&self) -> (r: Result<Vec<u8>, Error>)
        ensures
            agrees(r, internal_encode(self@)),
    {
        if self.children.len() == 0 {
            return Err(Error::Malformed("internal node has zero children"));
        }
        let total: usize = match self.capped_len() {
            Some(n) => n,
            None => {
                return Err(Error::IndexFull);
            },
        };
        let ghost cs = self@.children;
        let ghost head = seq![1u8, self.namespace.0] + le_bytes(cs.len(), 2);
        let mut buf: Vec<u8> = Vec::with_capacity(total);
        buf.push(NODE_TYPE_INTERNAL);
        buf.push(self.namespace.0);
        push_le(&mut buf, self.children.len() as u64, 2);
        assert(buf@ =~= head);
        assert(cs.take(0) =~= Seq::<ChildView>::empty());
        assert(head + cat(child_enc(), cs.take(0)) =~= head);
        let mut i: usize = 0;
        while i < self.children.len()
            invariant
                i <= self.children@.len(),
                cs == children_view(self.children@),
                self@.children == cs,
                cs.len() > 0,
                internal_len(cs) <= PAYLOAD_CAP,
                buf@ == head + cat(child_enc(), cs.take(i as int)),
                forall|j: int| 0 <= j < i ==> legal_key((#[trigger] cs[j]).first_key),
            decreases self.children@.len() - i,
        {
            let c: &ChildPointer = &self.children[i];
            proof {
                assert(cs.take(i + 1) =~= cs.take(i as int).push(cs[i as int]));
                lemma_cat_push(child_enc(), cs.take(i as int), cs[i as int]);
            }
            if c.first_key.len() == 0 || c.first_key.len() > MAX_KEY_LEN {
                assert(!legal_key(cs[i as int].first_key));
                return Err(Error::Malformed("invalid first_key length"));
            }
            let ghost before = buf@;
            push_le(&mut buf, c.first_key.len() as u64, 2);
            buf.extend_from_slice(c.first_key.as_slice());
            push_le(&mut buf, c.child_slot, 8);
            buf.extend_from_slice(c.child_hash.as_slice());
            assert(buf@ =~= before + child_bytes(cs[i as int]));
            assert(buf@ =~= head + cat(child_enc(), cs.take(i + 1)));
            i = i + 1;
        }
        assert(cs.take(i as int) =~= cs);
        assert(buf@ =~= internal_bytes(self@));
        Ok(buf)
    }

    /// The internal node that `bytes` encode.
    pub fn decode(bytes: &[u8]) -> (r: Result<InternalNode, Error>)
        ensures
            agrees(r, internal_decode(bytes@)),
    {
        if bytes.len() < NODE_HEADER_LEN || bytes[0] != NODE_TYPE_INTERNAL {
            return Err(Error::Malformed("not an internal node"));
        }
        let namespace = Namespace(bytes[1]);
        let num: usize = u16_at(bytes, 2) as usize;
        if num == 0 {
            return Err(Error::Malformed("internal node has zero children"));
        }
        if num * 43 > bytes.len() - NODE_HEADER_LEN {
            return Err(Error::Malformed("internal count exceeds payload bound"));
        }
        let mut children: Vec<ChildPointer> = Vec::with_capacity(num);
        let mut off: usize = NODE_HEADER_LEN;
        let mut i: usize = 0;
        let ghost b = bytes@;
        proof {
            let whole = parse_many(child_item(), b, 4, num as nat);
            assert(children_view(children@) =~= Seq::<ChildView>::empty());
            if let Ok((cs, end)) = whole {
                assert(Seq::<ChildView>::empty() + cs =~= cs);
            }
        }
        while i < num
            invariant
                b == bytes@,
                i <= num,
                0 < num <= 0xffff,
                off <= bytes.len(),
                num as nat == le_value(b.subrange(2, 4)),
                b.len() >= NODE_HEADER_LEN,
                b[0] == 1,
                num * 43 <= b.len() - NODE_HEADER_LEN,
                parse_many(child_item(), b, 4, num as nat) == prepend(
                    children_view(children@),
                    parse_many(child_item(), b, off as int, (num - i) as nat),
                ),
            decreases num - i,
        {
            let ghost at = off as int;
            if bytes.len() - off < 2 {
                return Err(Error::Malformed("internal truncated at first_key_len"));
            }
            let klen: usize = u16_at(bytes, off) as usize;
            off = off + 2;
            if klen == 0 || klen > MAX_KEY_LEN {
                return Err(Error::Malformed("invalid internal first_key length"));
            }
            if bytes.len() - off < klen + 8 + 32 {
                return Err(Error::Malformed("internal truncated at child entry"));
            }
            let first_key = copy_of(&bytes[off..off + klen]);
            off = off + klen;
            let child_slot: u64 = u64_at(bytes, off);
            off = off + 8;
            let child_hash: [u8; 32] = hash_at(bytes, off);
            off = off + 32;
            let child = ChildPointer { first_key, child_slot, child_hash };
            let ghost x = child@;
            proof {
                assert(child_item()(b, at) == Ok::<(ChildView, int), Error>((x, off as int)));
                lemma_prepend_step(
                    children_view(children@),
                    x,
                    parse_many(child_item(), b, off as int, (num - i - 1) as nat),
                );
            }
            let ghost had = children_view(children@);
            children.push(child);
            assert(children_view(children@) =~= had.push(x));
            i = i + 1;
        }
        let ghost cs = children_view(children@);
        assert(cs + Seq::<ChildView>::empty() =~= cs);
        assert(parse_many(child_item(), b, 4, num as nat) == Ok::<(Seq<ChildView>, int), Error>(
            (cs, off as int),
        ));
        if off != bytes.len() {
            return Err(Error::Malformed("internal payload trailing bytes after last child"));
        }
        if !children_rise(&children) {
            return Err(Error::Malformed("internal children not sorted"));
        }
        Ok(InternalNode { namespace, children })
    }

    /// Which child to descend to for `key`, by binary search: the last one
    /// whose first key is not after `key`, or the first.
    #[must_use]
    pub fn child_index_for(&self, key: &[u8]) -> (r: usize)
        ensures
            r == 0 || r < self@.children.len(),
            children_sorted(self@.children) ==> r == child_index(self@.children, key@),
    {
        let ghost cs = self@.children;
        let mut lo: usize = 0;
        let mut hi: usize = self.children.len();
        while lo < hi
            invariant
                lo <= hi <= self.children@.len(),
                cs == self@.children,
                cs == children_view(self.children@),
                children_sorted(cs) ==> forall|i: int|
                    0 <= i < lo ==> lex_le((#[trigger] cs[i]).first_key, key@),
                children_sorted(cs) ==> forall|i: int|
                    hi <= i < cs.len() ==> lex_lt(key@, (#[trigger] cs[i]).first_key),
            decreases hi - lo,
        {
            let mid: usize = lo + (hi - lo) / 2;
            let k = self.children[mid].first_key.as_slice();
            assert(cs[mid as int].first_key == k@);
            if bytes_lt(key, k) {
                proof {
                    if children_sorted(cs) {
                        assert forall|i: int| mid < i < cs.len() implies lex_lt(
                            key@,
                            (#[trigger] cs[i]).first_key,
                        ) by {
                            lemma_lex_trans(key@, k@, cs[i].first_key);
                        }
                    }
                }
                hi = mid;
            } else {
                proof {
                    if children_sorted(cs) {
                        assert forall|i: int| 0 <= i < mid implies lex_le(
                            (#[trigger] cs[i]).first_key,
                            key@,
                        ) by {
                            if lex_lt(key@, cs[i].first_key) {
                                lemma_lex_trans(key@, cs[i].first_key, k@);
                            }
                        }
                    }
                }
                lo = mid + 1;
            }
        }
        let r: usize = if lo == 0 {
            0
        } else {
            lo - 1
        };
        proof {
            if children_sorted(cs) && cs.len() > 0 {
                lemma_child_index_unique(cs, key@, r as int);
            }
        }
        r
    }
}

// ---------------------------------------------------------------------------
// Either kind of node
// ---------------------------------------------------------------------------

/// The encoding of a node, or why it has none.
pub open spec fn node_encode(n: NodeView) -> Result<Seq<u8>, Error> {
    match n {
        NodeView::Leaf(l) => leaf_encode(l),
        NodeView::Internal(i) => internal_encode(i),
    }
}

/// The node that the bytes encode, or why they encode none.
pub open spec fn node_decode(b: Seq<u8>) -> Result<NodeView, Error> {
    if b.len() < NODE_HEADER_LEN {
        Err(Error::Malformed("index node payload too short"))
    } else if b[0] == 0 {
        match leaf_decode(b) {
            Ok(l) => Ok(NodeView::Leaf(l)),
            Err(e) => Err(e),
        }
    } else if b[0] == 1 {
        match internal_decode(b) {
            Ok(i) => Ok(NodeView::Internal(i)),
            Err(e) => Err(e),
        }
    } else {
        Err(Error::Malformed("unknown index node type"))
    }
}

/// A node whose keys rise and whose hashes are 32 bytes long.
pub open spec fn node_ordered(n: NodeView) -> bool {
    match n {
        NodeView::Leaf(l) => keys_sorted(l.entries),
        NodeView::Internal(i) => children_sorted(i.children) && forall|j: int|
            0 <= j < i.children.len() ==> (#[trigger] i.children[j]).child_hash.len() == 32,
    }
}

/// Decoding undoes encoding, for either kind of node.
pub proof fn law_node_decode_of_encode(n: NodeView)
    requires
        node_ordered(n),
        node_encode(n) is Ok,
    ensures
        node_decode(node_encode(n)->Ok_0) == Ok::<NodeView, Error>(n),
{
    match n {
        NodeView::Leaf(l) => {
            law_leaf_decode_of_encode(l);
            assert(leaf_bytes(l)[0] == 0);
        },
        NodeView::Internal(i) => {
            law_internal_decode_of_encode(i);
            assert(internal_bytes(i)[0] == 1);
        },
    }
}

/// Encoding undoes decoding, for either kind of node: no two byte strings
/// decode to the same node.
pub proof fn law_node_encode_of_decode(b: Seq<u8>)
    requires
        node_decode(b) is Ok,
        b.len() <= PAYLOAD_CAP,
    ensures
        node_encode(node_decode(b)->Ok_0) == Ok::<Seq<u8>, Error>(b),
        node_ordered(node_decode(b)->Ok_0),
{
    if b[0] == 0 {
        law_leaf_encode_of_decode(b);
    } else {
        law_internal_encode_of_decode(b);
        lemma_internal_decode_valid(b);
    }
}

impl IndexNode {
    /// The encoding of the node.
    pub fn encode(&self) -> (r: Result<Vec<u8>, Error>)
        ensures
            agrees(r, node_encode(self@)),
    {
        match self {
            IndexNode::Leaf(l) => l.encode(),
            IndexNode::Internal(i) => i.encode(),
        }
    }

    /// The node that `bytes` encode: the first byte says of which kind.
    pub fn decode(bytes: &[u8]) -> (r: Result<IndexNode, Error>)
        ensures
            agrees(r, node_decode(bytes@)),
    {
        if bytes.len() < NODE_HEADER_LEN {
            return Err(Error::Malformed("index node payload too short"));
        }
        if bytes[0] == NODE_TYPE_LEAF {
            match LeafNode::decode(bytes) {
                Ok(l) => Ok(IndexNode::Leaf(l)),
                Err(e) => Err(e),
            }
        } else if bytes[0] == NODE_TYPE_INTERNAL {
            match InternalNode::decode(bytes) {
                Ok(i) => Ok(IndexNode::Internal(i)),
                Err(e) => Err(e),
            }
        } else {
            Err(Error::Malformed("unknown index node type"))
        }
    }

    /// The namespace that the node says it belongs to.
    pub fn namespace(&self) -> (r: Namespace)
        ensures
            r == self@.namespace(),
    {
        match self {
            IndexNode::Leaf(l) => l.namespace,
            IndexNode::Internal(i) => i.namespace,
        }
    }
}

// ---------------------------------------------------------------------------
// Where the cuts fall
// ---------------------------------------------------------------------------

/// Keeps boundary hashes apart from every other use of the hash:
/// `hidden-volume/index-boundary/v1`.
pub open spec fn boundary_domain() -> Seq<u8> {
    seq![
        0x68u8, 0x69, 0x64, 0x64, 0x65, 0x6e, 0x2d, 0x76, 0x6f, 0x6c, 0x75, 0x6d, 0x65, 0x2f, 0x69,
        0x6e, 0x64, 0x65, 0x78, 0x2d, 0x62, 0x6f, 0x75, 0x6e, 0x64, 0x61, 0x72, 0x79, 0x2f, 0x76,
        0x31,
    ]
}

/// The coin that decides whether an item with this key ends its node: the
/// first eight bytes of a hash over the domain, the level and the key.
pub open spec fn boundary_coin(level: u8, key: Seq<u8>) -> nat {
    le_value(blake3_digest(boundary_domain() + seq![level] + key).subrange(0, 8))
}

/// Does an item with this coin and cost end a node that it fills to `fill`?
/// True with probability `cost / (K * (PAYLOAD_CAP - fill))`.
pub open spec fn ends_node(coin: nat, cost: nat, fill: nat) -> bool {
    coin * (if fill <= PAYLOAD_CAP {
        (PAYLOAD_CAP - fill) as nat
    } else {
        0
    }) * 6 < cost * 0x1_0000_0000_0000_0000
}

/// The coin of an item: levels count from the leaves up, zero for a leaf.
pub fn boundary_hash(level: u8, key: &[u8]) -> (r: u64)
    ensures
        r as nat == boundary_coin(level, key@),
{
    let domain: [u8; 31] = [
        0x68, 0x69, 0x64, 0x64, 0x65, 0x6e, 0x2d, 0x76, 0x6f, 0x6c, 0x75, 0x6d, 0x65, 0x2f, 0x69,
        0x6e, 0x64, 0x65, 0x78, 0x2d, 0x62, 0x6f, 0x75, 0x6e, 0x64, 0x61, 0x72, 0x79, 0x2f, 0x76,
        0x31,
    ];
    let mut input: Vec<u8> = Vec::with_capacity(32);
    input.extend_from_slice(domain.as_slice());
    input.push(level);
    input.extend_from_slice(key);
    assert(domain@ =~= boundary_domain());
    assert(input@ =~= boundary_domain() + seq![level] + key@);
    let digest: [u8; 32] = blake3_of(input.as_slice());
    u64_at(digest.as_slice(), 0)
}

/// Does the item that brought a node to `fill` bytes end it?
pub fn is_boundary(hash: u64, cost: usize, fill: usize) -> (r: bool)
    ensures
        r == ends_node(hash as nat, cost as nat, fill as nat),
{
    let remaining: usize = if fill <= PAYLOAD_CAP {
        PAYLOAD_CAP - fill
    } else {
        0
    };
    let h: u128 = hash as u128;
    let rem: u128 = remaining as u128;
    let c: u128 = cost as u128;
    assert(h * rem <= 0xffff_ffff_ffff_ffff * 4040) by (nonlinear_arith)
        requires
            h <= 0xffff_ffff_ffff_ffff,
            rem <= 4040,
    ;
    let left: u128 = h * rem * BOUNDARY_HAZARD_K;
    let right: u128 = c * 0x1_0000_0000_0000_0000;
    left < right
}

/// Bytes one entry adds to a leaf.
pub fn leaf_entry_cost(key: &[u8], value: &[u8]) -> (r: usize)
    requires
        leaf_cost((key@, value@)) <= usize::MAX,
    ensures
        r == leaf_cost((key@, value@)),
{
    2 + key.len() + 4 + value.len()
}

/// Bytes one child adds to an internal node.
pub fn child_entry_cost(first_key: &[u8]) -> (r: usize)
    requires
        child_cost(first_key@) <= usize::MAX,
    ensures
        r == child_cost(first_key@),
{
    2 + first_key.len() + 8 + 32
}

/// A node that does not decode says nothing of a publish.
pub proof fn lemma_node_decode_plain(b: Seq<u8>)
    ensures
        node_decode(b) matches Err(e) ==> !(e is PublishUncertain),
{
    if b.len() >= NODE_HEADER_LEN {
        let num = le_value(b.subrange(2, 4));
        lemma_parse_plain(leaf_item(), b, NODE_HEADER_LEN as int, num);
        lemma_parse_plain(child_item(), b, NODE_HEADER_LEN as int, num);
    }
}

} // verus!
