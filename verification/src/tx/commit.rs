//! The commit record: one index root per namespace, and a hash over them.
//!
//! ```text
//! num_roots u16 LE
//! per root, by rising namespace:
//!   namespace u8 | kind u8 | index_slot u64 LE | payload_hash [32]
//! tx_root_hash [32]
//! ```

use vstd::prelude::*;

use crate::bytes::{
    hash_at, le_bytes, le_value, lemma_le_bytes_len, lemma_le_bytes_of_value,
    lemma_le_value_of_bytes, lemma_pow256_widths, push_le, u16_at, u64_at,
};
use crate::chunk::PAYLOAD_CAP;
use crate::codec::{
    cat, lemma_cat_of_parse, lemma_cat_push, lemma_parse_cat, lemma_prepend_step, parse_many,
    prepend, reads_back, reads_only,
};
use crate::error::{agrees, Error};
use crate::space::index::Namespace;

verus! {

/// Most namespaces that one commit record can list.
pub const MAX_NAMESPACES_PER_TX: usize = (PAYLOAD_CAP - 2 - 32) / (1 + 1 + 8 + 32);

/// What a namespace holds.
#[derive(Debug, Clone, Copy, PartialEq, Eq, Structural)]
pub enum NamespaceKind {
    /// Keys and values.
    Kv,
    /// Numbered records, kept in compressed batches.
    Log,
}

/// The byte that stands for a kind on disk.
pub open spec fn kind_byte(k: NamespaceKind) -> u8 {
    match k {
        NamespaceKind::Kv => 0,
        NamespaceKind::Log => 1,
    }
}

/// The kind that a byte stands for.
pub open spec fn kind_of_byte(b: u8) -> Result<NamespaceKind, Error> {
    if b == 0 {
        Ok(NamespaceKind::Kv)
    } else if b == 1 {
        Ok(NamespaceKind::Log)
    } else {
        Err(Error::Malformed("unknown namespace kind discriminant"))
    }
}

impl NamespaceKind {
    /// The byte that stands for this kind on disk.
    #[must_use]
    pub fn as_u8(self) -> (r: u8)
        ensures
            r == kind_byte(self),
    {
        match self {
            NamespaceKind::Kv => 0,
            NamespaceKind::Log => 1,
        }
    }

    /// The kind that `b` stands for.
    pub fn from_u8(b: u8) -> (r: Result<NamespaceKind, Error>)
        ensures
            r == kind_of_byte(b),
    {
        match b {
            0 => Ok(NamespaceKind::Kv),
            1 => Ok(NamespaceKind::Log),
            _ => Err(Error::Malformed("unknown namespace kind discriminant")),
        }
    }
}

/// Where the index of one namespace starts.
#[derive(Debug, Clone, Copy, PartialEq, Eq)]
pub struct IndexRoot {
    pub namespace: Namespace,
    pub kind: NamespaceKind,
    pub index_slot: u64,
    pub payload_hash: [u8; 32],
}

/// An index root, with its hash as a sequence.
pub struct RootView {
    pub namespace: Namespace,
    pub kind: NamespaceKind,
    pub index_slot: u64,
    pub payload_hash: Seq<u8>,
}

impl View for IndexRoot {
    type V = RootView;

    open spec fn view(&self) -> RootView {
        RootView {
            namespace: self.namespace,
            kind: self.kind,
            index_slot: self.index_slot,
            payload_hash: self.payload_hash@,
        }
    }
}

/// Index roots, with their hashes as sequences.
pub open spec fn roots_view(v: Seq<IndexRoot>) -> Seq<RootView> {
    Seq::new(v.len(), |i: int| v[i]@)
}

/// The record of one commit.
#[derive(Debug, PartialEq, Eq)]
pub struct CommitPayload {
    /// One root per namespace that has entries, by rising namespace.
    pub roots: Vec<IndexRoot>,
    /// Hash over the roots' own hashes.
    pub tx_root_hash: [u8; 32],
}

/// A commit record, with its bytes as sequences.
pub struct CommitView {
    pub roots: Seq<RootView>,
    pub tx_root_hash: Seq<u8>,
}

impl View for CommitPayload {
    type V = CommitView;

    open spec fn view(&self) -> CommitView {
        CommitView { roots: roots_view(self.roots@), tx_root_hash: self.tx_root_hash@ }
    }
}

/// Namespaces rise strictly.
pub open spec fn roots_sorted(rs: Seq<RootView>) -> bool {
    forall|i: int, j: int|
        0 <= i < j < rs.len() ==> (#[trigger] rs[i]).namespace.0 < (#[trigger] rs[j]).namespace.0
}

/// The encoding of one root.
pub open spec fn root_bytes(r: RootView) -> Seq<u8> {
    seq![r.namespace.0, kind_byte(r.kind)] + le_bytes(r.index_slot as nat, 8) + r.payload_hash
}

/// `root_bytes` as a value.
pub open spec fn root_enc() -> spec_fn(RootView) -> Seq<u8> {
    |r: RootView| root_bytes(r)
}

/// Reads one root.
pub open spec fn parse_root(b: Seq<u8>, off: int) -> Result<(RootView, int), Error> {
    if b.len() < off + 42 {
        Err(Error::Malformed("commit payload truncated"))
    } else {
        match kind_of_byte(b[off + 1]) {
            Err(e) => Err(e),
            Ok(kind) => Ok(
                (
                    RootView {
                        namespace: Namespace(b[off]),
                        kind,
                        index_slot: le_value(b.subrange(off + 2, off + 10)) as u64,
                        payload_hash: b.subrange(off + 10, off + 42),
                    },
                    off + 42,
                ),
            ),
        }
    }
}

/// `parse_root` as a value.
pub open spec fn root_item() -> spec_fn(Seq<u8>, int) -> Result<(RootView, int), Error> {
    |b: Seq<u8>, off: int| parse_root(b, off)
}

/// The bytes of a commit record.
pub open spec fn commit_bytes(c: CommitView) -> Seq<u8> {
    le_bytes(c.roots.len(), 2) + cat(root_enc(), c.roots) + c.tx_root_hash
}

/// The encoding of a commit record, or why it has none.
pub open spec fn commit_encode(c: CommitView) -> Result<Seq<u8>, Error> {
    if c.roots.len() > MAX_NAMESPACES_PER_TX {
        Err(Error::Internal("commit payload exceeds MAX_NAMESPACES_PER_TX"))
    } else if !roots_sorted(c.roots) {
        Err(Error::Internal("commit roots not sorted"))
    } else {
        Ok(commit_bytes(c))
    }
}

/// The commit record that the bytes encode, or why they encode none.
pub open spec fn commit_decode(b: Seq<u8>) -> Result<CommitView, Error> {
    if b.len() < 2 + 32 {
        Err(Error::Malformed("commit payload too short"))
    } else {
        let num = le_value(b.subrange(0, 2));
        if num > MAX_NAMESPACES_PER_TX {
            Err(Error::Malformed("commit payload num_roots too large"))
        } else if b.len() < 34 + num * 42 {
            Err(Error::Malformed("commit payload truncated"))
        } else {
            match parse_many(root_item(), b, 2, num) {
                Err(e) => Err(e),
                Ok((roots, end)) => if !roots_sorted(roots) {
                    Err(Error::Malformed("commit roots not sorted"))
                } else if end + 32 != b.len() {
                    Err(Error::Malformed("commit payload trailing bytes after tx_root_hash"))
                } else {
                    Ok(CommitView { roots, tx_root_hash: b.subrange(end, end + 32) })
                },
            }
        }
    }
}

/// What the crate blake3 returns as the 32-byte hash of `data`.
pub uninterp spec fn blake3_digest(data: Seq<u8>) -> Seq<u8>;

/// A root's own hash, as a value.
pub open spec fn root_hash_enc() -> spec_fn(RootView) -> Seq<u8> {
    |r: RootView| r.payload_hash
}

/// The hash over a commit's roots: of their own hashes, one after the other.
pub open spec fn tx_root_digest(rs: Seq<RootView>) -> Seq<u8> {
    blake3_digest(cat(root_hash_enc(), rs))
}

/// `blake3::hash` of the crate blake3: the hash of the whole payload, by the
/// name `blake3_digest`.
#[must_use]
#[verifier::external_body]
pub fn blake3_of(payload: &[u8]) -> (r: [u8; 32])
    ensures
        r@ == blake3_digest(payload@),
{
    *blake3::hash(payload).as_bytes()
}

/// Every root takes 42 bytes.
proof fn lemma_roots_len(rs: Seq<RootView>)
    requires
        forall|i: int| 0 <= i < rs.len() ==> (#[trigger] rs[i]).payload_hash.len() == 32,
    ensures
        cat(root_enc(), rs).len() == 42 * rs.len(),
    decreases rs.len(),
{
    if rs.len() > 0 {
        let init = rs.drop_last();
        assert forall|i: int| 0 <= i < init.len() implies (#[trigger] init[i]).payload_hash.len()
            == 32 by {
            assert(init[i] == rs[i]);
        }
        lemma_roots_len(init);
        let last = rs[rs.len() - 1];
        lemma_le_bytes_len(last.index_slot as nat, 8);
    }
}

/// A root is read back.
proof fn lemma_root_reads_back(r: RootView)
    requires
        r.payload_hash.len() == 32,
    ensures
        reads_back(root_item(), root_enc(), r),
{
    let s = root_bytes(r);
    lemma_pow256_widths();
    lemma_le_value_of_bytes(r.index_slot as nat, 8);
    assert(s.len() == 42);
    assert forall|b: Seq<u8>, off: int|
        0 <= off && off + s.len() <= b.len() && b.subrange(off, off + s.len())
            == s implies #[trigger] root_item()(b, off) == Ok::<(RootView, int), Error>(
        (r, off + s.len()),
    ) by {
        assert forall|i: int| 0 <= i < s.len() implies b[off + i] == #[trigger] s[i] by {
            assert(b.subrange(off, off + s.len())[i] == s[i]);
        }
        assert(b[off + 0] == s[0] && b[off + 1] == s[1]);
        assert(b.subrange(off + 2, off + 10) =~= le_bytes(r.index_slot as nat, 8)) by {
            assert forall|i: int| 0 <= i < 8 implies b[off + 2 + i] == le_bytes(
                r.index_slot as nat,
                8,
            )[i] by {
                assert(s[2 + i] == le_bytes(r.index_slot as nat, 8)[i]);
            }
        }
        assert(b.subrange(off + 10, off + 42) =~= r.payload_hash) by {
            assert forall|i: int| 0 <= i < 32 implies b[off + 10 + i] == r.payload_hash[i] by {
                assert(s[10 + i] == r.payload_hash[i]);
            }
        }
    }
}

/// Only encodings of roots are read.
proof fn lemma_root_reads_only(b: Seq<u8>)
    ensures
        reads_only(root_item(), root_enc(), b),
{
    lemma_pow256_widths();
    assert forall|off: int| 0 <= off <= b.len() implies match #[trigger] root_item()(b, off) {
        Ok((x, end)) => off <= end <= b.len() && root_enc()(x) == b.subrange(off, end),
        Err(_) => true,
    } by {
        if let Ok((x, end)) = parse_root(b, off) {
            lemma_le_bytes_of_value(b.subrange(off + 2, off + 10));
            assert(root_bytes(x) =~= b.subrange(off, end));
        }
    }
}

/// What a parse of roots gives has 32-byte hashes.
proof fn lemma_parsed_roots_hashes(b: Seq<u8>, off: int, n: nat)
    requires
        0 <= off <= b.len(),
    ensures
        match parse_many(root_item(), b, off, n) {
            Ok((rs, _)) => forall|i: int|
                0 <= i < rs.len() ==> (#[trigger] rs[i]).payload_hash.len() == 32,
            Err(_) => true,
        },
    decreases n,
{
    if n > 0 {
        if let Ok((x, mid)) = root_item()(b, off) {
            lemma_parsed_roots_hashes(b, mid, (n - 1) as nat);
        }
    }
}

/// The roots of a decoded commit rise by namespace and have 32-byte hashes.
pub proof fn lemma_commit_decode_valid(b: Seq<u8>)
    requires
        commit_decode(b) is Ok,
    ensures
        roots_sorted(commit_decode(b)->Ok_0.roots),
        commit_decode(b)->Ok_0.roots.len() <= MAX_NAMESPACES_PER_TX,
        forall|i: int|
            0 <= i < commit_decode(b)->Ok_0.roots.len() ==> (
            #[trigger] commit_decode(b)->Ok_0.roots[i]).payload_hash.len() == 32,
{
    let num = le_value(b.subrange(0, 2));
    lemma_parsed_roots_hashes(b, 2, num);
    lemma_root_reads_only(b);
    lemma_cat_of_parse(root_item(), root_enc(), b, 2, num);
}

/// Decoding undoes encoding.
pub proof fn law_commit_decode_of_encode(c: CommitView)
    requires
        c.tx_root_hash.len() == 32,
        forall|i: int| 0 <= i < c.roots.len() ==> (#[trigger] c.roots[i]).payload_hash.len() == 32,
        commit_encode(c) is Ok,
    ensures
        commit_decode(commit_encode(c)->Ok_0) == Ok::<CommitView, Error>(c),
        commit_encode(c)->Ok_0.len() == 34 + 42 * c.roots.len(),
{
    let b = commit_bytes(c);
    let n = c.roots.len();
    lemma_roots_len(c.roots);
    lemma_pow256_widths();
    lemma_le_value_of_bytes(n, 2);
    assert(b.subrange(0, 2) =~= le_bytes(n, 2));
    assert(b.subrange(2, 2 + 42 * n as int) =~= cat(root_enc(), c.roots));
    assert forall|i: int| 0 <= i < n implies reads_back(
        root_item(),
        root_enc(),
        #[trigger] c.roots[i],
    ) by {
        lemma_root_reads_back(c.roots[i]);
    }
    lemma_parse_cat(root_item(), root_enc(), c.roots, b, 2);
    assert(b.subrange(2 + 42 * n as int, 34 + 42 * n as int) =~= c.tx_root_hash);
}

/// Encoding undoes decoding: a commit record has one encoding.
pub proof fn law_commit_encode_of_decode(b: Seq<u8>)
    requires
        commit_decode(b) is Ok,
    ensures
        commit_encode(commit_decode(b)->Ok_0) == Ok::<Seq<u8>, Error>(b),
{
    let num = le_value(b.subrange(0, 2));
    lemma_root_reads_only(b);
    lemma_cat_of_parse(root_item(), root_enc(), b, 2, num);
    lemma_le_bytes_of_value(b.subrange(0, 2));
    assert(commit_bytes(commit_decode(b)->Ok_0) =~= b);
}

/// Do the namespaces rise strictly?
fn roots_rise(roots: &Vec<IndexRoot>) -> (r: bool)
    ensures
        r == roots_sorted(roots_view(roots@)),
{
    let ghost rs = roots_view(roots@);
    let mut i: usize = 1;
    while i < roots.len()
        invariant
            1 <= i,
            rs == roots_view(roots@),
            rs.len() > 0 ==> i <= rs.len(),
            forall|j: int, k: int|
                0 <= j < k < i && k < rs.len() ==> (#[trigger] rs[j]).namespace.0 < (
                #[trigger] rs[k]).namespace.0,
        decreases roots@.len() - i,
    {
        if roots[i - 1].namespace.0 >= roots[i].namespace.0 {
            assert(!(rs[i - 1].namespace.0 < rs[i as int].namespace.0));
            return false;
        }
        assert forall|j: int, k: int| 0 <= j < k < i + 1 && k < rs.len() implies (
        #[trigger] rs[j]).namespace.0 < (#[trigger] rs[k]).namespace.0 by {
            if k == i && j < i - 1 {
                assert(rs[j].namespace.0 < rs[i - 1].namespace.0);
            }
        }
        i = i + 1;
    }
    true
}

impl CommitPayload {
    /// Size of the encoding.
    #[must_use]
    pub fn encoded_len(&self) -> (r: usize)
        requires
            34 + self@.roots.len() * 42 <= usize::MAX,
        ensures
            r == 34 + self@.roots.len() * 42,
    {
        2 + 32 + self.roots.len() * (1 + 1 + 8 + 32)
    }

    /// The encoding. Refused with too many roots, or if their namespaces do
    /// not rise.
    pub fn encode(&self) -> (r: Result<Vec<u8>, Error>)
        ensures
            agrees(r, commit_encode(self@)),
    {
        if self.roots.len() > MAX_NAMESPACES_PER_TX {
            return Err(Error::Internal("commit payload exceeds MAX_NAMESPACES_PER_TX"));
        }
        if !roots_rise(&self.roots) {
            return Err(Error::Internal("commit roots not sorted"));
        }
        let ghost rs = self@.roots;
        let ghost head = le_bytes(rs.len(), 2);
        let mut buf: Vec<u8> = Vec::with_capacity(self.encoded_len());
        push_le(&mut buf, self.roots.len() as u64, 2);
        assert(buf@ =~= head);
        assert(rs.take(0) =~= Seq::<RootView>::empty());
        assert(head + cat(root_enc(), rs.take(0)) =~= head);
        let mut i: usize = 0;
        while i < self.roots.len()
            invariant
                i <= self.roots@.len(),
                rs == roots_view(self.roots@),
                buf@ == head + cat(root_enc(), rs.take(i as int)),
            decreases self.roots@.len() - i,
        {
            proof {
                assert(rs.take(i + 1) =~= rs.take(i as int).push(rs[i as int]));
                lemma_cat_push(root_enc(), rs.take(i as int), rs[i as int]);
            }
            let ghost before = buf@;
            buf.push(self.roots[i].namespace.0);
            buf.push(self.roots[i].kind.as_u8());
            push_le(&mut buf, self.roots[i].index_slot, 8);
            buf.extend_from_slice(self.roots[i].payload_hash.as_slice());
            assert(buf@ =~= before + root_bytes(rs[i as int]));
            assert(buf@ =~= head + cat(root_enc(), rs.take(i + 1)));
            i = i + 1;
        }
        assert(rs.take(i as int) =~= rs);
        buf.extend_from_slice(self.tx_root_hash.as_slice());
        assert(buf@ =~= commit_bytes(self@));
        Ok(buf)
    }

    /// The commit record that `bytes` encode.
    pub fn decode(bytes: &[u8]) -> (r: Result<CommitPayload, Error>)
        ensures
            agrees(r, commit_decode(bytes@)),
    {
        if bytes.len() < 2 + 32 {
            return Err(Error::Malformed("commit payload too short"));
        }
        let num: usize = u16_at(bytes, 0) as usize;
        if num > MAX_NAMESPACES_PER_TX {
            return Err(Error::Malformed("commit payload num_roots too large"));
        }
        let expected: usize = 2 + 32 + num * (1 + 1 + 8 + 32);
        if bytes.len() < expected {
            return Err(Error::Malformed("commit payload truncated"));
        }
        let mut roots: Vec<IndexRoot> = Vec::with_capacity(num);
        let mut off: usize = 2;
        let mut i: usize = 0;
        let ghost b = bytes@;
        proof {
            let whole = parse_many(root_item(), b, 2, num as nat);
            assert(roots_view(roots@) =~= Seq::<RootView>::empty());
            if let Ok((rs, end)) = whole {
                assert(Seq::<RootView>::empty() + rs =~= rs);
            }
        }
        while i < num
            invariant
                b == bytes@,
                i <= num,
                num <= MAX_NAMESPACES_PER_TX,
                num as nat == le_value(b.subrange(0, 2)),
                34 + num * 42 <= bytes.len(),
                off == 2 + i * 42,
                parse_many(root_item(), b, 2, num as nat) == prepend(
                    roots_view(roots@),
                    parse_many(root_item(), b, off as int, (num - i) as nat),
                ),
            decreases num - i,
        {
            let ghost at = off as int;
            let namespace = Namespace(bytes[off]);
            let kind = match NamespaceKind::from_u8(bytes[off + 1]) {
                Ok(k) => k,
                Err(e) => {
                    return Err(e);
                },
            };
            let index_slot: u64 = u64_at(bytes, off + 2);
            let payload_hash: [u8; 32] = hash_at(bytes, off + 10);
            off = off + 42;
            let root = IndexRoot { namespace, kind, index_slot, payload_hash };
            let ghost x = root@;
            proof {
                assert(root_item()(b, at) == Ok::<(RootView, int), Error>((x, off as int)));
                lemma_prepend_step(
                    roots_view(roots@),
                    x,
                    parse_many(root_item(), b, off as int, (num - i - 1) as nat),
                );
            }
            let ghost had = roots_view(roots@);
            roots.push(root);
            assert(roots_view(roots@) =~= had.push(x));
            i = i + 1;
        }
        let ghost rs = roots_view(roots@);
        assert(rs + Seq::<RootView>::empty() =~= rs);
        assert(parse_many(root_item(), b, 2, num as nat) == Ok::<(Seq<RootView>, int), Error>(
            (rs, off as int),
        ));
        if !roots_rise(&roots) {
            return Err(Error::Malformed("commit roots not sorted"));
        }
        let tx_root_hash: [u8; 32] = hash_at(bytes, off);
        off = off + 32;
        if off != bytes.len() {
            return Err(Error::Malformed("commit payload trailing bytes after tx_root_hash"));
        }
        Ok(CommitPayload { roots, tx_root_hash })
    }

    /// The hash over a commit's roots: of their own hashes, one after the
    /// other.
    #[must_use]
    pub fn compute_tx_root_hash(roots: &[IndexRoot]) -> (r: [u8; 32])
        ensures
            r@ == tx_root_digest(roots_view(roots@)),
    {
        let ghost rs = roots_view(roots@);
        let mut input: Vec<u8> = Vec::new();
        let mut i: usize = 0;
        assert(rs.take(0) =~= Seq::<RootView>::empty());
        while i < roots.len()
            invariant
                i <= roots@.len(),
                rs == roots_view(roots@),
                input@ == cat(root_hash_enc(), rs.take(i as int)),
            decreases roots@.len() - i,
        {
            proof {
                assert(rs.take(i + 1) =~= rs.take(i as int).push(rs[i as int]));
                lemma_cat_push(root_hash_enc(), rs.take(i as int), rs[i as int]);
            }
            let ghost before = input@;
            input.extend_from_slice(roots[i].payload_hash.as_slice());
            assert(input@ =~= before + rs[i as int].payload_hash);
            i = i + 1;
        }
        assert(rs.take(i as int) =~= rs);
        blake3_of(input.as_slice())
    }
}

} // verus!
