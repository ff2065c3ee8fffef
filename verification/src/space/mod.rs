//! One space of a container: what it holds in memory, how it reads and places
//! chunks, and its reads by key.

pub mod answer_laws;
pub mod cache_laws;
pub mod chain;
pub mod checkpoint;
pub mod chunk_laws;
pub mod commit;
pub mod cursor;
pub mod cut_laws;
pub mod cutting;
pub mod format_laws;
pub mod index;
pub mod integrity;
pub mod keep_laws;
pub mod laws;
pub mod lifecycle;
pub mod log;
pub mod log_iter;
pub mod log_laws;
pub mod model;
pub mod ns_laws;
pub mod order_laws;
pub mod page_laws;
pub mod pairs;
pub mod path_laws;
pub mod pool;
pub mod publish_laws;
pub mod read_laws;
pub mod reads;
pub mod report_laws;
pub mod shape_laws;
pub mod slot_laws;
pub mod slots;
pub mod sound;
pub mod stats;
pub mod step_laws;
pub mod superblock;
pub mod trail_laws;
pub mod tree;
pub mod tx_laws;
pub mod update;
pub mod vacuum;
pub mod vacuum_laws;
pub mod verify_laws;
pub mod walk;
pub mod whole_laws;

use vstd::prelude::*;

use crate::bytes::copy_of;
use crate::chunk::{ChunkKind, Plaintext, PlaintextView, PAYLOAD_CAP};
use crate::container::{
    chunk_at, extends, flushed, has_room, lemma_extends_trans, live, one_write_less, refused_slot,
    same_settings, takes_write, wrote_only, ContainerFile, Image, LockMode,
};
use crate::error::{agrees, Error};
use crate::rng::Entropy;
use crate::tx::commit::{commit_decode, roots_view, CommitPayload, IndexRoot, RootView};

use self::commit::counted;
use self::index::{node_decode, IndexNode, Namespace, NodeView};
use self::pool::{lemma_sure_words, slot_at, sure_words, uniform_from, words_after, DecoyPool};
use self::slots::{rising, OwnedSet};
use self::superblock::{Superblock, SuperblockView, NO_RECORD};
use self::walk::{fresh_walk, TreeWalk, WalkView};

verus! {

/// Decoys rewritten for each slot that is reused.
pub const CHURN_PER_REUSE: usize = 1;

/// The keys of one space. Carried, never looked into.
#[derive(Debug, Clone, Copy, PartialEq, Eq)]
pub struct SpaceKeys {
    pub container_id: [u8; 32],
    pub aead_root: [u8; 32],
}

/// What a space remembers between calls.
pub struct SpaceState {
    pub keys: SpaceKeys,
    /// The current superblock.
    pub superblock: Superblock,
    /// Every slot that opens under this space's key.
    pub owned_slots: OwnedSet,
    /// The publishes that are still on record, rising.
    pub commit_history: Vec<u64>,
    /// Why the last commit's padding was not completed, if it was not.
    pub last_padding_error: Option<Error>,
    /// Why the last publish was not completed, if it was not.
    pub last_publish_error: Option<Error>,
    /// The commit record last read, and the publish it was read under.
    pub roots_payload_cache: Option<(u64, Vec<u8>)>,
    /// The highest seq that a publish has been started under.
    pub attempted_seq: u64,
    /// A superblock newer than the current one that could not be read.
    pub unreadable_newer_superblock: Option<u64>,
    /// Slots free for reuse.
    pub pool: DecoyPool,
    /// Whether the pool was loaded from a checkpoint.
    pub pool_recovered: bool,
    /// Slots reused so far.
    pub reuse_count: u64,
    /// Decoys rewritten so far.
    pub churn_count: u64,
    /// The pool is not drawn on once it is this small.
    pub reuse_floor: usize,
    /// Random words for drawing on the pool.
    pub entropy: Entropy,
}

/// A space, opened.
pub struct Space {
    pub file: ContainerFile,
    pub state: SpaceState,
}

/// The slots owned and the slots free for reuse fit what the file holds: all
/// that opens is owned, nothing owned is free, and both lie in the file.
pub open spec fn storage_wf(img: Image, owned: Set<u64>, pool: Set<u64>) -> bool {
    &&& forall|s: u64| #[trigger] live(img, s) ==> owned.contains(s)
    &&& forall|s: u64| #[trigger] owned.contains(s) ==> s < img.len()
    &&& forall|s: u64| #[trigger] pool.contains(s) ==> s < img.len() && !owned.contains(s)
    &&& forall|s: u64| #[trigger] live(img, s) ==> img[s as int]->0.payload.len() <= PAYLOAD_CAP
}

/// A remembered commit record is the one on file.
pub open spec fn cache_wf(img: Image, sb: SuperblockView, cache: Option<(u64, Vec<u8>)>) -> bool {
    match cache {
        None => true,
        Some((seq, bytes)) => seq <= sb.seq && (seq == sb.seq && sb.root_slot != NO_RECORD ==> live(
            img,
            sb.root_slot,
        ) && img[sb.root_slot as int]->0.kind == ChunkKind::Commit
            && img[sb.root_slot as int]->0.payload == bytes@),
    }
}

/// The publishes on record rise, up to the current one.
pub open spec fn history_wf(h: Seq<u64>, seq: u64) -> bool {
    &&& rising(h)
    &&& forall|i: int| 0 <= i < h.len() ==> #[trigger] h[i] <= seq
}

/// How much of a pool must stay for the churn that its reuse calls for.
pub open spec fn spec_reuse_floor(pool_len: nat) -> nat {
    (pool_len - pool_len / 2) as nat
}

/// How much of a pool must stay for the churn that its reuse calls for.
pub fn reuse_floor_for(pool_len: usize) -> (r: usize)
    ensures
        r == spec_reuse_floor(pool_len as nat),
{
    pool_len - pool_len / (1 + CHURN_PER_REUSE)
}

/// The roots of the current commit, or why they cannot be read.
pub open spec fn roots_at(img: Image, sb: SuperblockView) -> Result<Seq<RootView>, Error> {
    if sb.root_slot == NO_RECORD {
        Ok(Seq::<RootView>::empty())
    } else {
        match chunk_at(img, sb.root_slot) {
            Err(e) => Err(e),
            Ok(p) => if p.kind != ChunkKind::Commit {
                Err(Error::Malformed("superblock root_slot is not a Commit chunk"))
            } else {
                match commit_decode(p.payload) {
                    Err(e) => Err(e),
                    Ok(c) => Ok(c.roots),
                }
            },
        }
    }
}

/// The root of a namespace, if it has one.
pub open spec fn root_of(rs: Seq<RootView>, ns: Namespace) -> Option<RootView>
    decreases rs.len(),
{
    if rs.len() == 0 {
        None
    } else if rs[0].namespace == ns {
        Some(rs[0])
    } else {
        root_of(rs.drop_first(), ns)
    }
}

/// The index node at `slot`, or why it cannot be read.
pub open spec fn any_node_at(img: Image, slot: u64) -> Result<NodeView, Error> {
    match chunk_at(img, slot) {
        Err(e) => Err(e),
        Ok(p) => if p.kind != ChunkKind::IndexNode {
            Err(Error::Malformed("commit root pointer not an IndexNode"))
        } else {
            node_decode(p.payload)
        },
    }
}

/// The index node at `slot` of this namespace, or why it cannot be read.
pub open spec fn node_at(img: Image, slot: u64, ns: Namespace) -> Result<NodeView, Error> {
    match any_node_at(img, slot) {
        Err(e) => Err(e),
        Ok(n) => if n.namespace() != ns {
            Err(
                Error::Malformed("IndexNode.namespace != expected (relabel attempt or writer bug)"),
            )
        } else {
            Ok(n)
        },
    }
}

/// `b` is `a` but for what a read may remember.
pub open spec fn quiet(a: Space, b: Space) -> bool {
    &&& b.file == a.file
    &&& b.state == (SpaceState { roots_payload_cache: b.state.roots_payload_cache, ..a.state })
}

/// The slot is owned, or free for reuse, or past the end of the file.
pub open spec fn at_hand(s: Space, slot: u64) -> bool {
    s.state.owned_slots@.contains(slot) || s.state.pool@.contains(slot) || slot >= s.file@.len()
}

/// Nothing has come to be owned or free for reuse but what was at hand.
pub open spec fn within(a: Space, b: Space) -> bool {
    &&& a.file@.len() <= b.file@.len()
    &&& forall|s: u64| #[trigger] b.state.owned_slots@.contains(s) ==> at_hand(a, s)
    &&& forall|s: u64| #[trigger] b.state.pool@.contains(s) ==> at_hand(a, s)
}

/// `b` is `a` with chunks placed: everything that opened still opens as it
/// did, and only what placing touches has changed.
pub open spec fn grown(a: Space, b: Space) -> bool {
    &&& extends(a.file@, b.file@)
    &&& same_settings(a.file, b.file)
    &&& wrote_only(a.file, b.file, a.state.pool@)
    &&& flushed(a.file, b.file)
    &&& a.file.lock_mode != LockMode::Exclusive ==> b.file == a.file
    &&& b.file@.len() > a.file@.len() ==> b.file@.last() is Some
    &&& words_used(a, b)
    &&& within(a, b)
    &&& a.file.writes_left is None ==> b.file.writes_left is None
    &&& a.file.room_left is None ==> b.file.room_left is None
    &&& a.state.owned_slots@.subset_of(b.state.owned_slots@)
    &&& forall|s: u64| #[trigger]
        b.state.owned_slots@.contains(s) ==> a.state.owned_slots@.contains(s) || live(b.file@, s)
    &&& b.state.pool@.subset_of(a.state.pool@)
    &&& b.state.pool@.len() <= a.state.pool@.len()
    &&& b.state.pool.drift == counted(
        a.state.pool.drift,
        a.state.pool@.len() - b.state.pool@.len(),
    )
    &&& b.state.reuse_count >= a.state.reuse_count
    &&& b.state.reuse_count + b.state.pool@.len() <= a.state.reuse_count + a.state.pool@.len()
    &&& b.state.pool@.len() >= a.state.pool@.len() || b.state.pool@.len() >= a.state.reuse_floor
    &&& b.state.pool_recovered == a.state.pool_recovered
    &&& b.state.churn_count == a.state.churn_count
    &&& b.state.reuse_floor == a.state.reuse_floor
    &&& b.state.keys == a.state.keys
    &&& b.state.superblock == a.state.superblock
    &&& b.state.commit_history == a.state.commit_history
    &&& b.state.last_padding_error == a.state.last_padding_error
    &&& b.state.last_publish_error == a.state.last_publish_error
    &&& b.state.roots_payload_cache == a.state.roots_payload_cache
    &&& b.state.attempted_seq == a.state.attempted_seq
    &&& b.state.unreadable_newer_superblock == a.state.unreadable_newer_superblock
    &&& forall|s: u64| #[trigger]
        a.state.pool@.contains(s) && !b.state.pool@.contains(s) && !b.state.owned_slots@.contains(s)
            ==> !takes_all(a)
}

/// Every superblock on file was there before.
pub open spec fn no_new_superblock(a: Image, b: Image) -> bool {
    forall|s: u64| #[trigger]
        live(b, s) && b[s as int]->0.kind == ChunkKind::Superblock ==> live(a, s)
}

/// Every chunk on file was there before, or carries this number.
pub open spec fn stamped(a: Image, b: Image, seq: u64) -> bool {
    forall|s: u64| #[trigger] live(b, s) ==> live(a, s) || b[s as int]->0.seq == seq
}

/// `b` is `a` with chunks of this number placed, none of them a superblock:
/// nothing that is new can be found from the superblocks on file.
pub open spec fn laid(a: Space, b: Space, seq: u64) -> bool {
    &&& grown(a, b)
    &&& no_new_superblock(a.file@, b.file@)
    &&& stamped(a.file@, b.file@, seq)
}

/// Chunks that were new before something was placed carry their number.
pub proof fn lemma_stamped_trans(a: Image, b: Image, c: Image, seq: u64)
    requires
        stamped(a, b, seq),
        stamped(b, c, seq),
        extends(b, c),
    ensures
        stamped(a, c, seq),
{
    assert forall|s: u64| #[trigger] live(c, s) implies live(a, s) || c[s as int]->0.seq == seq by {
        if live(b, s) {
            assert(c[s as int] == b[s as int]);
        }
    }
}

/// Placing such chunks twice is placing such chunks.
pub proof fn lemma_laid_trans(a: Space, b: Space, c: Space)
    ensures
        forall|seq: u64| #[trigger]
            laid(a, b, seq) && #[trigger] laid(b, c, seq) ==> laid(a, c, seq),
{
    assert forall|seq: u64| #[trigger] laid(a, b, seq) && #[trigger] laid(b, c, seq) implies laid(
        a,
        c,
        seq,
    ) by {
        lemma_grown_trans(a, b, c);
        lemma_stamped_trans(a.file@, b.file@, c.file@, seq);
        assert forall|s: u64| #[trigger]
            live(c.file@, s) && c.file@[s as int]->0.kind == ChunkKind::Superblock implies live(
            a.file@,
            s,
        ) by {
            assert(live(b.file@, s));
        }
    }
}

/// Placing nothing is placing such chunks.
pub proof fn lemma_laid_refl(a: Space)
    ensures
        forall|seq: u64| #[trigger] laid(a, a, seq),
{
}

/// No more of the words that are good for any draw have been used up than slots
/// have left the pool.
pub open spec fn words_used(a: Space, b: Space) -> bool {
    sure_words(a.state.entropy.left()) + b.state.pool@.len() <= sure_words(b.state.entropy.left())
        + a.state.pool@.len()
}

/// The handle writes, and the device takes whatever is written.
pub open spec fn takes_all(s: Space) -> bool {
    &&& s.file.lock_mode == LockMode::Exclusive
    &&& s.file.writes_left is None
    &&& s.file.room_left is None
}

/// Placing chunks cannot fail: the device takes everything, and there are words
/// for as many slots as may be drawn from the pool.
pub open spec fn steady(s: Space) -> bool {
    takes_all(s) && s.state.pool@.len() <= s.state.reuse_floor + sure_words(s.state.entropy.left())
}

/// The handle, the device or the words are to blame for the failure: the handle
/// does not write, the device takes no more or has no room, or no word is left
/// for a draw.
pub open spec fn blamed(s: Space, e: Error) -> bool {
    if s.file.lock_mode != LockMode::Exclusive {
        e == Error::ReadOnly
    } else {
        ||| e == Error::Rng && s.state.entropy.left().len() == 0 && s.state.pool@.len()
            > s.state.reuse_floor
        ||| e == Error::Io("device refused the write") && s.file.writes_left == Some(0u64)
        ||| e == Error::Io("device refused to flush") && s.file.writes_left == Some(0u64)
        ||| e == Error::Io("no room on the device") && s.file.room_left == Some(0u64)
    }
}

/// Something failed on the way from `a` to `b`. Where all else was `sound`, it is
/// the handle, the device or the words; none of which can be where placing
/// chunks cannot fail.
pub open spec fn failed(a: Space, b: Space, e: Error, sound: bool) -> bool {
    &&& !(e is PublishUncertain)
    &&& sound ==> blamed(b, e) && !steady(a)
}

/// What is remembered of a commit record stays right while the file grows.
pub proof fn lemma_cache_extends(
    a: Image,
    b: Image,
    sb: SuperblockView,
    cache: Option<(u64, Vec<u8>)>,
)
    requires
        cache_wf(a, sb, cache),
        extends(a, b),
    ensures
        cache_wf(b, sb, cache),
{
    assert(live(a, sb.root_slot) ==> live(b, sb.root_slot));
}

/// One more slot opens, and is owned.
pub proof fn lemma_storage_insert(
    a: Image,
    b: Image,
    owned: Set<u64>,
    pool: Set<u64>,
    left: Set<u64>,
    slot: u64,
)
    requires
        storage_wf(a, owned, pool),
        extends(a, b),
        live(b, slot),
        b[slot as int]->0.payload.len() <= PAYLOAD_CAP,
        forall|s: u64| #[trigger] live(b, s) ==> s == slot || live(a, s),
        left.subset_of(pool),
        !left.contains(slot),
    ensures
        storage_wf(b, owned.insert(slot), left),
{
    assert forall|s: u64| #[trigger] live(b, s) implies b[s as int]->0.payload.len()
        <= PAYLOAD_CAP by {
        if s != slot {
            assert(live(a, s));
        }
    }
}

/// Placing chunks twice is placing chunks.
pub proof fn lemma_grown_trans(a: Space, b: Space, c: Space)
    requires
        grown(a, b),
        grown(b, c),
    ensures
        grown(a, c),
{
    lemma_extends_trans(a.file@, b.file@, c.file@);
    assert(flushed(a.file, c.file)) by {
        if c.file.durable != b.file.durable {
            lemma_extends_trans(a.file@, b.file@, c.file.durable@);
        } else if b.file.durable != a.file.durable {
            lemma_extends_trans(b.file.durable@, b.file@, c.file@);
        }
    }
    if c.file@.len() == b.file@.len() && b.file@.len() > a.file@.len() {
        let top = (b.file@.len() - 1) as u64;
        let count = b.file.slots.len();
        assert(b.file@.len() == count);
        assert(live(b.file@, top));
    }
    assert forall|s: u64| #[trigger]
        a.state.pool@.contains(s) && !c.state.pool@.contains(s) && !c.state.owned_slots@.contains(
            s,
        ) implies !takes_all(a) by {
        if b.state.pool@.contains(s) {
        } else {
            assert(!b.state.owned_slots@.contains(s));
        }
    }
}

/// Placing nothing is placing chunks.
pub proof fn lemma_grown_refl(a: Space)
    ensures
        grown(a, a),
{
}

impl Space {
    /// What each slot of the file opens to.
    pub open spec fn img(self) -> Image {
        self.file@
    }

    /// What is kept in memory fits what is on file.
    pub open spec fn wf(self) -> bool {
        &&& self.state.owned_slots.wf()
        &&& self.state.pool.wf()
        &&& self.state.entropy.wf()
        &&& storage_wf(self.file@, self.state.owned_slots@, self.state.pool@)
        &&& cache_wf(self.file@, self.state.superblock@, self.state.roots_payload_cache)
        &&& history_wf(self.state.commit_history@, self.state.superblock.seq)
    }

    /// The guard of a walk that starts now.
    pub open spec fn walk_now(self) -> WalkView {
        fresh_walk(self.state.owned_slots@.len(), self.file@.len() as u64)
    }

    /// The roots of the current commit, or why they cannot be read.
    pub open spec fn roots(self) -> Result<Seq<RootView>, Error> {
        roots_at(self.file@, self.state.superblock@)
    }

    /// A guard for a walk.
    pub fn new_tree_walk(&self) -> (r: TreeWalk)
        requires
            self.wf(),
        ensures
            r.wf(),
            r@ == self.walk_now(),
    {
        TreeWalk::new(self.state.owned_slots.len(), self.file.slot_count())
    }

    /// What the slot opens to.
    pub fn read_owned_chunk(&self, slot: u64) -> (r: Result<&Plaintext, Error>)
        ensures
            match r {
                Ok(p) => chunk_at(self.file@, slot) == Ok::<PlaintextView, Error>(p@),
                Err(e) => chunk_at(self.file@, slot) == Err::<PlaintextView, Error>(e),
            },
    {
        self.file.open_slot(slot)
    }

    /// The index node at `slot`, of whatever namespace.
    pub fn read_index_node_at(&self, slot: u64) -> (r: Result<IndexNode, Error>)
        ensures
            agrees(r, any_node_at(self.file@, slot)),
    {
        let pt = match self.read_owned_chunk(slot) {
            Ok(p) => p,
            Err(e) => {
                return Err(e);
            },
        };
        if pt.kind != ChunkKind::IndexNode {
            return Err(Error::Malformed("commit root pointer not an IndexNode"));
        }
        IndexNode::decode(pt.payload.as_slice())
    }

    /// The index node at `slot`, which must belong to the namespace.
    pub fn read_index_node_at_expected(&self, slot: u64, expected: Namespace) -> (r: Result<
        IndexNode,
        Error,
    >)
        ensures
            agrees(r, node_at(self.file@, slot, expected)),
    {
        let node = match self.read_index_node_at(slot) {
            Ok(n) => n,
            Err(e) => {
                return Err(e);
            },
        };
        if node.namespace() != expected {
            return Err(
                Error::Malformed("IndexNode.namespace != expected (relabel attempt or writer bug)"),
            );
        }
        Ok(node)
    }

    /// The roots of the current commit. Remembers the record it reads.
    pub fn load_prior_roots(&mut self) -> (r: Result<Vec<IndexRoot>, Error>)
        requires
            old(self).wf(),
        ensures
            final(self).wf(),
            quiet(*old(self), *final(self)),
            match r {
                Ok(v) => old(self).roots() == Ok::<Seq<RootView>, Error>(roots_view(v@)),
                Err(e) => old(self).roots() == Err::<Seq<RootView>, Error>(e),
            },
    {
        if self.state.superblock.root_slot == NO_RECORD {
            let none: Vec<IndexRoot> = Vec::new();
            assert(roots_view(none@) =~= Seq::<RootView>::empty());
            return Ok(none);
        }
        let seq: u64 = self.state.superblock.seq;
        let mut remembered: bool = false;
        if let Some((cached, _)) = &self.state.roots_payload_cache {
            remembered = *cached == seq;
        }
        if remembered {
            if let Some((_, bytes)) = &self.state.roots_payload_cache {
                return match CommitPayload::decode(bytes.as_slice()) {
                    Ok(c) => Ok(c.roots),
                    Err(e) => Err(e),
                };
            }
        }
        let pt = match self.read_owned_chunk(self.state.superblock.root_slot) {
            Ok(p) => p,
            Err(e) => {
                return Err(e);
            },
        };
        if pt.kind != ChunkKind::Commit {
            return Err(Error::Malformed("superblock root_slot is not a Commit chunk"));
        }
        let bytes = copy_of(pt.payload.as_slice());
        match CommitPayload::decode(bytes.as_slice()) {
            Ok(c) => {
                self.state.roots_payload_cache = Some((seq, bytes));
                Ok(c.roots)
            },
            Err(e) => Err(e),
        }
    }

    /// The root of a namespace.
    pub fn find_root(&mut self, namespace: Namespace) -> (r: Result<Option<IndexRoot>, Error>)
        requires
            old(self).wf(),
        ensures
            final(self).wf(),
            quiet(*old(self), *final(self)),
            match r {
                Ok(Some(root)) => old(self).roots() is Ok && root_of(
                    old(self).roots()->Ok_0,
                    namespace,
                ) == Some(root@),
                Ok(None) => old(self).roots() is Ok && root_of(
                    old(self).roots()->Ok_0,
                    namespace,
                ) is None,
                Err(e) => old(self).roots() == Err::<Seq<RootView>, Error>(e),
            },
    {
        let roots = match self.load_prior_roots() {
            Ok(v) => v,
            Err(e) => {
                return Err(e);
            },
        };
        let ghost rs = roots_view(roots@);
        let mut i: usize = 0;
        assert(rs.skip(0) =~= rs);
        while i < roots.len()
            invariant
                self.wf(),
                quiet(*old(self), *self),
                old(self).roots() == Ok::<Seq<RootView>, Error>(rs),
                i <= roots@.len(),
                rs == roots_view(roots@),
                root_of(rs, namespace) == root_of(rs.skip(i as int), namespace),
            decreases roots@.len() - i,
        {
            assert(rs.skip(i as int)[0] == rs[i as int]);
            assert(rs.skip(i as int).drop_first() =~= rs.skip(i + 1));
            if roots[i].namespace == namespace {
                return Ok(Some(roots[i]));
            }
            i = i + 1;
        }
        Ok(None)
    }

    /// Waits until everything written is on the device.
    pub fn sync(&mut self) -> (r: Result<(), Error>)
        requires
            old(self).wf(),
        ensures
            final(self).wf(),
            grown(*old(self), *final(self)),
            final(self).file@ == old(self).file@,
            final(self).file.written == old(self).file.written,
            final(self).file.room_left == old(self).file.room_left,
            final(self).state == old(self).state,
            same_settings(old(self).file, final(self).file),
            old(self).file.lock_mode != LockMode::Exclusive ==> r is Ok && *final(self) == *old(self),
            old(self).file.lock_mode == LockMode::Exclusive ==> match r {
                Ok(()) => takes_write(old(self).file) && final(self).file.writes_left
                    == one_write_less(old(self).file.writes_left) && final(self).file.durable@
                    == old(self).file@,
                Err(e) => !takes_write(old(self).file) && e == Error::Io("device refused to flush")
                    && *final(self) == *old(self),
            },
            r matches Err(e) ==> failed(*old(self), *final(self), e, true),
    {
        self.file.fsync()
    }

    /// Adds a chunk at the end of the file.
    pub fn append_chunk(&mut self, kind: ChunkKind, seq: u64, payload: &[u8]) -> (r: Result<
        u64,
        Error,
    >)
        requires
            old(self).wf(),
        ensures
            final(self).wf(),
            grown(*old(self), *final(self)),
            final(self).state.pool == old(self).state.pool,
            final(self).state.entropy == old(self).state.entropy,
            final(self).state.reuse_count == old(self).state.reuse_count,
            match r {
                Ok(slot) => {
                    &&& old(self).file.lock_mode == LockMode::Exclusive
                    &&& payload@.len() <= PAYLOAD_CAP
                    &&& slot == old(self).file@.len()
                    &&& final(self).file@.len() == slot + 1
                    &&& takes_write(old(self).file)
                    &&& final(self).file.writes_left == one_write_less(old(self).file.writes_left)
                    &&& has_room(old(self).file)
                    &&& final(self).file.room_left == one_write_less(old(self).file.room_left)
                    &&& final(self).file.written@ == old(self).file.written@.insert(slot)
                    &&& stored(
                        *old(self),
                        *final(self),
                        slot,
                        PlaintextView { kind, seq, payload: payload@ },
                    )
                },
                Err(e) => {
                    &&& *final(self) == *old(self)
                    &&& failed(*old(self), *final(self), e, payload@.len() <= PAYLOAD_CAP)
                    &&& takes_all(*old(self)) ==> payload@.len() > PAYLOAD_CAP
                    &&& payload@.len() > PAYLOAD_CAP ==> e == Error::PayloadTooLarge
                    &&& payload@.len() <= PAYLOAD_CAP ==> if old(self).file.lock_mode
                        != LockMode::Exclusive {
                        e == Error::ReadOnly
                    } else {
                        refused_slot(old(self).file, e)
                    }
                },
            },
    {
        if payload.len() > PAYLOAD_CAP {
            return Err(Error::PayloadTooLarge);
        }
        let pt = Plaintext { kind, seq, payload: copy_of(payload) };
        let ghost ptv = pt@;
        let ghost before = self.file@;
        let slot: u64 = match self.file.append_slot(Some(pt)) {
            Ok(s) => s,
            Err(e) => {
                return Err(e);
            },
        };
        self.state.owned_slots.insert(slot);
        proof {
            assert(self.file@ == before.push(Some(ptv)));
            assert forall|s: u64| live(self.file@, s) implies s == slot || live(before, s) by {}
            assert(live(self.file@, slot));
            assert(extends(before, self.file@));
            lemma_cache_extends(
                before,
                self.file@,
                self.state.superblock@,
                self.state.roots_payload_cache,
            );
            lemma_storage_insert(
                before,
                self.file@,
                old(self).state.owned_slots@,
                self.state.pool@,
                self.state.pool@,
                slot,
            );
        }
        Ok(slot)
    }

    /// Stores a chunk: in a slot drawn from the pool while the pool is above
    /// its floor, else at the end of the file. A checkpoint chunk is never
    /// put in a reused slot.
    pub fn place_chunk(&mut self, kind: ChunkKind, seq: u64, payload: &[u8]) -> (r: Result<
        u64,
        Error,
    >)
        requires
            old(self).wf(),
        ensures
            final(self).wf(),
            grown(*old(self), *final(self)),
            match r {
                Ok(slot) => {
                    &&& old(self).file.lock_mode == LockMode::Exclusive
                    &&& payload@.len() <= PAYLOAD_CAP
                    &&& stored(
                        *old(self),
                        *final(self),
                        slot,
                        PlaintextView { kind, seq, payload: payload@ },
                    )
                    &&& slot == old(self).file@.len() || old(self).state.pool@.contains(slot)
                    &&& kind == ChunkKind::Checkpoint || old(self).state.pool@.len()
                        <= old(self).state.reuse_floor ==> {
                        &&& slot == old(self).file@.len()
                        &&& final(self).state.reuse_count == old(self).state.reuse_count
                        &&& final(self).state.pool == old(self).state.pool
                        &&& final(self).state.entropy == old(self).state.entropy
                    }
                    &&& kind != ChunkKind::Checkpoint && old(self).state.pool@.len()
                        > old(self).state.reuse_floor ==> reused(*old(self), *final(self), slot)
                },
                Err(e) => {
                    &&& failed(*old(self), *final(self), e, payload@.len() <= PAYLOAD_CAP)
                    &&& payload@.len() <= PAYLOAD_CAP && old(self).file.lock_mode
                        == LockMode::Exclusive && kind != ChunkKind::Checkpoint
                        && old(self).state.pool@.len() > old(self).state.reuse_floor ==> e
                        == if draw_of(*old(self)) is None {
                        Error::Rng
                    } else {
                        Error::Io("device refused the write")
                    }
                    &&& final(self).file@ == old(self).file@
                    &&& final(self).state.owned_slots@ == old(self).state.owned_slots@
                    &&& final(self).state.reuse_count == old(self).state.reuse_count
                    &&& kind == ChunkKind::Checkpoint || old(self).state.pool@.len()
                        <= old(self).state.reuse_floor ==> *final(self) == *old(self)
                    &&& steady(*old(self)) ==> payload@.len() > PAYLOAD_CAP
                    &&& takes_all(*old(self)) && kind == ChunkKind::Checkpoint ==> payload@.len()
                        > PAYLOAD_CAP
                    &&& payload@.len() > PAYLOAD_CAP ==> e == Error::PayloadTooLarge
                    &&& payload@.len() <= PAYLOAD_CAP && old(self).file.lock_mode
                        != LockMode::Exclusive ==> e == Error::ReadOnly && *final(self) == *old(self)
                },
            },
    {
        if payload.len() > PAYLOAD_CAP {
            return Err(Error::PayloadTooLarge);
        }
        if !self.file.lock_mode.allows_writes() {
            return Err(Error::ReadOnly);
        }
        if kind == ChunkKind::Checkpoint || self.state.pool.len() <= self.state.reuse_floor {
            return self.append_chunk(kind, seq, payload);
        }
        proof {
            lemma_sure_words(self.state.entropy.left(), self.state.pool@.len());
        }
        match self.state.pool.take(&mut self.state.entropy) {
            Err(e) => Err(e),
            Ok(None) => self.append_chunk(kind, seq, payload),
            Ok(Some(slot)) => {
                let pt = Plaintext { kind, seq, payload: copy_of(payload) };
                let ghost ptv = pt@;
                let ghost before = self.file@;
                match self.file.write_slot(slot, Some(pt)) {
                    Ok(()) => {},
                    Err(e) => {
                        return Err(e);
                    },
                }
                self.state.owned_slots.insert(slot);
                self.state.reuse_count = self.state.reuse_count.saturating_add(1);
                proof {
                    assert(self.file@ == before.update(slot as int, Some(ptv)));
                    assert(live(self.file@, slot));
                    assert(!live(before, slot));
                    assert forall|s: u64| live(self.file@, s) implies s == slot || live(
                        before,
                        s,
                    ) by {}
                    assert(extends(before, self.file@));
                    lemma_cache_extends(
                        before,
                        self.file@,
                        self.state.superblock@,
                        self.state.roots_payload_cache,
                    );
                    lemma_storage_insert(
                        before,
                        self.file@,
                        old(self).state.owned_slots@,
                        old(self).state.pool@,
                        self.state.pool@,
                        slot,
                    );
                }
                Ok(slot)
            },
        }
    }
}

/// The place in the pool that the next words give.
pub open spec fn draw_of(s: Space) -> Option<nat> {
    uniform_from(s.state.entropy.left(), s.state.pool@.len())
}

/// The slot has been drawn from the pool.
pub open spec fn reused(a: Space, b: Space, slot: u64) -> bool {
    &&& draw_of(a) is Some
    &&& slot == slot_at(a.state.pool@, draw_of(a)->0)
    &&& b.state.pool@ == a.state.pool@.remove(slot)
    &&& b.state.entropy.left() == words_after(a.state.entropy.left(), a.state.pool@.len())
    &&& b.state.reuse_count == if a.state.reuse_count < u64::MAX {
        a.state.reuse_count + 1
    } else {
        a.state.reuse_count as int
    }
}

/// The slot did not open, and now holds the chunk; nothing else has come to
/// open.
pub open spec fn stored(a: Space, b: Space, slot: u64, pt: PlaintextView) -> bool {
    &&& !live(a.file@, slot)
    &&& !a.state.owned_slots@.contains(slot)
    &&& live(b.file@, slot)
    &&& b.file@[slot as int] == Some(pt)
    &&& forall|s: u64| #[trigger] live(b.file@, s) ==> s == slot || live(a.file@, s)
    &&& b.state.owned_slots@ == a.state.owned_slots@.insert(slot)
}

} // verus!
