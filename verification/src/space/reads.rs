//! Reads by key: one entry, or the entries in a range.

use vstd::prelude::*;

use crate::bytes::{bytes_lt, copy_of, lex_le, lex_lt};
use crate::container::Image;
use crate::error::Error;
use crate::space::index::{
    child_index, children_sorted, entries_view, keys_sorted, lemma_internal_decode_valid,
    lemma_leaf_decode_valid, lookup, ChildView, EntryView, IndexNode, Namespace, NodeView,
};
use crate::space::superblock::SuperblockView;
use crate::space::walk::{walk_refusal, walk_step, TreeWalk, WalkView};
use crate::space::{node_at, quiet, root_of, roots_at, Space};
use crate::wipe::{WipedKeys, WipedPairs};

verus! {

/// A value as a sequence.
pub open spec fn opt_bytes(v: Option<Vec<u8>>) -> Option<Seq<u8>> {
    match v {
        Some(x) => Some(x@),
        None => None,
    }
}

/// What a search for `key` from the node at `slot` gives: one node per level,
/// each the one whose range holds the key.
pub open spec fn search(
    img: Image,
    ns: Namespace,
    key: Seq<u8>,
    slot: u64,
    depth: int,
    w: WalkView,
    cap: int,
) -> Result<Option<Seq<u8>>, Error>
    decreases cap - depth + 1,
{
    match walk_refusal(w, slot, depth) {
        Some(why) => Err(Error::Malformed(why)),
        None => if depth > cap {
            Err(Error::Malformed("tree deeper than this space's chunk count can hold"))
        } else {
            match node_at(img, slot, ns) {
                Err(e) => Err(e),
                Ok(NodeView::Leaf(l)) => Ok(lookup(l.entries, key)),
                Ok(NodeView::Internal(n)) => search(
                    img,
                    ns,
                    key,
                    n.children[child_index(n.children, key)].child_slot,
                    depth + 1,
                    walk_step(w, slot),
                    cap,
                ),
            }
        },
    }
}

/// What a read of `key` gives.
pub open spec fn value_of(
    img: Image,
    sb: SuperblockView,
    w: WalkView,
    ns: Namespace,
    key: Seq<u8>,
) -> Result<Option<Seq<u8>>, Error> {
    match roots_at(img, sb) {
        Err(e) => Err(e),
        Ok(rs) => match root_of(rs, ns) {
            None => Ok(None),
            Some(r) => search(img, ns, key, r.index_slot, 0, w, w.max_depth as int),
        },
    }
}

/// Which entries to read: from a key on, up to another, at most so many.
pub struct Query {
    /// Keys must be record numbers.
    pub log: bool,
    /// The first key, if there is one.
    pub from: Option<Vec<u8>>,
    /// Whether the first key itself is wanted.
    pub inclusive: bool,
    /// The first key that is no longer wanted, if there is one.
    pub until: Option<Vec<u8>>,
    /// How many entries are wanted at most.
    pub limit: Option<usize>,
}

/// Which entries to read, with keys as sequences.
pub struct QueryView {
    pub log: bool,
    pub from: Option<Seq<u8>>,
    pub inclusive: bool,
    pub until: Option<Seq<u8>>,
    pub limit: Option<nat>,
}

impl View for Query {
    type V = QueryView;

    open spec fn view(&self) -> QueryView {
        QueryView {
            log: self.log,
            from: opt_bytes(self.from),
            inclusive: self.inclusive,
            until: opt_bytes(self.until),
            limit: match self.limit {
                Some(n) => Some(n as nat),
                None => None,
            },
        }
    }
}

impl QueryView {
    /// Enough entries have been read.
    pub open spec fn full(self, n: nat) -> bool {
        self.limit matches Some(l) && n >= l
    }

    /// The key comes before the first one wanted.
    pub open spec fn too_early(self, key: Seq<u8>) -> bool {
        match self.from {
            None => false,
            Some(f) => if self.inclusive {
                lex_lt(key, f)
            } else {
                lex_le(key, f)
            },
        }
    }

    /// The key comes after the last one wanted.
    pub open spec fn too_late(self, key: Seq<u8>) -> bool {
        self.until matches Some(u) && lex_le(u, key)
    }
}

/// The error of a record walk that meets another kind of key.
pub open spec fn not_a_log() -> Error {
    Error::WrongNamespaceKind("log walker: non-8-byte key (KV namespace passed to log API?)")
}

/// Where a range read stands.
pub struct Gathered {
    pub w: WalkView,
    pub out: Seq<EntryView>,
    /// Whether to stop; an error where the tree cannot be read.
    pub end: Result<bool, Error>,
}

/// Reads the entries of a leaf from position `i` on.
pub open spec fn scan(
    q: QueryView,
    es: Seq<EntryView>,
    i: int,
    w: WalkView,
    out: Seq<EntryView>,
) -> Gathered
    decreases es.len() - i,
{
    if i >= es.len() {
        Gathered { w, out, end: Ok(q.full(out.len())) }
    } else if q.full(out.len()) {
        Gathered { w, out, end: Ok(true) }
    } else if q.log && es[i].0.len() != 8 {
        Gathered { w, out, end: Err(not_a_log()) }
    } else if q.too_early(es[i].0) {
        scan(q, es, i + 1, w, out)
    } else if q.too_late(es[i].0) {
        Gathered { w, out, end: Ok(true) }
    } else {
        scan(q, es, i + 1, w, out.push(es[i]))
    }
}

/// The first child that can hold a wanted key.
pub open spec fn first_wanted(q: QueryView, cs: Seq<ChildView>) -> int {
    match q.from {
        None => 0,
        Some(f) => child_index(cs, f),
    }
}

/// Reads the wanted entries under the node at `slot`, from left to right.
pub open spec fn gather(
    img: Image,
    ns: Namespace,
    q: QueryView,
    slot: u64,
    depth: int,
    w: WalkView,
    out: Seq<EntryView>,
    cap: int,
) -> Gathered
    decreases cap - depth + 1, 0int,
{
    if q.full(out.len()) {
        Gathered { w, out, end: Ok(true) }
    } else {
        match walk_refusal(w, slot, depth) {
            Some(why) => Gathered { w, out, end: Err(Error::Malformed(why)) },
            None => if depth > cap {
                Gathered {
                    w,
                    out,
                    end: Err(
                        Error::Malformed("tree deeper than this space's chunk count can hold"),
                    ),
                }
            } else {
                match node_at(img, slot, ns) {
                    Err(e) => Gathered { w: walk_step(w, slot), out, end: Err(e) },
                    Ok(NodeView::Leaf(l)) => scan(q, l.entries, 0, walk_step(w, slot), out),
                    Ok(NodeView::Internal(n)) => gather_kids(
                        img,
                        ns,
                        q,
                        n.children,
                        first_wanted(q, n.children),
                        depth + 1,
                        walk_step(w, slot),
                        out,
                        cap,
                    ),
                }
            },
        }
    }
}

/// Reads the wanted entries under the children from position `i` on.
pub open spec fn gather_kids(
    img: Image,
    ns: Namespace,
    q: QueryView,
    cs: Seq<ChildView>,
    i: int,
    depth: int,
    w: WalkView,
    out: Seq<EntryView>,
    cap: int,
) -> Gathered
    decreases cap - depth + 1, cs.len() - i + 1,
{
    if i >= cs.len() || i < 0 {
        Gathered { w, out, end: Ok(false) }
    } else {
        let g = gather(img, ns, q, cs[i].child_slot, depth, w, out, cap);
        match g.end {
            Ok(false) => gather_kids(img, ns, q, cs, i + 1, depth, g.w, g.out, cap),
            _ => g,
        }
    }
}

/// What a range read gives.
pub open spec fn range_of(
    img: Image,
    sb: SuperblockView,
    w: WalkView,
    ns: Namespace,
    q: QueryView,
) -> Result<Seq<EntryView>, Error> {
    match roots_at(img, sb) {
        Err(e) => Err(e),
        Ok(rs) => match root_of(rs, ns) {
            None => Ok(Seq::<EntryView>::empty()),
            Some(r) => page_of(img, w, ns, q, r.index_slot),
        },
    }
}

/// What a range read of the tree with its root at `slot` gives.
pub open spec fn page_of(
    img: Image,
    w: WalkView,
    ns: Namespace,
    q: QueryView,
    slot: u64,
) -> Result<Seq<EntryView>, Error> {
    gathered(gather(img, ns, q, slot, 0, w, Seq::<EntryView>::empty(), w.max_depth as int))
}

/// What has been gathered, unless the tree could not be read.
pub open spec fn gathered(g: Gathered) -> Result<Seq<EntryView>, Error> {
    match g.end {
        Ok(_) => Ok(g.out),
        Err(e) => Err(e),
    }
}

/// All entries.
pub open spec fn everything() -> QueryView {
    QueryView { log: false, from: None, inclusive: false, until: None, limit: None }
}

/// At most `limit` entries after a key.
pub open spec fn page_after(after: Option<Seq<u8>>, limit: nat) -> QueryView {
    QueryView { log: false, from: after, inclusive: false, until: None, limit: Some(limit) }
}

/// The keys of entries.
pub open spec fn keys_of(es: Seq<EntryView>) -> Seq<Seq<u8>> {
    Seq::new(es.len(), |i: int| es[i].0)
}

/// Keys as sequences.
pub open spec fn keys_view(v: Seq<Vec<u8>>) -> Seq<Seq<u8>> {
    Seq::new(v.len(), |i: int| v[i]@)
}

/// Children of a decoded node rise; so do a decoded leaf's keys.
pub proof fn lemma_node_sorted(img: Image, slot: u64, ns: Namespace)
    ensures
        match node_at(img, slot, ns) {
            Ok(NodeView::Leaf(l)) => keys_sorted(l.entries),
            Ok(NodeView::Internal(n)) => n.children.len() > 0 && children_sorted(n.children),
            Err(_) => true,
        },
{
    if let Ok(n) = node_at(img, slot, ns) {
        let payload = img[slot as int]->0.payload;
        match n {
            NodeView::Leaf(_) => {
                lemma_leaf_decode_valid(payload);
            },
            NodeView::Internal(_) => {
                lemma_internal_decode_valid(payload);
            },
        }
    }
}

impl Query {
    /// Have enough entries been read?
    pub(crate) fn is_full(&self, n: usize) -> (r: bool)
        ensures
            r == self@.full(n as nat),
    {
        match self.limit {
            Some(l) => n >= l,
            None => false,
        }
    }

    /// Does the key come before the first one wanted?
    fn is_early(&self, key: &[u8]) -> (r: bool)
        ensures
            r == self@.too_early(key@),
    {
        match &self.from {
            None => false,
            Some(f) => if self.inclusive {
                bytes_lt(key, f.as_slice())
            } else {
                !bytes_lt(f.as_slice(), key)
            },
        }
    }

    /// Does the key come after the last one wanted?
    pub(crate) fn is_late(&self, key: &[u8]) -> (r: bool)
        ensures
            r == self@.too_late(key@),
    {
        match &self.until {
            None => false,
            Some(u) => !bytes_lt(key, u.as_slice()),
        }
    }

    /// All entries.
    pub fn all() -> (r: Query)
        ensures
            r@ == everything(),
    {
        Query { log: false, from: None, inclusive: false, until: None, limit: None }
    }

    /// At most `limit` entries after a key.
    pub fn after(after: Option<&[u8]>, limit: usize) -> (r: Query)
        ensures
            r@ == page_after(
                match after {
                    Some(k) => Some(k@),
                    None => None,
                },
                limit as nat,
            ),
    {
        let from: Option<Vec<u8>> = match after {
            Some(k) => Some(copy_of(k)),
            None => None,
        };
        Query { log: false, from, inclusive: false, until: None, limit: Some(limit) }
    }
}

impl Space {
    /// The value under `key`.
    pub fn get(&mut self, namespace: Namespace, key: &[u8]) -> (r: Result<Option<Vec<u8>>, Error>)
        requires
            old(self).wf(),
        ensures
            final(self).wf(),
            quiet(*old(self), *final(self)),
            match r {
                Ok(v) => value_of(
                    old(self).file@,
                    old(self).state.superblock@,
                    old(self).walk_now(),
                    namespace,
                    key@,
                ) == Ok::<Option<Seq<u8>>, Error>(opt_bytes(v)),
                Err(e) => value_of(
                    old(self).file@,
                    old(self).state.superblock@,
                    old(self).walk_now(),
                    namespace,
                    key@,
                ) == Err::<Option<Seq<u8>>, Error>(e),
            },
    {
        let root = match self.find_root(namespace) {
            Err(e) => {
                return Err(e);
            },
            Ok(None) => {
                return Ok(None);
            },
            Ok(Some(r)) => r,
        };
        let mut walk = self.new_tree_walk();
        let mut depth: u8 = 0;
        let mut slot: u64 = root.index_slot;
        let ghost img = self.file@;
        let ghost cap = walk@.max_depth as int;
        let ghost want = search(img, namespace, key@, slot, 0, walk@, cap);
        loop
            invariant
                self.wf(),
                quiet(*old(self), *self),
                img == self.file@,
                walk.wf(),
                cap == walk@.max_depth,
                depth <= cap + 1,
                want == search(img, namespace, key@, slot, depth as int, walk@, cap),
                want == value_of(
                    old(self).file@,
                    old(self).state.superblock@,
                    old(self).walk_now(),
                    namespace,
                    key@,
                ),
            decreases cap + 1 - depth,
        {
            match walk.visit(slot, depth) {
                Ok(()) => {},
                Err(e) => {
                    return Err(e);
                },
            }
            proof {
                lemma_node_sorted(img, slot, namespace);
            }
            match self.read_index_node_at_expected(slot, namespace) {
                Err(e) => {
                    return Err(e);
                },
                Ok(IndexNode::Leaf(l)) => {
                    return match l.get(key) {
                        Some(v) => Ok(Some(copy_of(v))),
                        None => Ok(None),
                    };
                },
                Ok(IndexNode::Internal(i)) => {
                    let idx: usize = i.child_index_for(key);
                    slot = i.children[idx].child_slot;
                    depth = depth + 1;
                },
            }
        }
    }

    /// Reads the wanted entries under the node at `slot`, from left to right,
    /// and says whether to stop there.
    pub(crate) fn collect_leaves_in_range_at(
        &self,
        slot: u64,
        namespace: Namespace,
        q: &Query,
        depth: u8,
        walk: &mut TreeWalk,
        out: &mut Vec<(Vec<u8>, Vec<u8>)>,
    ) -> (r: Result<bool, Error>)
        requires
            old(walk).wf(),
            depth <= old(walk)@.max_depth + 1,
        ensures
            final(walk).wf(),
            final(walk)@.max_depth == old(walk)@.max_depth,
            ({
                let g = gather(
                    self.file@,
                    namespace,
                    q@,
                    slot,
                    depth as int,
                    old(walk)@,
                    entries_view(old(out)@),
                    old(walk)@.max_depth as int,
                );
                &&& r == g.end
                &&& r is Ok ==> final(walk)@ == g.w && entries_view(final(out)@) == g.out
            }),
        decreases old(walk)@.max_depth + 1 - depth,
    {
        let ghost img = self.file@;
        let ghost cap = walk@.max_depth as int;
        let ghost out0 = entries_view(out@);
        let ghost w0 = walk@;
        let ghost want = gather(img, namespace, q@, slot, depth as int, w0, out0, cap);
        if q.is_full(out.len()) {
            return Ok(true);
        }
        match walk.visit(slot, depth) {
            Ok(()) => {},
            Err(e) => {
                return Err(e);
            },
        }
        let ghost w1 = walk@;
        proof {
            lemma_node_sorted(img, slot, namespace);
        }
        match self.read_index_node_at_expected(slot, namespace) {
            Err(e) => Err(e),
            Ok(IndexNode::Leaf(l)) => {
                let ghost es = l@.entries;
                let mut i: usize = 0;
                while i < l.entries.len()
                    invariant
                        i <= l.entries@.len(),
                        es == entries_view(l.entries@),
                        walk.wf(),
                        walk@ == w1,
                        w1.max_depth == cap,
                        old(walk)@.max_depth == cap,
                        want == scan(q@, es, i as int, w1, entries_view(out@)),
                        want == gather(
                            self.file@,
                            namespace,
                            q@,
                            slot,
                            depth as int,
                            old(walk)@,
                            entries_view(old(out)@),
                            cap,
                        ),
                    decreases l.entries@.len() - i,
                {
                    if q.is_full(out.len()) {
                        return Ok(true);
                    }
                    let key = l.entries[i].0.as_slice();
                    if q.log && key.len() != 8 {
                        return Err(
                            Error::WrongNamespaceKind(
                                "log walker: non-8-byte key (KV namespace passed to log API?)",
                            ),
                        );
                    }
                    if !q.is_early(key) {
                        if q.is_late(key) {
                            return Ok(true);
                        }
                        let ghost had = entries_view(out@);
                        out.push((copy_of(key), copy_of(l.entries[i].1.as_slice())));
                        assert(entries_view(out@) =~= had.push(es[i as int]));
                    }
                    i = i + 1;
                }
                Ok(q.is_full(out.len()))
            },
            Ok(IndexNode::Internal(node)) => {
                let ghost cs = node@.children;
                let first: usize = match &q.from {
                    None => 0,
                    Some(f) => node.child_index_for(f.as_slice()),
                };
                let mut i: usize = first;
                while i < node.children.len()
                    invariant
                        i <= node.children@.len(),
                        cs == node@.children,
                        walk.wf(),
                        walk@.max_depth == cap,
                        old(walk)@.max_depth == cap,
                        depth <= cap,
                        cap <= 32,
                        img == self.file@,
                        want == gather_kids(
                            img,
                            namespace,
                            q@,
                            cs,
                            i as int,
                            depth + 1,
                            walk@,
                            entries_view(out@),
                            cap,
                        ),
                        want == gather(
                            img,
                            namespace,
                            q@,
                            slot,
                            depth as int,
                            old(walk)@,
                            entries_view(old(out)@),
                            cap,
                        ),
                    decreases node.children@.len() - i,
                {
                    assert(cs[i as int].child_slot == node.children@[i as int].child_slot);
                    match self.collect_leaves_in_range_at(
                        node.children[i].child_slot,
                        namespace,
                        q,
                        depth + 1,
                        walk,
                        out,
                    ) {
                        Err(e) => {
                            return Err(e);
                        },
                        Ok(stop) => {
                            if stop {
                                return Ok(true);
                            }
                        },
                    }
                    i = i + 1;
                }
                Ok(false)
            },
        }
    }

    /// Reads the entries that a query wants of the tree with its root at
    /// `slot`.
    pub(crate) fn collect_page(&self, slot: u64, namespace: Namespace, q: &Query) -> (r: Result<
        WipedPairs,
        Error,
    >)
        requires
            self.wf(),
        ensures
            match r {
                Ok(page) => page_of(self.file@, self.walk_now(), namespace, q@, slot) == Ok::<
                    Seq<EntryView>,
                    Error,
                >(entries_view(page.0@)),
                Err(e) => page_of(self.file@, self.walk_now(), namespace, q@, slot) == Err::<
                    Seq<EntryView>,
                    Error,
                >(e),
            },
    {
        let mut page = WipedPairs::new(Vec::new());
        assert(entries_view(page.0@) =~= Seq::<EntryView>::empty());
        let mut walk = self.new_tree_walk();
        match self.collect_leaves_in_range_at(slot, namespace, q, 0, &mut walk, &mut page.0) {
            Ok(_) => Ok(page),
            Err(e) => {
                page.wipe();
                Err(e)
            },
        }
    }

    /// Reads the entries of a namespace that a query wants.
    fn read_range(&mut self, namespace: Namespace, q: &Query) -> (r: Result<WipedPairs, Error>)
        requires
            old(self).wf(),
        ensures
            final(self).wf(),
            quiet(*old(self), *final(self)),
            match r {
                Ok(page) => range_of(
                    old(self).file@,
                    old(self).state.superblock@,
                    old(self).walk_now(),
                    namespace,
                    q@,
                ) == Ok::<Seq<EntryView>, Error>(entries_view(page.0@)),
                Err(e) => range_of(
                    old(self).file@,
                    old(self).state.superblock@,
                    old(self).walk_now(),
                    namespace,
                    q@,
                ) == Err::<Seq<EntryView>, Error>(e),
            },
    {
        let root = match self.find_root(namespace) {
            Err(e) => {
                return Err(e);
            },
            Ok(None) => {
                let page = WipedPairs::new(Vec::new());
                assert(entries_view(page.0@) =~= Seq::<EntryView>::empty());
                return Ok(page);
            },
            Ok(Some(r)) => r,
        };
        self.collect_page(root.index_slot, namespace, q)
    }

    /// All entries of a namespace, by rising key.
    pub fn list(&mut self, namespace: Namespace) -> (r: Result<Vec<(Vec<u8>, Vec<u8>)>, Error>)
        requires
            old(self).wf(),
        ensures
            final(self).wf(),
            quiet(*old(self), *final(self)),
            match r {
                Ok(v) => range_of(
                    old(self).file@,
                    old(self).state.superblock@,
                    old(self).walk_now(),
                    namespace,
                    everything(),
                ) == Ok::<Seq<EntryView>, Error>(entries_view(v@)),
                Err(e) => range_of(
                    old(self).file@,
                    old(self).state.superblock@,
                    old(self).walk_now(),
                    namespace,
                    everything(),
                ) == Err::<Seq<EntryView>, Error>(e),
            },
    {
        match self.read_range(namespace, &Query::all()) {
            Ok(page) => {
                let mut guard = page;
                Ok(guard.take())
            },
            Err(e) => Err(e),
        }
    }

    /// At most `limit` entries of a namespace after a key, by rising key.
    pub fn list_after(
        &mut self,
        namespace: Namespace,
        after: Option<&[u8]>,
        limit: usize,
    ) -> (r: Result<Vec<(Vec<u8>, Vec<u8>)>, Error>)
        requires
            old(self).wf(),
        ensures
            final(self).wf(),
            quiet(*old(self), *final(self)),
            limit == 0 ==> r is Ok && r->Ok_0@.len() == 0,
            limit > 0 ==> match r {
                Ok(v) => range_of(
                    old(self).file@,
                    old(self).state.superblock@,
                    old(self).walk_now(),
                    namespace,
                    page_after(
                        match after {
                            Some(k) => Some(k@),
                            None => None,
                        },
                        limit as nat,
                    ),
                ) == Ok::<Seq<EntryView>, Error>(entries_view(v@)),
                Err(e) => range_of(
                    old(self).file@,
                    old(self).state.superblock@,
                    old(self).walk_now(),
                    namespace,
                    page_after(
                        match after {
                            Some(k) => Some(k@),
                            None => None,
                        },
                        limit as nat,
                    ),
                ) == Err::<Seq<EntryView>, Error>(e),
            },
    {
        if limit == 0 {
            return Ok(Vec::new());
        }
        match self.read_range(namespace, &Query::after(after, limit)) {
            Ok(page) => {
                let mut guard = page;
                Ok(guard.take())
            },
            Err(e) => Err(e),
        }
    }

    /// At most `limit` keys of a namespace after a key, rising.
    pub fn list_keys_after(
        &mut self,
        namespace: Namespace,
        after: Option<&[u8]>,
        limit: usize,
    ) -> (r: Result<Vec<Vec<u8>>, Error>)
        requires
            old(self).wf(),
        ensures
            final(self).wf(),
            quiet(*old(self), *final(self)),
            limit == 0 ==> r is Ok && r->Ok_0@.len() == 0,
            limit > 0 ==> match range_of(
                old(self).file@,
                old(self).state.superblock@,
                old(self).walk_now(),
                namespace,
                page_after(
                    match after {
                        Some(k) => Some(k@),
                        None => None,
                    },
                    limit as nat,
                ),
            ) {
                Ok(es) => r is Ok && keys_view(r->Ok_0@) == keys_of(es),
                Err(e) => r == Err::<Vec<Vec<u8>>, Error>(e),
            },
    {
        if limit == 0 {
            return Ok(Vec::new());
        }
        match self.read_range(namespace, &Query::after(after, limit)) {
            Ok(page) => {
                let mut guard = page;
                Ok(keys_only(&mut guard))
            },
            Err(e) => Err(e),
        }
    }

    /// All keys of a namespace, rising.
    pub fn list_keys(&mut self, namespace: Namespace) -> (r: Result<Vec<Vec<u8>>, Error>)
        requires
            old(self).wf(),
        ensures
            final(self).wf(),
            quiet(*old(self), *final(self)),
            match range_of(
                old(self).file@,
                old(self).state.superblock@,
                old(self).walk_now(),
                namespace,
                everything(),
            ) {
                Ok(es) => r is Ok && keys_view(r->Ok_0@) == keys_of(es),
                Err(e) => r == Err::<Vec<Vec<u8>>, Error>(e),
            },
    {
        match self.read_range(namespace, &Query::all()) {
            Ok(page) => {
                let mut guard = page;
                Ok(keys_only(&mut guard))
            },
            Err(e) => Err(e),
        }
    }
}

/// The keys of a page, of which everything is cleared.
fn keys_only(page: &mut WipedPairs) -> (r: Vec<Vec<u8>>)
    ensures
        keys_view(r@) == keys_of(entries_view(old(page).0@)),
        final(page).0@.len() == old(page).0@.len(),
        forall|i: int|
            0 <= i < final(page).0@.len() ==> (#[trigger] final(page).0@[i]).0@.len() == 0
                && final(page).0@[i].1@.len() == 0,
{
    let ghost es = entries_view(page.0@);
    let mut keys = WipedKeys::new(Vec::with_capacity(page.0.len()));
    let mut i: usize = 0;
    while i < page.0.len()
        invariant
            i <= page.0@.len(),
            es == entries_view(page.0@),
            keys.0@.len() == i,
            forall|j: int| 0 <= j < i ==> (#[trigger] keys.0@[j])@ == es[j].0,
        decreases page.0@.len() - i,
    {
        keys.0.push(copy_of(page.0[i].0.as_slice()));
        i = i + 1;
    }
    page.wipe();
    let out = keys.take();
    assert(keys_view(out@) =~= keys_of(es));
    out
}

// ---------------------------------------------------------------------------
// From right to left
// ---------------------------------------------------------------------------

/// Reads the first `i` entries of a leaf, from the last to the first.
pub open spec fn scan_back(
    q: QueryView,
    es: Seq<EntryView>,
    i: int,
    w: WalkView,
    out: Seq<EntryView>,
) -> Gathered
    decreases i,
{
    if i <= 0 {
        Gathered { w, out, end: Ok(q.full(out.len())) }
    } else if q.full(out.len()) {
        Gathered { w, out, end: Ok(true) }
    } else if q.log && es[i - 1].0.len() != 8 {
        Gathered { w, out, end: Err(not_a_log()) }
    } else if q.too_late(es[i - 1].0) {
        scan_back(q, es, i - 1, w, out)
    } else {
        scan_back(q, es, i - 1, w, out.push(es[i - 1]))
    }
}

/// The last child that can hold a wanted key.
pub open spec fn last_wanted(q: QueryView, cs: Seq<ChildView>) -> int {
    match q.until {
        None => cs.len() - 1,
        Some(u) => child_index(cs, u),
    }
}

/// Reads the wanted entries under the node at `slot`, from right to left.
pub open spec fn gather_back(
    img: Image,
    ns: Namespace,
    q: QueryView,
    slot: u64,
    depth: int,
    w: WalkView,
    out: Seq<EntryView>,
    cap: int,
) -> Gathered
    decreases cap - depth + 1, 0int,
{
    if q.full(out.len()) {
        Gathered { w, out, end: Ok(true) }
    } else {
        match walk_refusal(w, slot, depth) {
            Some(why) => Gathered { w, out, end: Err(Error::Malformed(why)) },
            None => if depth > cap {
                Gathered {
                    w,
                    out,
                    end: Err(
                        Error::Malformed("tree deeper than this space's chunk count can hold"),
                    ),
                }
            } else {
                match node_at(img, slot, ns) {
                    Err(e) => Gathered { w: walk_step(w, slot), out, end: Err(e) },
                    Ok(NodeView::Leaf(l)) => scan_back(
                        q,
                        l.entries,
                        l.entries.len() as int,
                        walk_step(w, slot),
                        out,
                    ),
                    Ok(NodeView::Internal(n)) => gather_kids_back(
                        img,
                        ns,
                        q,
                        n.children,
                        last_wanted(q, n.children) + 1,
                        depth + 1,
                        walk_step(w, slot),
                        out,
                        cap,
                    ),
                }
            },
        }
    }
}

/// Reads the wanted entries under the first `i` children, from the last to
/// the first.
pub open spec fn gather_kids_back(
    img: Image,
    ns: Namespace,
    q: QueryView,
    cs: Seq<ChildView>,
    i: int,
    depth: int,
    w: WalkView,
    out: Seq<EntryView>,
    cap: int,
) -> Gathered
    decreases cap - depth + 1, i + 1,
{
    if i <= 0 || i > cs.len() {
        Gathered { w, out, end: Ok(false) }
    } else {
        let g = gather_back(img, ns, q, cs[i - 1].child_slot, depth, w, out, cap);
        match g.end {
            Ok(false) => gather_kids_back(img, ns, q, cs, i - 1, depth, g.w, g.out, cap),
            _ => g,
        }
    }
}

/// What a range read from right to left gives, of the tree with its root at
/// `slot`.
pub open spec fn page_back(
    img: Image,
    w: WalkView,
    ns: Namespace,
    q: QueryView,
    slot: u64,
) -> Result<Seq<EntryView>, Error> {
    gathered(gather_back(img, ns, q, slot, 0, w, Seq::<EntryView>::empty(), w.max_depth as int))
}

impl Space {
    /// Reads the wanted entries under the node at `slot`, from right to left,
    /// and says whether to stop there.
    fn collect_leaves_before_at(
        &self,
        slot: u64,
        namespace: Namespace,
        q: &Query,
        depth: u8,
        walk: &mut TreeWalk,
        out: &mut Vec<(Vec<u8>, Vec<u8>)>,
    ) -> (r: Result<bool, Error>)
        requires
            old(walk).wf(),
            depth <= old(walk)@.max_depth + 1,
        ensures
            final(walk).wf(),
            final(walk)@.max_depth == old(walk)@.max_depth,
            ({
                let g = gather_back(
                    self.file@,
                    namespace,
                    q@,
                    slot,
                    depth as int,
                    old(walk)@,
                    entries_view(old(out)@),
                    old(walk)@.max_depth as int,
                );
                &&& r == g.end
                &&& r is Ok ==> final(walk)@ == g.w && entries_view(final(out)@) == g.out
            }),
        decreases old(walk)@.max_depth + 1 - depth,
    {
        let ghost img = self.file@;
        let ghost cap = walk@.max_depth as int;
        let ghost out0 = entries_view(out@);
        let ghost w0 = walk@;
        let ghost want = gather_back(img, namespace, q@, slot, depth as int, w0, out0, cap);
        if q.is_full(out.len()) {
            return Ok(true);
        }
        match walk.visit(slot, depth) {
            Ok(()) => {},
            Err(e) => {
                return Err(e);
            },
        }
        let ghost w1 = walk@;
        proof {
            lemma_node_sorted(img, slot, namespace);
        }
        match self.read_index_node_at_expected(slot, namespace) {
            Err(e) => Err(e),
            Ok(IndexNode::Leaf(l)) => {
                let ghost es = l@.entries;
                let mut i: usize = l.entries.len();
                while i > 0
                    invariant
                        i <= l.entries@.len(),
                        es == entries_view(l.entries@),
                        walk.wf(),
                        walk@ == w1,
                        w1.max_depth == cap,
                        old(walk)@.max_depth == cap,
                        want == scan_back(q@, es, i as int, w1, entries_view(out@)),
                        want == gather_back(
                            self.file@,
                            namespace,
                            q@,
                            slot,
                            depth as int,
                            old(walk)@,
                            entries_view(old(out)@),
                            cap,
                        ),
                    decreases i,
                {
                    if q.is_full(out.len()) {
                        return Ok(true);
                    }
                    let key = l.entries[i - 1].0.as_slice();
                    if q.log && key.len() != 8 {
                        return Err(
                            Error::WrongNamespaceKind(
                                "log walker: non-8-byte key (KV namespace passed to log API?)",
                            ),
                        );
                    }
                    if !q.is_late(key) {
                        let ghost had = entries_view(out@);
                        out.push((copy_of(key), copy_of(l.entries[i - 1].1.as_slice())));
                        assert(entries_view(out@) =~= had.push(es[i - 1]));
                    }
                    i = i - 1;
                }
                Ok(q.is_full(out.len()))
            },
            Ok(IndexNode::Internal(node)) => {
                let ghost cs = node@.children;
                assert(cs.len() == node.children@.len());
                let last: usize = match &q.until {
                    None => node.children.len() - 1,
                    Some(u) => node.child_index_for(u.as_slice()),
                };
                let width: usize = node.children.len();
                assert(last < width);
                let mut i: usize = last + 1;
                while i > 0
                    invariant
                        i <= node.children@.len(),
                        cs == node@.children,
                        walk.wf(),
                        walk@.max_depth == cap,
                        old(walk)@.max_depth == cap,
                        depth <= cap,
                        cap <= 32,
                        img == self.file@,
                        want == gather_kids_back(
                            img,
                            namespace,
                            q@,
                            cs,
                            i as int,
                            depth + 1,
                            walk@,
                            entries_view(out@),
                            cap,
                        ),
                        want == gather_back(
                            img,
                            namespace,
                            q@,
                            slot,
                            depth as int,
                            old(walk)@,
                            entries_view(old(out)@),
                            cap,
                        ),
                    decreases i,
                {
                    assert(cs[i - 1].child_slot == node.children@[i - 1].child_slot);
                    match self.collect_leaves_before_at(
                        node.children[i - 1].child_slot,
                        namespace,
                        q,
                        depth + 1,
                        walk,
                        out,
                    ) {
                        Err(e) => {
                            return Err(e);
                        },
                        Ok(stop) => {
                            if stop {
                                return Ok(true);
                            }
                        },
                    }
                    i = i - 1;
                }
                Ok(false)
            },
        }
    }

    /// Reads the entries that a query wants of the tree with its root at
    /// `slot`, from right to left.
    pub(crate) fn collect_page_back(&self, slot: u64, namespace: Namespace, q: &Query) -> (r:
        Result<WipedPairs, Error>)
        requires
            self.wf(),
        ensures
            match r {
                Ok(page) => page_back(self.file@, self.walk_now(), namespace, q@, slot) == Ok::<
                    Seq<EntryView>,
                    Error,
                >(entries_view(page.0@)),
                Err(e) => page_back(self.file@, self.walk_now(), namespace, q@, slot) == Err::<
                    Seq<EntryView>,
                    Error,
                >(e),
            },
    {
        let mut page = WipedPairs::new(Vec::new());
        assert(entries_view(page.0@) =~= Seq::<EntryView>::empty());
        let mut walk = self.new_tree_walk();
        match self.collect_leaves_before_at(slot, namespace, q, 0, &mut walk, &mut page.0) {
            Ok(_) => Ok(page),
            Err(e) => {
                page.wipe();
                Err(e)
            },
        }
    }
}

} // verus!
