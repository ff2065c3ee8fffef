//! A set of slots, one bit per slot.

use vstd::prelude::*;
use vstd::string::*;

verus! {

/// Is bit `b` of `word` set?
pub open spec fn bit(word: u64, b: u64) -> bool {
    (word >> b) & 1 == 1
}

proof fn lemma_bit_zero(b: u64)
    requires
        b < 64,
    ensures
        !bit(0, b),
{
    assert((0u64 >> b) & 1 == 0) by (bit_vector);
}

proof fn lemma_bit_set(w: u64, b: u64, c: u64)
    requires
        b < 64,
        c < 64,
    ensures
        bit(w | (1u64 << b), c) == (c == b || bit(w, c)),
{
    assert((((w | (1u64 << b)) >> c) & 1 == 1) == (c == b || (w >> c) & 1 == 1)) by (bit_vector)
        requires
            b < 64,
            c < 64,
    ;
}

proof fn lemma_bit_clear(w: u64, b: u64, c: u64)
    requires
        b < 64,
        c < 64,
    ensures
        bit(w & !(1u64 << b), c) == (c != b && bit(w, c)),
{
    assert((((w & !(1u64 << b)) >> c) & 1 == 1) == (c != b && (w >> c) & 1 == 1)) by (bit_vector)
        requires
            b < 64,
            c < 64,
    ;
}

proof fn lemma_bit_test(w: u64, b: u64)
    requires
        b < 64,
    ensures
        (w & (1u64 << b) != 0) == bit(w, b),
{
    assert((w & (1u64 << b) != 0) == ((w >> b) & 1 == 1)) by (bit_vector)
        requires
            b < 64,
    ;
}

/// The slots of one word, in order, are the members of `members` that fall in
/// it.
pub open spec fn lists_word(v: Seq<u64>, index: int, word: u64) -> bool {
    &&& rising(v)
    &&& forall|s: u64| v.contains(s) <==> s / 64 == index && bit(word, s % 64)
}

/// Strictly rising.
pub open spec fn rising(v: Seq<u64>) -> bool {
    forall|i: int, j: int| 0 <= i < j < v.len() ==> v[i] < v[j]
}

/// The members of `set`, each once, in rising order.
pub open spec fn lists(v: Seq<u64>, set: Set<u64>) -> bool {
    &&& rising(v)
    &&& forall|s: u64| v.contains(s) <==> set.contains(s)
}

/// A list of a set's members is as long as the set is large.
pub proof fn lemma_lists_len(v: Seq<u64>, set: Set<u64>)
    requires
        lists(v, set),
    ensures
        set.finite(),
        v.len() == set.len(),
{
    assert(v.no_duplicates());
    v.unique_seq_to_set();
    v.lemma_cardinality_of_set();
    assert(v.to_set() =~= set);
}

/// Two rising lists of one set are equal.
pub proof fn lemma_lists_unique(v: Seq<u64>, w: Seq<u64>, set: Set<u64>)
    requires
        lists(v, set),
        lists(w, set),
    ensures
        v == w,
    decreases v.len(),
{
    lemma_lists_len(v, set);
    lemma_lists_len(w, set);
    if v.len() > 0 {
        let a = v.last();
        let b = w.last();
        assert(v.contains(a) && w.contains(b));
        assert(w.contains(a) && v.contains(b));
        let i = choose|i: int| 0 <= i < w.len() && w[i] == a;
        let j = choose|j: int| 0 <= j < v.len() && v[j] == b;
        assert(a <= b && b <= a);
        let rest = set.remove(a);
        assert(lists(v.drop_last(), rest)) by {
            assert forall|s: u64| v.drop_last().contains(s) <==> rest.contains(s) by {
                if v.drop_last().contains(s) {
                    let k = choose|k: int| 0 <= k < v.drop_last().len() && v.drop_last()[k] == s;
                    assert(v[k] == s);
                    assert(v.contains(s));
                }
                if rest.contains(s) {
                    assert(v.contains(s));
                    let k = choose|k: int| 0 <= k < v.len() && v[k] == s;
                    assert(v.drop_last()[k] == s);
                }
            }
        }
        assert(lists(w.drop_last(), rest)) by {
            assert forall|s: u64| w.drop_last().contains(s) <==> rest.contains(s) by {
                if w.drop_last().contains(s) {
                    let k = choose|k: int| 0 <= k < w.drop_last().len() && w.drop_last()[k] == s;
                    assert(w[k] == s);
                    assert(w.contains(s));
                }
                if rest.contains(s) {
                    assert(w.contains(s));
                    let k = choose|k: int| 0 <= k < w.len() && w[k] == s;
                    assert(w.drop_last()[k] == s);
                }
            }
        }
        lemma_lists_unique(v.drop_last(), w.drop_last(), rest);
        assert(v =~= v.drop_last().push(a));
        assert(w =~= w.drop_last().push(b));
    } else {
        assert(v =~= w);
    }
}

/// How many members of `set` are below `s`.
pub open spec fn rank_of(set: Set<u64>, s: u64) -> nat {
    set.filter(|t: u64| t < s).len()
}

/// A number in decimal digits.
pub open spec fn decimal(n: nat) -> Seq<char>
    decreases n,
{
    if n < 10 {
        seq![('0' as u32 + n as u32) as char]
    } else {
        decimal(n / 10).push(('0' as u32 + (n % 10) as u32) as char)
    }
}

/// One digit.
fn digit_text(d: usize) -> (r: &'static str)
    requires
        d < 10,
    ensures
        r@ == decimal(d as nat),
{
    let text: &'static str = match d {
        0 => "0",
        1 => "1",
        2 => "2",
        3 => "3",
        4 => "4",
        5 => "5",
        6 => "6",
        7 => "7",
        8 => "8",
        _ => "9",
    };
    proof {
        reveal_strlit("0");
        reveal_strlit("1");
        reveal_strlit("2");
        reveal_strlit("3");
        reveal_strlit("4");
        reveal_strlit("5");
        reveal_strlit("6");
        reveal_strlit("7");
        reveal_strlit("8");
        reveal_strlit("9");
        assert(text@ =~= decimal(d as nat));
    }
    text
}

/// The number in decimal digits, without sign or leading zeros.
fn decimal_text(n: usize) -> (r: String)
    ensures
        r@ == decimal(n as nat),
    decreases n,
{
    if n < 10 {
        return digit_text(n).to_string();
    }
    let mut text = decimal_text(n / 10);
    text.append(digit_text(n % 10));
    assert(text@ =~= decimal(n as nat));
    text
}

/// The `u64` words that can hold a bit for every `u64` slot.
pub const MAX_WORDS: u64 = 0x0400_0000_0000_0000;

/// A slot number that this machine can count up to.
pub open spec fn countable(slot: u64) -> bool {
    slot < usize::MAX
}

/// A set of slots that grows to hold whatever is put in.
#[derive(PartialEq, Eq)]
pub struct OwnedSet {
    /// One bit per slot: slot `s` is bit `s % 64` of word `s / 64`.
    pub words: Vec<u64>,
    /// How many slots are in the set.
    pub len: usize,
}

/// Does the bitmap hold slot `s`?
pub open spec fn words_have(words: Seq<u64>, s: u64) -> bool {
    s / 64 < words.len() && bit(words[(s / 64) as int], s % 64)
}

impl View for OwnedSet {
    type V = Set<u64>;

    open spec fn view(&self) -> Set<u64> {
        Set::new(|s: u64| words_have(self.words@, s))
    }
}

impl Default for OwnedSet {
    fn default() -> (r: OwnedSet)
        ensures
            r.wf(),
            r@ == Set::<u64>::empty(),
    {
        OwnedSet::with_capacity(0)
    }
}

impl Clone for OwnedSet {
    fn clone(&self) -> (r: OwnedSet)
        ensures
            r@ == self@,
            self.wf() ==> r.wf(),
    {
        let mut words: Vec<u64> = Vec::with_capacity(self.words.len());
        words.extend_from_slice(self.words.as_slice());
        assert(words@ =~= self.words@);
        OwnedSet { words, len: self.len }
    }
}

impl OwnedSet {
    /// The count is right.
    pub open spec fn wf(self) -> bool {
        &&& self.words@.len() <= MAX_WORDS
        &&& self@.finite()
        &&& self.len == self@.len()
        &&& forall|s: u64| #[trigger] self@.contains(s) ==> countable(s)
    }

    /// An empty set with room for slots below `capacity`.
    pub fn with_capacity(capacity: u64) -> (r: OwnedSet)
        requires
            (capacity + 63) / 64 <= usize::MAX,
        ensures
            r.wf(),
            r@ == Set::<u64>::empty(),
            r.words@.len() == (capacity + 63) / 64,
    {
        let mut n: u64 = capacity / 64;
        if capacity % 64 != 0 {
            n = n + 1;
        }
        let words: Vec<u64> = vec![0u64; n as usize];
        let r = OwnedSet { words, len: 0 };
        assert(r@ =~= Set::<u64>::empty()) by {
            assert forall|s: u64| !words_have(r.words@, s) by {
                lemma_bit_zero(s % 64);
            }
        }
        r
    }

    /// Makes room for slot `slot`.
    fn grow_for(&mut self, slot: u64)
        requires
            old(self).wf(),
            countable(slot),
        ensures
            final(self).wf(),
            final(self)@ == old(self)@,
            slot / 64 < final(self).words@.len(),
    {
        let w: usize = (slot / 64) as usize;
        if w >= self.words.len() {
            let ghost before = self.words@;
            self.words.resize(w + 1, 0);
            assert(self@ =~= old(self)@) by {
                assert forall|s: u64| words_have(self.words@, s) == words_have(before, s) by {
                    lemma_bit_zero(s % 64);
                }
            }
        }
    }

    /// Puts `slot` in. True if it was not there.
    pub fn insert(&mut self, slot: u64) -> (r: bool)
        requires
            old(self).wf(),
            countable(slot),
        ensures
            final(self).wf(),
            final(self)@ == old(self)@.insert(slot),
            r == !old(self)@.contains(slot),
    {
        self.grow_for(slot);
        let ghost grown = self@;
        let w: usize = (slot / 64) as usize;
        let b: u64 = slot % 64;
        let word: u64 = self.words[w];
        let mask: u64 = 1u64 << b;
        proof {
            lemma_bit_test(word, b);
        }
        if word & mask != 0 {
            assert(self@ =~= old(self)@.insert(slot));
            return false;
        }
        let ghost before = self.words@;
        self.words.set(w, word | mask);
        proof {
            assert(self@ =~= old(self)@.insert(slot)) by {
                assert forall|s: u64| self@.contains(s) == old(self)@.insert(slot).contains(s) by {
                    lemma_bit_set(word, b, s % 64);
                    assert(grown.contains(s) == words_have(before, s));
                }
            }
            lemma_set_bounded(old(self)@.insert(slot));
        }
        self.len = self.len + 1;
        true
    }

    /// Takes `slot` out. True if it was there.
    pub fn remove(&mut self, slot: u64) -> (r: bool)
        requires
            old(self).wf(),
        ensures
            final(self).wf(),
            final(self)@ == old(self)@.remove(slot),
            r == old(self)@.contains(slot),
    {
        if slot / 64 >= self.words.len() as u64 {
            assert(self@ =~= old(self)@.remove(slot));
            return false;
        }
        let w: usize = (slot / 64) as usize;
        let b: u64 = slot % 64;
        let word: u64 = self.words[w];
        let mask: u64 = 1u64 << b;
        proof {
            lemma_bit_test(word, b);
        }
        if word & mask == 0 {
            assert(self@ =~= old(self)@.remove(slot));
            return false;
        }
        let ghost before = self.words@;
        self.words.set(w, word & !mask);
        proof {
            assert(self@ =~= old(self)@.remove(slot)) by {
                assert forall|s: u64|
                    words_have(self.words@, s) == (s != slot && words_have(before, s)) by {
                    lemma_bit_clear(word, b, s % 64);
                }
            }
            assert(old(self)@.contains(slot));
        }
        self.len = self.len - 1;
        true
    }

    /// Is `slot` in the set?
    pub fn contains(&self, slot: u64) -> (r: bool)
        ensures
            r == self@.contains(slot),
    {
        if slot / 64 >= self.words.len() as u64 {
            return false;
        }
        let w: usize = (slot / 64) as usize;
        proof {
            lemma_bit_test(self.words@[w as int], slot % 64);
        }
        self.words[w] & (1u64 << (slot % 64)) != 0
    }

    /// How many slots are in the set?
    #[must_use]
    pub fn len(&self) -> (r: usize)
        requires
            self.wf(),
        ensures
            r == self@.len(),
    {
        self.len
    }

    /// Is the set empty?
    #[must_use]
    pub fn is_empty(&self) -> (r: bool)
        requires
            self.wf(),
        ensures
            r == (self@.len() == 0),
    {
        self.len == 0
    }

    /// Says how many slots there are, and not which.
    pub fn shown(&self) -> (r: String)
        ensures
            r@ == "OwnedSet("@ + decimal(self.len as nat) + " slots)"@,
    {
        let mut text = "OwnedSet(".to_owned();
        text.append(decimal_text(self.len).as_str());
        text.append(" slots)");
        text
    }

    /// How many words the bitmap has.
    pub fn word_count(&self) -> (r: usize)
        ensures
            r == self.words@.len(),
    {
        self.words.len()
    }

    /// Word `index` of the bitmap; zero past its end.
    pub fn word(&self, index: usize) -> (r: u64)
        ensures
            r == if index < self.words@.len() {
                self.words@[index as int]
            } else {
                0
            },
    {
        if index < self.words.len() {
            self.words[index]
        } else {
            0
        }
    }

    /// Bytes that the bitmap takes.
    pub fn heap_bytes(&self) -> (r: usize)
        requires
            self.words@.len() * 8 <= usize::MAX,
        ensures
            r == self.words@.len() * 8,
    {
        self.words.len() * 8
    }

    /// The members, in rising order.
    pub fn to_sorted_vec(&self) -> (r: Vec<u64>)
        requires
            self.wf(),
        ensures
            lists(r@, self@),
    {
        let mut v: Vec<u64> = Vec::with_capacity(self.len);
        self.list_into(&mut v);
        v
    }

    /// The members, in rising order, unless there is no memory for the list.
    /// An empty set takes no memory to list. For any other it is the allocator
    /// that decides: `sorted_in` says what is given for either answer.
    pub fn try_to_sorted_vec(&self) -> (r: Result<
        Vec<u64>,
        std::collections::TryReserveError,
    >)
        requires
            self.wf(),
        ensures
            r matches Ok(v) ==> lists(v@, self@),
            self@.len() == 0 ==> r is Ok,
    {
        let mut v: Vec<u64> = Vec::new();
        if self.len == 0 {
            return self.sorted_in(Ok(v));
        }
        match v.try_reserve(self.len) {
            Err(e) => self.sorted_in(Err(e)),
            Ok(()) => self.sorted_in(Ok(v)),
        }
    }

    /// The members, in rising order, in the empty list that is there for them;
    /// where there is none, why not.
    pub fn sorted_in(&self, room: Result<Vec<u64>, std::collections::TryReserveError>) -> (r: Result<
        Vec<u64>,
        std::collections::TryReserveError,
    >)
        requires
            self.wf(),
            room matches Ok(v) ==> v@.len() == 0,
        ensures
            match room {
                Ok(_) => r matches Ok(v) && lists(v@, self@),
                Err(e) => r == Err::<Vec<u64>, std::collections::TryReserveError>(e),
            },
    {
        match room {
            Err(e) => Err(e),
            Ok(list) => {
                let mut v: Vec<u64> = list;
                self.list_into(&mut v);
                Ok(v)
            },
        }
    }

    /// Appends the members to an empty list, in rising order.
    fn list_into(&self, v: &mut Vec<u64>)
        requires
            self.wf(),
            old(v)@.len() == 0,
        ensures
            lists(final(v)@, self@),
    {
        let mut w: usize = 0;
        while w < self.words.len()
            invariant
                self.wf(),
                w <= self.words@.len(),
                rising(v@),
                forall|s: u64| v@.contains(s) <==> (s / 64 < w && words_have(self.words@, s)),
            decreases self.words@.len() - w,
        {
            let mut part: Vec<u64> = slots_in_word(w, self.words[w]);
            let ghost head = v@;
            let ghost tail = part@;
            v.append(&mut part);
            proof {
                assert(v@ =~= head + tail);
                assert forall|i: int, j: int| 0 <= i < j < v@.len() implies v@[i] < v@[j] by {
                    if i < head.len() && j >= head.len() {
                        assert(head.contains(v@[i]));
                        assert(tail[j - head.len()] == v@[j]);
                        assert(tail.contains(v@[j]));
                    }
                }
                assert forall|s: u64| v@.contains(s) <==> (s / 64 < w + 1 && words_have(
                    self.words@,
                    s,
                )) by {
                    if v@.contains(s) {
                        let k = choose|k: int| 0 <= k < v@.len() && v@[k] == s;
                        if k < head.len() {
                            assert(head.contains(s));
                        } else {
                            assert(tail[k - head.len()] == s);
                            assert(tail.contains(s));
                        }
                    }
                    if s / 64 < w && words_have(self.words@, s) {
                        assert(head.contains(s));
                        let k = choose|k: int| 0 <= k < head.len() && head[k] == s;
                        assert(v@[k] == s);
                    }
                    if s / 64 == w && words_have(self.words@, s) {
                        assert(tail.contains(s));
                        let k = choose|k: int| 0 <= k < tail.len() && tail[k] == s;
                        assert(v@[head.len() + k] == s);
                    }
                }
            }
            w = w + 1;
        }
    }

    /// Keeps the members that `f` is true of.
    pub fn retain<F: Fn(u64) -> bool>(&mut self, f: F)
        requires
            old(self).wf(),
            forall|s: u64| #[trigger] f.requires((s,)),
        ensures
            final(self).wf(),
            forall|s: u64|
                #[trigger] final(self)@.contains(s) ==> old(self)@.contains(s) && f.ensures(
                    (s,),
                    true,
                ),
            forall|s: u64|
                #[trigger] old(self)@.contains(s) && !final(self)@.contains(s) ==> f.ensures(
                    (s,),
                    false,
                ),
    {
        let all: Vec<u64> = self.to_sorted_vec();
        let mut i: usize = 0;
        while i < all.len()
            invariant
                self.wf(),
                i <= all@.len(),
                lists(all@, old(self)@),
                forall|s: u64| #[trigger] f.requires((s,)),
                forall|s: u64| #[trigger] self@.contains(s) ==> old(self)@.contains(s),
                forall|k: int|
                    0 <= k < i ==> if self@.contains(#[trigger] all@[k]) {
                        f.ensures((all@[k],), true)
                    } else {
                        f.ensures((all@[k],), false)
                    },
                forall|k: int| i <= k < all@.len() ==> self@.contains(#[trigger] all@[k]),
            decreases all@.len() - i,
        {
            let s: u64 = all[i];
            let keep: bool = f(s);
            if !keep {
                self.remove(s);
            }
            i = i + 1;
        }
        proof {
            assert forall|s: u64| #[trigger] self@.contains(s) implies old(self)@.contains(s)
                && f.ensures((s,), true) by {
                assert(old(self)@.contains(s));
                assert(all@.contains(s));
            }
            assert forall|s: u64| #[trigger]
                old(self)@.contains(s) && !self@.contains(s) implies f.ensures((s,), false) by {
                assert(all@.contains(s));
            }
        }
    }

    /// Takes out every member of `gone`.
    pub fn remove_all(&mut self, gone: &OwnedSet)
        requires
            old(self).wf(),
            gone.wf(),
        ensures
            final(self).wf(),
            final(self)@ == old(self)@.difference(gone@),
    {
        let list: Vec<u64> = gone.to_sorted_vec();
        let mut i: usize = 0;
        assert(self@ =~= old(self)@.difference(list@.take(0).to_set()));
        while i < list.len()
            invariant
                self.wf(),
                i <= list@.len(),
                self@ == old(self)@.difference(list@.take(i as int).to_set()),
            decreases list@.len() - i,
        {
            self.remove(list[i]);
            proof {
                let next = list@.take(i + 1);
                lemma_take_to_set(list@, i as int);
                assert(self@ =~= old(self)@.difference(next.to_set()));
            }
            i = i + 1;
        }
        proof {
            assert(list@.take(i as int) =~= list@);
            assert(list@.to_set() =~= gone@);
        }
    }

    /// Puts in every member of `other`.
    pub fn union_from(&mut self, other: &OwnedSet)
        requires
            old(self).wf(),
            other.wf(),
        ensures
            final(self).wf(),
            final(self)@ == old(self)@.union(other@),
    {
        let list: Vec<u64> = other.to_sorted_vec();
        let mut i: usize = 0;
        assert(self@ =~= old(self)@.union(list@.take(0).to_set()));
        while i < list.len()
            invariant
                self.wf(),
                other.wf(),
                lists(list@, other@),
                i <= list@.len(),
                self@ == old(self)@.union(list@.take(i as int).to_set()),
            decreases list@.len() - i,
        {
            assert(list@.contains(list@[i as int]));
            self.insert(list[i]);
            proof {
                lemma_take_to_set(list@, i as int);
                assert(self@ =~= old(self)@.union(list@.take(i + 1).to_set()));
            }
            i = i + 1;
        }
        proof {
            assert(list@.take(i as int) =~= list@);
            assert(list@.to_set() =~= other@);
        }
    }

    /// The set of the listed slots.
    pub fn from_slots(slots: &[u64]) -> (r: OwnedSet)
        requires
            forall|i: int| 0 <= i < slots@.len() ==> countable(#[trigger] slots@[i]),
        ensures
            r.wf(),
            r@ == slots@.to_set(),
    {
        let mut set = OwnedSet::with_capacity(0);
        let mut i: usize = 0;
        assert(set@ =~= slots@.take(0).to_set());
        while i < slots.len()
            invariant
                set.wf(),
                i <= slots@.len(),
                forall|i: int| 0 <= i < slots@.len() ==> countable(#[trigger] slots@[i]),
                set@ == slots@.take(i as int).to_set(),
            decreases slots@.len() - i,
        {
            set.insert(slots[i]);
            proof {
                lemma_take_to_set(slots@, i as int);
                assert(set@ =~= slots@.take(i + 1).to_set());
            }
            i = i + 1;
        }
        assert(slots@.take(i as int) =~= slots@);
        set
    }

    /// Keeps the members below `high_water` that are not in `owned`.
    pub fn keep_below_and_not_in(&mut self, high_water: u64, owned: &OwnedSet)
        requires
            old(self).wf(),
        ensures
            final(self).wf(),
            final(self)@ == old(self)@.filter(|s: u64| s < high_water && !owned@.contains(s)),
    {
        let all: Vec<u64> = self.to_sorted_vec();
        let mut i: usize = 0;
        while i < all.len()
            invariant
                self.wf(),
                i <= all@.len(),
                lists(all@, old(self)@),
                forall|s: u64| #[trigger] self@.contains(s) ==> old(self)@.contains(s),
                forall|k: int|
                    0 <= k < i ==> (self@.contains(#[trigger] all@[k]) <==> all@[k] < high_water
                        && !owned@.contains(all@[k])),
                forall|k: int| i <= k < all@.len() ==> self@.contains(#[trigger] all@[k]),
            decreases all@.len() - i,
        {
            let s: u64 = all[i];
            if s >= high_water || owned.contains(s) {
                self.remove(s);
            }
            i = i + 1;
        }
        proof {
            let want = old(self)@.filter(|s: u64| s < high_water && !owned@.contains(s));
            assert forall|s: u64| self@.contains(s) == want.contains(s) by {
                if old(self)@.contains(s) {
                    assert(all@.contains(s));
                }
            }
            assert(self@ =~= want);
        }
    }

    /// The member with exactly `rank` members below it, if there is one.
    pub fn select(&self, rank: usize) -> (r: Option<u64>)
        requires
            self.wf(),
        ensures
            match r {
                Some(s) => self@.contains(s) && rank_of(self@, s) == rank,
                None => rank >= self@.len(),
            },
    {
        let mut seen: usize = 0;
        let mut w: usize = 0;
        let ghost mut below = Seq::<u64>::empty();
        while w < self.words.len()
            invariant
                self.wf(),
                w <= self.words@.len(),
                seen == below.len(),
                seen <= rank,
                rising(below),
                forall|s: u64| below.contains(s) <==> (s / 64 < w && self@.contains(s)),
            decreases self.words@.len() - w,
        {
            let part: Vec<u64> = slots_in_word(w, self.words[w]);
            proof {
                let next = below + part@;
                assert forall|i: int, j: int| 0 <= i < j < next.len() implies next[i] < next[j] by {
                    if i < below.len() && j >= below.len() {
                        assert(below.contains(next[i]));
                        assert(part@[j - below.len()] == next[j]);
                        assert(part@.contains(next[j]));
                    }
                }
                assert forall|s: u64| next.contains(s) <==> (s / 64 < w + 1 && self@.contains(
                    s,
                )) by {
                    if next.contains(s) {
                        let k = choose|k: int| 0 <= k < next.len() && next[k] == s;
                        if k < below.len() {
                            assert(below.contains(s));
                        } else {
                            assert(part@[k - below.len()] == s);
                            assert(part@.contains(s));
                        }
                    }
                    if s / 64 < w && self@.contains(s) {
                        assert(below.contains(s));
                        let k = choose|k: int| 0 <= k < below.len() && below[k] == s;
                        assert(next[k] == s);
                    }
                    if s / 64 == w && self@.contains(s) {
                        assert(part@.contains(s));
                        let k = choose|k: int| 0 <= k < part@.len() && part@[k] == s;
                        assert(next[below.len() + k] == s);
                    }
                }
                if rank - seen < part@.len() {
                    let at = rank - seen;
                    let s = part@[at];
                    assert(part@.contains(s));
                    let lower = next.take(below.len() + at);
                    assert(lists(lower, self@.filter(|t: u64| t < s))) by {
                        assert forall|t: u64| lower.contains(t) <==> self@.filter(
                            |t: u64| t < s,
                        ).contains(t) by {
                            if lower.contains(t) {
                                let k = choose|k: int| 0 <= k < lower.len() && lower[k] == t;
                                assert(next[k] == t);
                                assert(next.contains(t));
                                assert(next[k] < next[below.len() + at]);
                            }
                            if self@.contains(t) && t < s {
                                assert(t / 64 <= s / 64);
                                assert(next.contains(t));
                                let k = choose|k: int| 0 <= k < next.len() && next[k] == t;
                                assert(next[below.len() + at] == s);
                                if k >= below.len() + at {
                                    assert(next[k] >= s);
                                }
                                assert(lower[k] == t);
                            }
                        }
                    }
                    lemma_lists_len(lower, self@.filter(|t: u64| t < s));
                    assert(self@.contains(s));
                }
                below = next;
            }
            if rank - seen < part.len() {
                return Some(part[rank - seen]);
            }
            seen = seen + part.len();
            w = w + 1;
        }
        proof {
            assert(lists(below, self@));
            lemma_lists_len(below, self@);
        }
        None
    }
}

/// One more element of a list.
pub proof fn lemma_take_to_set(v: Seq<u64>, i: int)
    requires
        0 <= i < v.len(),
    ensures
        v.take(i + 1).to_set() == v.take(i).to_set().insert(v[i]),
{
    let a = v.take(i + 1);
    let b = v.take(i);
    assert forall|s: u64| a.to_set().contains(s) <==> b.to_set().insert(v[i]).contains(s) by {
        if a.contains(s) {
            let k = choose|k: int| 0 <= k < a.len() && a[k] == s;
            if k < i {
                assert(b[k] == s);
            }
        }
        if b.contains(s) {
            let k = choose|k: int| 0 <= k < b.len() && b[k] == s;
            assert(a[k] == s);
        }
        assert(a[i] == v[i]);
    }
    assert(a.to_set() =~= b.to_set().insert(v[i]));
}

/// A set of countable slots can be counted.
proof fn lemma_set_bounded(s: Set<u64>)
    requires
        s.finite(),
        forall|x: u64| #[trigger] s.contains(x) ==> countable(x),
    ensures
        s.len() <= usize::MAX,
{
    let n = usize::MAX as int;
    let all = vstd::set_lib::set_int_range(0, n);
    vstd::set_lib::lemma_int_range(0, n);
    let f = |x: u64| x as int;
    let ints = s.map(f);
    s.lemma_map_finite(f);
    vstd::set_lib::lemma_map_size(s, ints, f);
    assert(ints.subset_of(all));
    vstd::set_lib::lemma_len_subset(ints, all);
}

/// The slots whose bits are set in word `index` of a bitmap, in rising order.
pub fn slots_in_word(index: usize, bits: u64) -> (r: Vec<u64>)
    requires
        index < MAX_WORDS,
    ensures
        lists_word(r@, index as int, bits),
{
    let mut v: Vec<u64> = Vec::new();
    if bits == 0 {
        assert forall|s: u64| #[trigger]
            v@.contains(s) <==> (s / 64 == index && bit(bits, s % 64)) by {
            lemma_bit_zero(s % 64);
        }
        return v;
    }
    let base: u64 = index as u64 * 64;
    let mut b: u64 = 0;
    while b < 64
        invariant
            b <= 64,
            index < MAX_WORDS,
            base == index * 64,
            rising(v@),
            forall|s: u64|
                v@.contains(s) <==> (s / 64 == index && s % 64 < b && bit(bits, s % 64)),
        decreases 64 - b,
    {
        proof {
            lemma_bit_test(bits, b);
        }
        let ghost before = v@;
        if bits & (1u64 << b) != 0 {
            v.push(base + b);
        }
        proof {
            let x = (base + b) as u64;
            assert(x / 64 == index && x % 64 == b);
            assert forall|i: int, j: int| 0 <= i < j < v@.len() implies v@[i] < v@[j] by {
                if j == before.len() {
                    assert(before.contains(v@[i]));
                    assert(v@[i] % 64 < b && v@[i] / 64 == index);
                }
            }
            assert forall|s: u64|
                v@.contains(s) <==> (s / 64 == index && s % 64 < b + 1 && bit(bits, s % 64)) by {
                if v@.contains(s) {
                    let k = choose|k: int| 0 <= k < v@.len() && v@[k] == s;
                    if k < before.len() {
                        assert(before[k] == s);
                        assert(before.contains(s));
                    }
                }
                if s / 64 == index && s % 64 < b && bit(bits, s % 64) {
                    assert(before.contains(s));
                    let k = choose|k: int| 0 <= k < before.len() && before[k] == s;
                    assert(v@[k] == s);
                }
                if s / 64 == index && s % 64 == b && bit(bits, s % 64) {
                    assert(s == x);
                    assert(v@[before.len() as int] == x);
                }
            }
        }
        b = b + 1;
    }
    v
}

} // verus!
