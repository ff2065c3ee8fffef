//! The container file as one space sees it: a grid of slots, each of which
//! either opens under the space's key or looks like noise.

use vstd::prelude::*;

use crate::chunk::{Plaintext, PlaintextView};
use crate::error::Error;

verus! {

/// What each slot opens to; `None` where it does not open.
pub type Image = Seq<Option<PlaintextView>>;

/// Whether a handle may write.
#[derive(Debug, Clone, Copy, PartialEq, Eq, Structural)]
pub enum LockMode {
    /// One writer.
    Exclusive,
    /// Readers only.
    Shared,
}

impl LockMode {
    /// May this handle write?
    #[must_use]
    pub fn allows_writes(self) -> (r: bool)
        ensures
            r == (self == LockMode::Exclusive),
    {
        match self {
            LockMode::Exclusive => true,
            LockMode::Shared => false,
        }
    }
}

/// How much noise is appended after a commit, to hide its size.
#[derive(Debug, Clone, Copy, PartialEq, Eq, Structural)]
pub enum PaddingPolicy {
    /// No noise.
    Off,
    /// Up to the next multiple of `bucket_chunks` slots.
    BucketGrowth { bucket_chunks: u64 },
    /// `noise_per_chunk` slots for each slot that the commit added.
    FixedRatio { noise_per_chunk: u64 },
}

/// How many slots of noise a commit is followed by.
pub open spec fn padding_after(policy: PaddingPolicy, total: u64, added: u64) -> int {
    match policy {
        PaddingPolicy::Off => 0,
        PaddingPolicy::BucketGrowth { bucket_chunks } => if bucket_chunks == 0 || total
            % bucket_chunks == 0 {
            0
        } else {
            bucket_chunks - total % bucket_chunks
        },
        PaddingPolicy::FixedRatio { noise_per_chunk } => added * noise_per_chunk,
    }
}

impl PaddingPolicy {
    /// How many slots of noise follow a commit that added `added` slots and
    /// left the file at `total`.
    pub fn garbage_after_commit(self, total: u64, added: u64) -> (r: Result<u64, Error>)
        ensures
            match r {
                Ok(n) => n == padding_after(self, total, added),
                Err(e) => e == Error::ContainerTooLarge && padding_after(self, total, added)
                    > u64::MAX,
            },
    {
        match self {
            PaddingPolicy::Off => Ok(0),
            PaddingPolicy::BucketGrowth { bucket_chunks } => {
                if bucket_chunks == 0 || total % bucket_chunks == 0 {
                    Ok(0)
                } else {
                    Ok(bucket_chunks - total % bucket_chunks)
                }
            },
            PaddingPolicy::FixedRatio { noise_per_chunk } => {
                match added.checked_mul(noise_per_chunk) {
                    Some(n) => Ok(n),
                    None => Err(Error::ContainerTooLarge),
                }
            },
        }
    }
}

/// The open container file.
pub struct ContainerFile {
    /// What each slot opens to.
    pub slots: Vec<Option<Plaintext>>,
    /// Whether this handle may write.
    pub lock_mode: LockMode,
    /// How much noise follows a commit.
    pub padding_policy: PaddingPolicy,
    /// How many copies of a superblock a publish writes.
    pub superblock_replicas: u8,
    /// How many more writes the device takes; `None` for any number.
    pub writes_left: Option<u64>,
    /// How many more slots the device has room for; `None` for any number.
    pub room_left: Option<u64>,
    /// The slots that have been written to since the file was opened.
    pub written: Ghost<Set<u64>>,
    /// What was in the slots when everything written was last on the device.
    pub durable: Ghost<Image>,
}

/// What each slot opens to.
pub open spec fn image_of(slots: Seq<Option<Plaintext>>) -> Image {
    Seq::new(
        slots.len(),
        |i: int|
            match slots[i] {
                Some(p) => Some(p@),
                None => None,
            },
    )
}

impl View for ContainerFile {
    type V = Image;

    open spec fn view(&self) -> Image {
        image_of(self.slots@)
    }
}

/// The chunk at `slot`, or why it cannot be read.
pub open spec fn chunk_at(img: Image, slot: u64) -> Result<PlaintextView, Error> {
    if slot >= img.len() {
        Err(Error::Io("slot past the end of the container"))
    } else {
        match img[slot as int] {
            None => Err(Error::AuthFailed),
            Some(p) => Ok(p),
        }
    }
}

/// Does the slot open?
pub open spec fn live(img: Image, slot: u64) -> bool {
    slot < img.len() && img[slot as int] is Some
}

/// Everything that opened before opens as it did.
pub open spec fn extends(a: Image, b: Image) -> bool {
    &&& a.len() <= b.len()
    &&& forall|s: u64| #[trigger] live(a, s) ==> live(b, s) && b[s as int] == a[s as int]
}

/// Whether the device takes one more write.
pub open spec fn takes_write(f: ContainerFile) -> bool {
    f.writes_left != Some(0u64)
}

/// Whether the device has room for one more slot.
pub open spec fn has_room(f: ContainerFile) -> bool {
    f.room_left != Some(0u64)
}

/// What is left of a device's writes after one, or of its room.
pub open spec fn one_write_less(w: Option<u64>) -> Option<u64> {
    match w {
        None => None,
        Some(n) => Some((n - 1) as u64),
    }
}

/// The device takes `n` writes more, or has room for `n` slots more.
pub open spec fn affords(w: Option<u64>, n: int) -> bool {
    w matches Some(left) ==> n <= left
}

/// What is left of a device's writes after `n`, or of its room.
pub open spec fn writes_less(w: Option<u64>, n: int) -> Option<u64> {
    match w {
        None => None,
        Some(left) => Some((left - n) as u64),
    }
}

/// The device does not take one more slot, and says why.
pub open spec fn refused_slot(f: ContainerFile, e: Error) -> bool {
    if !takes_write(f) {
        e == Error::Io("device refused the write")
    } else {
        !has_room(f) && e == Error::Io("no room on the device")
    }
}

/// The two files differ in nothing but what their slots hold and how many
/// writes and how much room are left.
pub open spec fn same_settings(a: ContainerFile, b: ContainerFile) -> bool {
    &&& a.lock_mode == b.lock_mode
    &&& a.padding_policy == b.padding_policy
    &&& a.superblock_replicas == b.superblock_replicas
}

/// From `a` to `b` nothing has been written to but these slots and slots past
/// the end of `a`.
pub open spec fn wrote_only(a: ContainerFile, b: ContainerFile, may: Set<u64>) -> bool {
    forall|s: u64| #[trigger]
        b.written@.contains(s) ==> a.written@.contains(s) || may.contains(s) || s >= a@.len()
}

/// What is on the device was in the slots and is still there: it is what was
/// on it in `a`, or all that `a` held and more.
pub open spec fn flushed(a: ContainerFile, b: ContainerFile) -> bool {
    b.durable == a.durable || (extends(a@, b.durable@) && extends(b.durable@, b@))
}

/// What may be left of a file when the device loses power: each slot as it was
/// when everything was last on the device, or as it has been written since, or,
/// where it was being written, noise.
pub open spec fn torn(f: ContainerFile, c: Image) -> bool {
    &&& f.durable@.len() <= c.len() <= f@.len()
    &&& forall|s: int|
        0 <= s < c.len() ==> {
            ||| #[trigger] c[s] == f@[s]
            ||| s < f.durable@.len() && c[s] == f.durable@[s]
            ||| c[s] is None && (s >= f.durable@.len() || f.durable@[s] != f@[s])
        }
}

/// What is on the device, and is still in the slots, is left.
pub proof fn lemma_torn_extends(f: ContainerFile, c: Image)
    requires
        torn(f, c),
        extends(f.durable@, f@),
    ensures
        extends(f.durable@, c),
        forall|s: u64| #[trigger] live(c, s) ==> live(f@, s) && c[s as int] == f@[s as int],
{
    assert forall|s: u64| #[trigger] live(f.durable@, s) implies live(c, s) && c[s as int]
        == f.durable@[s as int] by {
        assert(live(f@, s));
        assert(c[s as int] == f@[s as int] || c[s as int] == f.durable@[s as int] || c[s as int]
            is None);
    }
    assert forall|s: u64| #[trigger] live(c, s) implies live(f@, s) && c[s as int]
        == f@[s as int] by {
        if c[s as int] != f@[s as int] {
            assert(live(f.durable@, s));
        }
    }
}

impl ContainerFile {
    /// An open file with these slots.
    pub fn new(slots: Vec<Option<Plaintext>>, lock_mode: LockMode) -> (r: ContainerFile)
        ensures
            r.slots == slots,
            r.lock_mode == lock_mode,
            r.padding_policy == PaddingPolicy::Off,
            r.superblock_replicas == 1,
            r.writes_left is None,
            r.room_left is None,
            r.written@ == Set::<u64>::empty(),
            r.durable@ == r@,
    {
        let ghost img = image_of(slots@);
        ContainerFile {
            slots,
            lock_mode,
            padding_policy: PaddingPolicy::Off,
            superblock_replicas: 1,
            writes_left: None,
            room_left: None,
            written: Ghost(Set::<u64>::empty()),
            durable: Ghost(img),
        }
    }

    /// How many slots the file has.
    #[must_use]
    pub fn slot_count(&self) -> (r: u64)
        ensures
            r == self@.len(),
            r <= usize::MAX,
    {
        self.slots.len() as u64
    }

    /// What the slot opens to.
    pub fn open_slot(&self, slot: u64) -> (r: Result<&Plaintext, Error>)
        ensures
            match r {
                Ok(p) => chunk_at(self@, slot) == Ok::<PlaintextView, Error>(p@),
                Err(e) => chunk_at(self@, slot) == Err::<PlaintextView, Error>(e),
            },
    {
        if slot >= self.slots.len() as u64 {
            return Err(Error::Io("slot past the end of the container"));
        }
        match &self.slots[slot as usize] {
            Some(p) => Ok(p),
            None => Err(Error::AuthFailed),
        }
    }

    /// Counts one write, if the handle may write and the device takes it.
    fn begin_write(&mut self) -> (r: Result<(), Error>)
        ensures
            final(self).slots == old(self).slots,
            final(self).written == old(self).written,
            final(self).durable == old(self).durable,
            final(self).room_left == old(self).room_left,
            same_settings(*old(self), *final(self)),
            match r {
                Ok(()) => old(self).lock_mode == LockMode::Exclusive && takes_write(*old(self))
                    && final(self).writes_left == one_write_less(old(self).writes_left),
                Err(e) => *final(self) == *old(self) && if old(self).lock_mode
                    != LockMode::Exclusive {
                    e == Error::ReadOnly
                } else {
                    !takes_write(*old(self)) && e == Error::Io("device refused the write")
                },
            },
    {
        if !self.lock_mode.allows_writes() {
            return Err(Error::ReadOnly);
        }
        match self.writes_left {
            None => {},
            Some(n) => {
                if n == 0 {
                    return Err(Error::Io("device refused the write"));
                }
                self.writes_left = Some(n - 1);
            },
        }
        Ok(())
    }

    /// Adds a slot at the end.
    pub fn append_slot(&mut self, content: Option<Plaintext>) -> (r: Result<u64, Error>)
        ensures
            same_settings(*old(self), *final(self)),
            match r {
                Ok(slot) => {
                    &&& old(self).lock_mode == LockMode::Exclusive
                    &&& takes_write(*old(self))
                    &&& has_room(*old(self))
                    &&& slot == old(self)@.len()
                    &&& slot < usize::MAX
                    &&& final(self)@ == old(self)@.push(
                        match content {
                            Some(p) => Some(p@),
                            None => None,
                        },
                    )
                    &&& final(self).writes_left == one_write_less(old(self).writes_left)
                    &&& final(self).room_left == one_write_less(old(self).room_left)
                    &&& final(self).written@ == old(self).written@.insert(slot)
                    &&& final(self).durable == old(self).durable
                },
                Err(e) => *final(self) == *old(self) && if old(self).lock_mode
                    != LockMode::Exclusive {
                    e == Error::ReadOnly
                } else {
                    refused_slot(*old(self), e)
                },
            },
    {
        if self.lock_mode.allows_writes() && self.room_left == Some(0) && self.writes_left
            != Some(0) {
            return Err(Error::Io("no room on the device"));
        }
        match self.begin_write() {
            Ok(()) => {},
            Err(e) => {
                return Err(e);
            },
        }
        self.room_left = match self.room_left {
            None => None,
            Some(n) => Some(n - 1),
        };
        let ghost before = self@;
        self.slots.push(content);
        let count: usize = self.slots.len();
        proof {
            self.written@ = self.written@.insert((count - 1) as u64);
        }
        assert(self@ =~= before.push(
            match content {
                Some(p) => Some(p@),
                None => None,
            },
        ));
        Ok(count as u64 - 1)
    }

    /// Writes over a slot.
    pub fn write_slot(&mut self, slot: u64, content: Option<Plaintext>) -> (r: Result<(), Error>)
        requires
            slot < old(self)@.len(),
        ensures
            same_settings(*old(self), *final(self)),
            match r {
                Ok(()) => {
                    &&& old(self).lock_mode == LockMode::Exclusive
                    &&& takes_write(*old(self))
                    &&& final(self)@ == old(self)@.update(
                        slot as int,
                        match content {
                            Some(p) => Some(p@),
                            None => None,
                        },
                    )
                    &&& final(self).writes_left == one_write_less(old(self).writes_left)
                    &&& final(self).room_left == old(self).room_left
                    &&& final(self).written@ == old(self).written@.insert(slot)
                    &&& final(self).durable == old(self).durable
                },
                Err(e) => *final(self) == *old(self) && if old(self).lock_mode
                    != LockMode::Exclusive {
                    e == Error::ReadOnly
                } else {
                    !takes_write(*old(self)) && e == Error::Io("device refused the write")
                },
            },
    {
        match self.begin_write() {
            Ok(()) => {},
            Err(e) => {
                return Err(e);
            },
        }
        let ghost before = self@;
        assert(slot < self.slots.len());
        self.slots.set(slot as usize, content);
        proof {
            self.written@ = self.written@.insert(slot);
        }
        assert(self@ =~= before.update(
            slot as int,
            match content {
                Some(p) => Some(p@),
                None => None,
            },
        ));
        Ok(())
    }

    /// Writes noise over a slot.
    pub fn scrub_slot(&mut self, slot: u64) -> (r: Result<(), Error>)
        requires
            slot < old(self)@.len(),
        ensures
            same_settings(*old(self), *final(self)),
            match r {
                Ok(()) => {
                    &&& old(self).lock_mode == LockMode::Exclusive
                    &&& takes_write(*old(self))
                    &&& final(self)@ == old(self)@.update(slot as int, None)
                    &&& final(self).writes_left == one_write_less(old(self).writes_left)
                    &&& final(self).room_left == old(self).room_left
                    &&& final(self).written@ == old(self).written@.insert(slot)
                    &&& final(self).durable == old(self).durable
                },
                Err(e) => *final(self) == *old(self) && if old(self).lock_mode
                    != LockMode::Exclusive {
                    e == Error::ReadOnly
                } else {
                    !takes_write(*old(self)) && e == Error::Io("device refused the write")
                },
            },
    {
        self.write_slot(slot, None)
    }

    /// Waits until everything written is on the device. There is nothing to
    /// wait for on a handle that does not write.
    pub fn fsync(&mut self) -> (r: Result<(), Error>)
        ensures
            final(self).slots == old(self).slots,
            final(self).written == old(self).written,
            final(self).room_left == old(self).room_left,
            same_settings(*old(self), *final(self)),
            old(self).lock_mode != LockMode::Exclusive ==> r is Ok && *final(self) == *old(self),
            old(self).lock_mode == LockMode::Exclusive ==> match r {
                Ok(()) => takes_write(*old(self)) && final(self).writes_left == one_write_less(
                    old(self).writes_left,
                ) && final(self).durable@ == old(self)@,
                Err(e) => *final(self) == *old(self) && !takes_write(*old(self)) && e
                    == Error::Io("device refused to flush"),
            },
    {
        if !self.lock_mode.allows_writes() {
            return Ok(());
        }
        match self.writes_left {
            None => {},
            Some(n) => {
                if n == 0 {
                    return Err(Error::Io("device refused to flush"));
                }
                self.writes_left = Some(n - 1);
            },
        }
        proof {
            self.durable@ = self@;
        }
        Ok(())
    }

    /// Appends slots of noise. Stops where the device takes no more.
    pub fn append_garbage_chunks(&mut self, count: u64) -> (r: Result<(), Error>)
        ensures
            same_settings(*old(self), *final(self)),
            wrote_only(*old(self), *final(self), Set::<u64>::empty()),
            old(self)@.len() <= final(self)@.len() <= old(self)@.len() + count,
            final(self)@.take(old(self)@.len() as int) == old(self)@,
            forall|i: int|
                old(self)@.len() <= i < final(self)@.len() ==> (#[trigger] final(self)@[i]) is None,
            final(self).durable == old(self).durable,
            match r {
                Ok(()) => {
                    &&& final(self)@.len() == old(self)@.len() + count
                    &&& affords(old(self).writes_left, count as int)
                    &&& final(self).writes_left == writes_less(old(self).writes_left, count as int)
                    &&& affords(old(self).room_left, count as int)
                    &&& final(self).room_left == writes_less(old(self).room_left, count as int)
                },
                Err(e) => {
                    &&& count > 0
                    &&& if old(self).lock_mode != LockMode::Exclusive {
                        e == Error::ReadOnly && *final(self) == *old(self)
                    } else {
                        let n = final(self)@.len() - old(self)@.len();
                        &&& refused_slot(*final(self), e)
                        &&& final(self).writes_left == writes_less(old(self).writes_left, n)
                        &&& final(self).room_left == writes_less(old(self).room_left, n)
                    }
                },
            },
            old(self).writes_left is None ==> final(self).writes_left is None,
            old(self).room_left is None ==> final(self).room_left is None,
    {
        let mut i: u64 = 0;
        let ghost start = self@;
        assert(start.take(start.len() as int) =~= start);
        while i < count
            invariant
                i <= count,
                start == old(self)@,
                same_settings(*old(self), *self),
                wrote_only(*old(self), *self, Set::<u64>::empty()),
                self@.len() == start.len() + i,
                self@.take(start.len() as int) == start,
                forall|k: int| start.len() <= k < self@.len() ==> (#[trigger] self@[k]) is None,
                old(self).writes_left is None ==> self.writes_left is None,
                affords(old(self).writes_left, i as int),
                affords(old(self).room_left, i as int),
                self.room_left == writes_less(old(self).room_left, i as int),
                self.writes_left == writes_less(old(self).writes_left, i as int),
                self.durable == old(self).durable,
                i > 0 ==> old(self).lock_mode == LockMode::Exclusive,
                i == 0 ==> *self == *old(self),
            decreases count - i,
        {
            let ghost before = self@;
            match self.append_slot(None) {
                Ok(_) => {},
                Err(e) => {
                    return Err(e);
                },
            }
            assert(self@.take(start.len() as int) =~= before.take(start.len() as int));
            i = i + 1;
        }
        Ok(())
    }
}

/// Everything extends itself.
pub proof fn lemma_extends_refl(a: Image)
    ensures
        extends(a, a),
{
}

/// Extending twice is extending.
pub proof fn lemma_extends_trans(a: Image, b: Image, c: Image)
    requires
        extends(a, b),
        extends(b, c),
    ensures
        extends(a, c),
{
    assert forall|s: u64| #[trigger] live(a, s) implies live(c, s) && c[s as int] == a[s as int] by {
        assert(live(b, s));
    }
}

} // verus!
