//! Pages of plaintext that are cleared when they are given up.

use vstd::prelude::*;
use zeroize::Zeroize;

verus! {

/// `Zeroize::zeroize` of the crate zeroize on a `Vec<u8>`: every byte it
/// holds is overwritten with zero, and it is left empty.
#[verifier::external_body]
pub(crate) fn zeroize_bytes(v: &mut Vec<u8>)
    ensures
        final(v)@ == Seq::<u8>::empty(),
{
    v.zeroize();
}

/// A page of keys and values.
pub struct WipedPairs(pub Vec<(Vec<u8>, Vec<u8>)>);

impl WipedPairs {
    /// A page of these pairs.
    pub fn new(v: Vec<(Vec<u8>, Vec<u8>)>) -> (r: WipedPairs)
        ensures
            r.0 == v,
    {
        WipedPairs(v)
    }

    /// Clears every key and value still on the page.
    pub fn wipe(&mut self)
        ensures
            final(self).0@.len() == old(self).0@.len(),
            forall|i: int|
                0 <= i < final(self).0@.len() ==> (#[trigger] final(self).0@[i]).0@.len() == 0
                    && final(self).0@[i].1@.len() == 0,
    {
        let mut i: usize = 0;
        while i < self.0.len()
            invariant
                i <= self.0@.len(),
                self.0@.len() == old(self).0@.len(),
                forall|j: int|
                    0 <= j < i ==> (#[trigger] self.0@[j]).0@.len() == 0 && self.0@[j].1@.len()
                        == 0,
            decreases self.0@.len() - i,
        {
            zeroize_bytes(&mut self.0[i].0);
            zeroize_bytes(&mut self.0[i].1);
            i = i + 1;
        }
    }

    /// Hands the page over and leaves nothing to clear.
    pub fn take(&mut self) -> (r: Vec<(Vec<u8>, Vec<u8>)>)
        ensures
            r == old(self).0,
            final(self).0@.len() == 0,
    {
        let mut out: Vec<(Vec<u8>, Vec<u8>)> = Vec::new();
        std::mem::swap(&mut out, &mut self.0);
        out
    }
}

/// A page of keys.
pub struct WipedKeys(pub Vec<Vec<u8>>);

impl WipedKeys {
    /// A page of these keys.
    pub fn new(v: Vec<Vec<u8>>) -> (r: WipedKeys)
        ensures
            r.0 == v,
    {
        WipedKeys(v)
    }

    /// Clears every key still on the page.
    pub fn wipe(&mut self)
        ensures
            final(self).0@.len() == old(self).0@.len(),
            forall|i: int|
                0 <= i < final(self).0@.len() ==> (#[trigger] final(self).0@[i])@.len() == 0,
    {
        let mut i: usize = 0;
        while i < self.0.len()
            invariant
                i <= self.0@.len(),
                self.0@.len() == old(self).0@.len(),
                forall|j: int| 0 <= j < i ==> (#[trigger] self.0@[j])@.len() == 0,
            decreases self.0@.len() - i,
        {
            zeroize_bytes(&mut self.0[i]);
            i = i + 1;
        }
    }

    /// Hands the page over and leaves nothing to clear.
    pub fn take(&mut self) -> (r: Vec<Vec<u8>>)
        ensures
            r == old(self).0,
            final(self).0@.len() == 0,
    {
        let mut out: Vec<Vec<u8>> = Vec::new();
        std::mem::swap(&mut out, &mut self.0);
        out
    }
}

/// A page of log records.
pub struct WipedLogPage(pub Vec<(u64, Vec<u8>)>);

impl WipedLogPage {
    /// Clears every payload on the page. Record numbers are no secret and
    /// stay.
    pub fn wipe(&mut self)
        ensures
            final(self).0@.len() == old(self).0@.len(),
            forall|i: int|
                0 <= i < final(self).0@.len() ==> (#[trigger] final(self).0@[i]).0 == old(
                    self,
                ).0@[i].0 && final(self).0@[i].1@.len() == 0,
    {
        let mut i: usize = 0;
        while i < self.0.len()
            invariant
                i <= self.0@.len(),
                self.0@.len() == old(self).0@.len(),
                forall|j: int|
                    0 <= j < self.0@.len() ==> (#[trigger] self.0@[j]).0 == old(self).0@[j].0,
                forall|j: int| 0 <= j < i ==> (#[trigger] self.0@[j]).1@.len() == 0,
            decreases self.0@.len() - i,
        {
            zeroize_bytes(&mut self.0[i].1);
            i = i + 1;
        }
    }
}

} // verus!
