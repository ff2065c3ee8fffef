//! Random words, drawn in advance and handed out in order.

use vstd::prelude::*;

use crate::error::Error;

verus! {

/// A supply of random words.
#[derive(Debug)]
pub struct Entropy {
    /// The words, used from the front.
    pub words: Vec<u64>,
    /// How many have been used.
    pub used: usize,
}

impl Entropy {
    /// No more words are used than there are.
    pub open spec fn wf(self) -> bool {
        self.used <= self.words@.len()
    }

    /// The words that are left.
    pub open spec fn left(self) -> Seq<u64> {
        self.words@.skip(self.used as int)
    }

    /// A supply of these words.
    pub fn new(words: Vec<u64>) -> (r: Entropy)
        ensures
            r.wf(),
            r.left() == words@,
    {
        assert(words@.skip(0) =~= words@);
        Entropy { words, used: 0 }
    }

    /// The next word, if there is one.
    pub fn draw(&mut self) -> (r: Result<u64, Error>)
        requires
            old(self).wf(),
        ensures
            final(self).wf(),
            old(self).left().len() == 0 ==> r == Err::<u64, Error>(Error::Rng) && *final(self)
                == *old(self),
            old(self).left().len() > 0 ==> r == Ok::<u64, Error>(old(self).left()[0])
                && final(self).left() == old(self).left().drop_first(),
    {
        if self.used >= self.words.len() {
            return Err(Error::Rng);
        }
        let w: u64 = self.words[self.used];
        self.used = self.used + 1;
        assert(self.left() =~= old(self).left().drop_first());
        Ok(w)
    }
}

} // verus!
