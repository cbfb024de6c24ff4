//! Frequency tally of submitted guesses across a session, feeding the
//! statistics display that names the most-used words.

use crate::word::{wf_list, word_in, Word};
use vstd::prelude::*;

verus! {

/// How often each word has been guessed; every word is listed once.
pub struct GuessTally {
    words: Vec<Word>,
    counts: Vec<u32>,
}

impl GuessTally {
    /// The tallied words, in first-use order.
    pub closed spec fn spec_words(&self) -> Seq<Word> {
        self.words@
    }

    /// The use count of each tallied word.
    pub closed spec fn spec_counts(&self) -> Seq<u32> {
        self.counts@
    }

    /// One count per word, all words five letters, no word twice.
    pub open spec fn wf(&self) -> bool {
        &&& self.spec_words().len() == self.spec_counts().len()
        &&& wf_list(self.spec_words())
        &&& forall|i: int, j: int|
            0 <= i < j < self.spec_words().len() ==> self.spec_words()[i]@
                != self.spec_words()[j]@
    }

    /// An empty tally.
    pub fn new() -> (r: GuessTally)
        ensures
            r.wf(),
            r.spec_words().len() == 0,
    {
        GuessTally { words: Vec::new(), counts: Vec::new() }
    }

    /// Counts one more use of `w`.  A word already tallied has its count
    /// grow by one (stopping at the counter's maximum); a new word
    /// enters with count one.
    pub fn bump(&mut self, w: &Word)
        requires
            old(self).wf(),
            w.wf(),
            old(self).spec_words().len() < usize::MAX,
        ensures
            final(self).wf(),
            final(self).spec_words().len() == old(self).spec_words().len() + (if word_in(
                old(self).spec_words(),
                w@,
            ) {
                0int
            } else {
                1int
            }),
            forall|j: int|
                0 <= j < old(self).spec_words().len() ==> final(self).spec_words()[j] == old(
                    self,
                ).spec_words()[j],
            forall|j: int|
                0 <= j < old(self).spec_words().len() ==> final(self).spec_counts()[j] == (if old(
                    self,
                ).spec_words()[j]@ == w@ {
                    (if old(self).spec_counts()[j] == u32::MAX {
                        u32::MAX
                    } else {
                        (old(self).spec_counts()[j] + 1) as u32
                    })
                } else {
                    old(self).spec_counts()[j]
                }),
            !word_in(old(self).spec_words(), w@) ==> final(self).spec_words().last()@ == w@
                && final(self).spec_counts().last() == 1,
    {
        let n = self.words.len();
        let mut i: usize = 0;
        while i < n
            invariant
                self.wf(),
                w.wf(),
                *self == *old(self),
                n == self.spec_words().len(),
                0 <= i <= n,
                forall|j: int| 0 <= j < i ==> self.spec_words()[j]@ != w@,
            decreases n - i,
        {
            if self.words[i].same_word(w) {
                let cur = self.counts[i];
                let bumped = if cur == u32::MAX {
                    u32::MAX
                } else {
                    cur + 1
                };
                self.counts[i] = bumped;
                proof {
                    assert(word_in(self.spec_words(), w@));
                }
                return;
            }
            i += 1;
        }
        self.words.push(w.copy_word());
        self.counts.push(1);
        proof {
            assert(!word_in(old(self).spec_words(), w@));
        }
    }

    /// The tallied words, for ranking.
    pub fn words(&self) -> (r: &Vec<Word>)
        ensures
            r@ == self.spec_words(),
    {
        &self.words
    }

    /// The counts widened for use as ranking scores.
    pub fn scores(&self) -> (r: Vec<u64>)
        ensures
            r@.len() == self.spec_counts().len(),
            forall|j: int| 0 <= j < r@.len() ==> r@[j] == self.spec_counts()[j] as u64,
    {
        let n = self.counts.len();
        let mut r: Vec<u64> = Vec::new();
        let mut i: usize = 0;
        while i < n
            invariant
                n == self.spec_counts().len(),
                0 <= i <= n,
                r@.len() == i,
                forall|j: int| 0 <= j < i ==> r@[j] == self.spec_counts()[j] as u64,
            decreases n - i,
        {
            r.push(self.counts[i] as u64);
            i += 1;
        }
        r
    }

    /// The count of one tallied word.
    pub fn count_at(&self, i: usize) -> (c: u32)
        requires
            self.wf(),
            i < self.spec_counts().len(),
        ensures
            c == self.spec_counts()[i as int],
    {
        self.counts[i]
    }
}

} // verus!
