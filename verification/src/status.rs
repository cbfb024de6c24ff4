//! Per-letter status accumulated across a game: the best information
//! seen so far for each of the 26 letters, under the precedence
//! Correct > Present > Absent > Unknown.  The status of a letter only
//! ever strengthens; it never regresses.

use crate::verdict::{Mark, Verdict};
use crate::word::{wf_word, Word};
use vstd::prelude::*;

verus! {

/// What a game has revealed about one letter so far.
#[derive(Clone, Copy, Debug, PartialEq, Eq, Structural)]
pub enum LetterState {
    /// Nothing seen yet.
    Unknown,
    /// Every scored occurrence exhausted the letter's supply.
    Absent,
    /// Seen somewhere in the secret, position unconfirmed.
    Present,
    /// Confirmed at some position.
    Correct,
}

/// The strength of a state in the precedence order.
pub open spec fn strength(s: LetterState) -> int {
    match s {
        LetterState::Unknown => 0,
        LetterState::Absent => 1,
        LetterState::Present => 2,
        LetterState::Correct => 3,
    }
}

/// The state a mark contributes for its letter.
pub open spec fn mark_strength(m: Mark) -> LetterState {
    match m {
        Mark::Correct => LetterState::Correct,
        Mark::Present => LetterState::Present,
        Mark::Absent => LetterState::Absent,
    }
}

/// Folding one mark into a letter's state: keep whichever is stronger.
pub open spec fn upgraded(cur: LetterState, m: Mark) -> LetterState {
    if strength(mark_strength(m)) > strength(cur) {
        mark_strength(m)
    } else {
        cur
    }
}

/// Folding the first `n` positions of a guess and its verdict into the
/// state of letter `c`.
pub open spec fn fold_status(
    old_state: LetterState,
    g: Seq<u8>,
    v: Seq<Mark>,
    c: u8,
    n: int,
) -> LetterState
    decreases n,
{
    if n <= 0 {
        old_state
    } else {
        let prev = fold_status(old_state, g, v, c, n - 1);
        if g[n - 1] == c {
            upgraded(prev, v[n - 1])
        } else {
            prev
        }
    }
}

/// Folding never weakens a letter's state.
pub proof fn lemma_fold_status_monotonic(
    old_state: LetterState,
    g: Seq<u8>,
    v: Seq<Mark>,
    c: u8,
    n: int,
)
    ensures
        strength(fold_status(old_state, g, v, c, n)) >= strength(old_state),
    decreases n,
{
    if n > 0 {
        lemma_fold_status_monotonic(old_state, g, v, c, n - 1);
    }
}

/// How one scored guess folds the 26 letter slots of `before` into
/// `after`.
pub open spec fn spec_updated(
    before: Seq<LetterState>,
    after: Seq<LetterState>,
    g: Seq<u8>,
    v: Seq<Mark>,
) -> bool {
    forall|l: int|
        0 <= l < 26 ==> #[trigger] after[l] == fold_status(before[l], g, v, (l + 97) as u8, 5)
}

/// The accumulated status of all 26 letters.
pub struct LetterStatus {
    slots: Vec<LetterState>,
}

impl View for LetterStatus {
    type V = Seq<LetterState>;

    closed spec fn view(&self) -> Seq<LetterState> {
        self.slots@
    }
}

impl LetterStatus {
    /// One slot per letter.
    pub open spec fn wf(&self) -> bool {
        self@.len() == 26
    }

    /// All letters start Unknown.
    pub fn new() -> (r: LetterStatus)
        ensures
            r.wf(),
            forall|l: int| 0 <= l < 26 ==> r@[l] == LetterState::Unknown,
    {
        let mut slots: Vec<LetterState> = Vec::new();
        let mut l: usize = 0;
        while l < 26
            invariant
                0 <= l <= 26,
                slots@.len() == l,
                forall|k: int| 0 <= k < l ==> slots@[k] == LetterState::Unknown,
            decreases 26 - l,
        {
            slots.push(LetterState::Unknown);
            l += 1;
        }
        LetterStatus { slots }
    }

    /// The recorded state of a letter, indexed 0 to 25.
    pub fn state_of(&self, l: usize) -> (r: LetterState)
        requires
            self.wf(),
            l < 26,
        ensures
            r == self@[l as int],
    {
        self.slots[l]
    }

    /// Folds one scored guess into the status, letter by letter.
    ///
    /// Law: no letter's status ever regresses — each slot's strength
    /// after the fold is at least its strength before.
    pub fn update(&mut self, guess: &Word, verdict: &Verdict)
        requires
            old(self).wf(),
            guess.wf(),
            verdict.wf(),
        ensures
            final(self).wf(),
            spec_updated(old(self)@, final(self)@, guess@, verdict@),
            forall|l: int|
                0 <= l < 26 ==> strength(#[trigger] final(self)@[l]) >= strength(old(self)@[l]),
    {
        let ghost g = guess@;
        let ghost v = verdict@;
        let ghost start = self@;
        let mut i: usize = 0;
        while i < 5
            invariant
                wf_word(g),
                v.len() == 5,
                guess@ == g,
                verdict@ == v,
                0 <= i <= 5,
                self@.len() == 26,
                forall|l: int|
                    0 <= l < 26 ==> self@[l] == fold_status(
                        start[l],
                        g,
                        v,
                        (l + 97) as u8,
                        i as int,
                    ),
            decreases 5 - i,
        {
            let c = guess.letter_at(i);
            let m = verdict.mark_at(i);
            let idx = (c - 97) as usize;
            let cur = self.slots[idx];
            let next = match m {
                Mark::Correct => LetterState::Correct,
                Mark::Present => {
                    if matches!(cur, LetterState::Correct) {
                        cur
                    } else {
                        LetterState::Present
                    }
                },
                Mark::Absent => {
                    if matches!(cur, LetterState::Unknown) {
                        LetterState::Absent
                    } else {
                        cur
                    }
                },
            };
            self.slots[idx] = next;
            proof {
                assert(next == upgraded(cur, m));
                assert forall|l: int| 0 <= l < 26 implies self@[l] == fold_status(
                    start[l],
                    g,
                    v,
                    (l + 97) as u8,
                    i + 1,
                ) by {
                    if l + 97 != c {
                        assert(g[i as int] != ((l + 97) as u8));
                    }
                }
            }
            i += 1;
        }
        proof {
            assert forall|l: int| 0 <= l < 26 implies strength(#[trigger] self@[l]) >= strength(
                start[l],
            ) by {
                lemma_fold_status_monotonic(start[l], g, v, (l + 97) as u8, 5);
            }
        }
    }
}

/// The single-character display code of a letter state: 'G', 'Y', 'R'
/// or 'X' for unknown.
pub fn state_code(s: LetterState) -> (c: char)
    ensures
        c == (match s {
            LetterState::Correct => 'G',
            LetterState::Present => 'Y',
            LetterState::Absent => 'R',
            LetterState::Unknown => 'X',
        }),
{
    match s {
        LetterState::Correct => 'G',
        LetterState::Present => 'Y',
        LetterState::Absent => 'R',
        LetterState::Unknown => 'X',
    }
}

} // verus!
