//! Cumulative constraints derived from scored guesses: letters fixed at
//! positions (Correct marks), letters known to appear somewhere (Present
//! marks), and letters shown absent.
//!
//! Strict ("difficult") mode validates a new guess against the fixed
//! positions and the must-appear letters only; it deliberately does not
//! consult the absent set, since a letter scored Absent once (because
//! its supply was exhausted) may still be required elsewhere.  The
//! absent set serves the advisory candidate filter, and a letter enters
//! it only while nothing in the game has shown that letter present.

use crate::verdict::{Mark, Verdict};
use crate::word::{views_of, wf_word, Word};
use vstd::prelude::*;

verus! {

/// Whether `w` holds letter `c` at any position.
pub open spec fn contains_letter(w: Seq<u8>, c: u8) -> bool {
    exists|j: int| 0 <= j < 5 && w[j] == c
}

/// Whether some position before `n` of the scored guess holds `c` with
/// mark `m`.
pub open spec fn has_mark_before(g: Seq<u8>, v: Seq<Mark>, c: u8, m: Mark, n: int) -> bool {
    exists|i: int| 0 <= i < n && g[i] == c && v[i] == m
}

/// Whether some position of the scored guess holds `c` with mark `m`.
pub open spec fn has_mark(g: Seq<u8>, v: Seq<Mark>, c: u8, m: Mark) -> bool {
    has_mark_before(g, v, c, m, 5)
}

/// Extending the scanned prefix by one position.
proof fn lemma_has_mark_step(g: Seq<u8>, v: Seq<Mark>, c: u8, m: Mark, n: int)
    requires
        0 <= n,
    ensures
        has_mark_before(g, v, c, m, n + 1) == (has_mark_before(g, v, c, m, n) || (g[n] == c
            && v[n] == m)),
{
    if has_mark_before(g, v, c, m, n + 1) {
        let k = choose|k: int| 0 <= k < n + 1 && g[k] == c && v[k] == m;
        if k < n {
            assert(has_mark_before(g, v, c, m, n));
        }
    }
    if has_mark_before(g, v, c, m, n) {
        let k = choose|k: int| 0 <= k < n && g[k] == c && v[k] == m;
        assert(0 <= k < n + 1 && g[k] == c && v[k] == m);
    }
    if g[n] == c && v[n] == m {
        assert(0 <= n < n + 1 && g[n] == c && v[n] == m);
    }
}

/// Constraints accumulated over one game.
pub struct ConstraintSet {
    greens: Vec<Option<u8>>,
    yellows: Vec<bool>,
    absents: Vec<bool>,
}

impl ConstraintSet {
    /// The letter required at position `i`, if one is fixed.
    pub closed spec fn green(&self, i: int) -> Option<u8> {
        self.greens@[i]
    }

    /// Whether letter `l` (0 to 25) must appear somewhere.
    pub closed spec fn yellow(&self, l: int) -> bool {
        self.yellows@[l]
    }

    /// Whether letter `l` (0 to 25) is recorded absent.
    pub closed spec fn absent(&self, l: int) -> bool {
        self.absents@[l]
    }

    /// Five position slots and 26 letter slots.
    pub closed spec fn wf(&self) -> bool {
        self.greens@.len() == 5 && self.yellows@.len() == 26 && self.absents@.len() == 26
    }

    /// Whether some position fixes letter `c`.
    pub open spec fn fixes_letter(&self, c: u8) -> bool {
        exists|i: int| 0 <= i < 5 && self.green(i) == Some(c)
    }

    /// An empty constraint set: nothing fixed, required or excluded.
    pub fn new() -> (r: ConstraintSet)
        ensures
            r.wf(),
            forall|i: int| 0 <= i < 5 ==> r.green(i) is None,
            forall|l: int| 0 <= l < 26 ==> !r.yellow(l),
            forall|l: int| 0 <= l < 26 ==> !r.absent(l),
    {
        let mut greens: Vec<Option<u8>> = Vec::new();
        let mut i: usize = 0;
        while i < 5
            invariant
                0 <= i <= 5,
                greens@.len() == i,
                forall|k: int| 0 <= k < i ==> greens@[k] is None,
            decreases 5 - i,
        {
            greens.push(None);
            i += 1;
        }
        let mut yellows: Vec<bool> = Vec::new();
        let mut absents: Vec<bool> = Vec::new();
        let mut l: usize = 0;
        while l < 26
            invariant
                0 <= l <= 26,
                yellows@.len() == l,
                absents@.len() == l,
                forall|k: int| 0 <= k < l ==> !yellows@[k],
                forall|k: int| 0 <= k < l ==> !absents@[k],
            decreases 26 - l,
        {
            yellows.push(false);
            absents.push(false);
            l += 1;
        }
        ConstraintSet { greens, yellows, absents }
    }

    /// Folds one scored guess into the constraints.
    ///
    /// Correct marks fix their position's letter; Present marks add the
    /// letter to the must-appear set; Absent marks record the letter as
    /// absent only when, after this fold, nothing shows it present.
    pub fn record(&mut self, guess: &Word, verdict: &Verdict)
        requires
            old(self).wf(),
            guess.wf(),
            verdict.wf(),
        ensures
            final(self).wf(),
            spec_recorded(*old(self), *final(self), guess@, verdict@),
    {
        let ghost g = guess@;
        let ghost v = verdict@;
        let ghost start = *self;

        // Correct marks fix positions.
        let mut i: usize = 0;
        while i < 5
            invariant
                wf_word(g),
                v.len() == 5,
                guess@ == g,
                verdict@ == v,
                0 <= i <= 5,
                self.wf(),
                self.yellows == start.yellows,
                self.absents == start.absents,
                forall|k: int|
                    0 <= k < i ==> #[trigger] self.green(k) == (if v[k] == Mark::Correct {
                        Some(g[k])
                    } else {
                        start.green(k)
                    }),
                forall|k: int| i <= k < 5 ==> #[trigger] self.green(k) == start.green(k),
            decreases 5 - i,
        {
            let ghost pre = *self;
            if matches!(verdict.mark_at(i), Mark::Correct) {
                let c = guess.letter_at(i);
                self.greens[i] = Some(c);
            }
            proof {
                assert forall|k: int| 0 <= k < i + 1 implies #[trigger] self.green(k) == (if v[k]
                    == Mark::Correct {
                    Some(g[k])
                } else {
                    start.green(k)
                }) by {
                    if k < i {
                        assert(pre.green(k) == (if v[k] == Mark::Correct {
                            Some(g[k])
                        } else {
                            start.green(k)
                        }));
                    } else {
                        assert(pre.green(k) == start.green(k));
                    }
                }
                assert forall|k: int| i + 1 <= k < 5 implies #[trigger] self.green(k)
                    == start.green(k) by {
                    assert(pre.green(k) == start.green(k));
                }
            }
            i += 1;
        }
        let ghost mid_greens = *self;

        // Present marks add must-appear letters.
        let mut i: usize = 0;
        while i < 5
            invariant
                wf_word(g),
                v.len() == 5,
                guess@ == g,
                verdict@ == v,
                0 <= i <= 5,
                self.wf(),
                self.greens == mid_greens.greens,
                self.absents == start.absents,
                forall|l: int|
                    0 <= l < 26 ==> #[trigger] self.yellow(l) == (start.yellow(l)
                        || has_mark_before(g, v, (l + 97) as u8, Mark::Present, i as int)),
            decreases 5 - i,
        {
            let ghost pre = *self;
            if matches!(verdict.mark_at(i), Mark::Present) {
                let c = guess.letter_at(i);
                self.yellows[(c - 97) as usize] = true;
            }
            proof {
                assert forall|l: int| 0 <= l < 26 implies #[trigger] self.yellow(l) == (
                start.yellow(l) || has_mark_before(g, v, (l + 97) as u8, Mark::Present, i + 1)) by {
                    let c0 = (l + 97) as u8;
                    lemma_has_mark_step(g, v, c0, Mark::Present, i as int);
                    assert(pre.yellow(l) == (start.yellow(l) || has_mark_before(
                        g,
                        v,
                        c0,
                        Mark::Present,
                        i as int,
                    )));
                }
            }
            i += 1;
        }
        let ghost mid_yellows = *self;

        // Absent marks exclude letters nothing has shown present.
        let mut i: usize = 0;
        while i < 5
            invariant
                wf_word(g),
                v.len() == 5,
                guess@ == g,
                verdict@ == v,
                0 <= i <= 5,
                self.wf(),
                self.greens == mid_yellows.greens,
                self.yellows == mid_yellows.yellows,
                forall|l: int|
                    0 <= l < 26 ==> #[trigger] self.absent(l) == (start.absent(l) || (
                    has_mark_before(g, v, (l + 97) as u8, Mark::Absent, i as int)
                        && !mid_yellows.yellow(l) && !mid_yellows.fixes_letter((l + 97) as u8))),
            decreases 5 - i,
        {
            let ghost pre = *self;
            if matches!(verdict.mark_at(i), Mark::Absent) {
                let c = guess.letter_at(i);
                let l = (c - 97) as usize;
                if !self.yellows[l] {
                    let fixed = self.green_scan(c);
                    proof {
                        lemma_fixes_letter_same_greens(*self, mid_yellows, c);
                    }
                    if !fixed {
                        self.absents[l] = true;
                    }
                }
            }
            proof {
                assert forall|l: int| 0 <= l < 26 implies #[trigger] self.absent(l) == (
                start.absent(l) || (has_mark_before(g, v, (l + 97) as u8, Mark::Absent, i + 1)
                    && !mid_yellows.yellow(l) && !mid_yellows.fixes_letter((l + 97) as u8))) by {
                    let c0 = (l + 97) as u8;
                    lemma_has_mark_step(g, v, c0, Mark::Absent, i as int);
                    assert(pre.absent(l) == (start.absent(l) || (has_mark_before(
                        g,
                        v,
                        c0,
                        Mark::Absent,
                        i as int,
                    ) && !mid_yellows.yellow(l) && !mid_yellows.fixes_letter(c0))));
                }
            }
            i += 1;
        }
        proof {
            assert forall|i2: int| 0 <= i2 < 5 implies #[trigger] self.green(i2) == (if v[i2]
                == Mark::Correct {
                Some(g[i2])
            } else {
                start.green(i2)
            }) by {
                assert(mid_greens.green(i2) == (if v[i2] == Mark::Correct {
                    Some(g[i2])
                } else {
                    start.green(i2)
                }));
            }
            assert forall|l: int| 0 <= l < 26 implies #[trigger] self.yellow(l) == (start.yellow(l)
                || has_mark(g, v, (l + 97) as u8, Mark::Present)) by {
                assert(mid_yellows.yellow(l) == (start.yellow(l) || has_mark_before(
                    g,
                    v,
                    (l + 97) as u8,
                    Mark::Present,
                    5,
                )));
            }
            assert forall|l: int| 0 <= l < 26 implies #[trigger] self.absent(l) == (start.absent(l)
                || (has_mark(g, v, (l + 97) as u8, Mark::Absent) && !self.yellow(l)
                && !self.fixes_letter((l + 97) as u8))) by {
                assert(self.absent(l) == (start.absent(l) || (has_mark_before(
                    g,
                    v,
                    (l + 97) as u8,
                    Mark::Absent,
                    5,
                ) && !mid_yellows.yellow(l) && !mid_yellows.fixes_letter((l + 97) as u8))));
                lemma_fixes_letter_same_greens(*self, mid_yellows, (l + 97) as u8);
            }
        }
    }

    /// Whether some position fixes letter `c` (executable scan).
    fn green_scan(&self, c: u8) -> (r: bool)
        requires
            self.wf(),
        ensures
            r == self.fixes_letter(c),
    {
        let mut i: usize = 0;
        while i < 5
            invariant
                self.wf(),
                0 <= i <= 5,
                forall|k: int| 0 <= k < i ==> #[trigger] self.green(k) != Some(c),
            decreases 5 - i,
        {
            match self.greens[i] {
                Some(b) => {
                    if b == c {
                        proof {
                            assert(self.green(i as int) == Some(c));
                        }
                        return true;
                    }
                },
                None => {},
            }
            i += 1;
        }
        false
    }


    /// What strict mode demands of a new guess: every fixed position
    /// matches, and every must-appear letter occurs somewhere.
    pub open spec fn spec_strict_ok(&self, w: Seq<u8>) -> bool {
        (forall|i: int|
            0 <= i < 5 ==> match #[trigger] self.green(i) {
                Some(c) => w[i] == c,
                None => true,
            }) && (forall|l: int|
            0 <= l < 26 ==> #[trigger] self.yellow(l) ==> contains_letter(w, (l + 97) as u8))
    }

    /// Strict-mode validation of a candidate guess.  The absent set is
    /// deliberately not consulted.
    pub fn validate(&self, w: &Word) -> (r: bool)
        requires
            self.wf(),
            w.wf(),
        ensures
            r == self.spec_strict_ok(w@),
    {
        let mut i: usize = 0;
        while i < 5
            invariant
                self.wf(),
                w.wf(),
                0 <= i <= 5,
                forall|k: int|
                    0 <= k < i ==> match #[trigger] self.green(k) {
                        Some(c) => w@[k] == c,
                        None => true,
                    },
            decreases 5 - i,
        {
            match self.greens[i] {
                Some(c) => {
                    if w.letter_at(i) != c {
                        proof {
                            assert(self.green(i as int) == Some(c) && w@[i as int] != c);
                        }
                        return false;
                    }
                },
                None => {},
            }
            i += 1;
        }
        let mut l: usize = 0;
        while l < 26
            invariant
                self.wf(),
                w.wf(),
                0 <= l <= 26,
                forall|k: int|
                    0 <= k < l ==> #[trigger] self.yellow(k) ==> contains_letter(w@, (k + 97) as u8),
            decreases 26 - l,
        {
            if self.yellows[l] {
                if !word_contains(w, (l as u8) + 97) {
                    proof {
                        assert(self.yellow(l as int) && !contains_letter(w@, (l + 97) as u8));
                    }
                    return false;
                }
            }
            l += 1;
        }
        true
    }

    /// What the advisory filter demands of a candidate: the strict-mode
    /// conditions, and no recorded-absent letter anywhere in the word.
    pub open spec fn spec_allows(&self, w: Seq<u8>) -> bool {
        self.spec_strict_ok(w) && (forall|l: int|
            0 <= l < 26 ==> self.absent(l) ==> !contains_letter(w, (l + 97) as u8))
    }

    /// Whether the advisory filter keeps a candidate.
    pub fn allows(&self, w: &Word) -> (r: bool)
        requires
            self.wf(),
            w.wf(),
        ensures
            r == self.spec_allows(w@),
    {
        if !self.validate(w) {
            return false;
        }
        let mut l: usize = 0;
        while l < 26
            invariant
                self.wf(),
                w.wf(),
                0 <= l <= 26,
                self.spec_strict_ok(w@),
                forall|k: int|
                    0 <= k < l ==> #[trigger] self.absent(k) ==> !contains_letter(w@, (k + 97) as u8),
            decreases 26 - l,
        {
            if self.absents[l] {
                if word_contains(w, (l as u8) + 97) {
                    proof {
                        assert(self.absent(l as int) && contains_letter(w@, (l + 97) as u8));
                    }
                    return false;
                }
            }
            l += 1;
        }
        true
    }

    /// Keeps the words of `pool` that the advisory filter allows, in
    /// their original order.
    pub fn filter_candidates(&self, pool: &Vec<Word>) -> (r: Vec<Word>)
        requires
            self.wf(),
            crate::word::wf_list(pool@),
        ensures
            views_of(r@) == views_of(pool@).filter(allows_pred(*self)),
            crate::word::wf_list(r@),
    {
        let mut r: Vec<Word> = Vec::new();
        let n = pool.len();
        let mut i: usize = 0;
        while i < n
            invariant
                self.wf(),
                crate::word::wf_list(pool@),
                n == pool@.len(),
                0 <= i <= n,
                crate::word::wf_list(r@),
                views_of(r@) == views_of(pool@.subrange(0, i as int)).filter(allows_pred(*self)),
            decreases n - i,
        {
            let ghost prev = r@;
            if self.allows(&pool[i]) {
                r.push(pool[i].copy_word());
            }
            proof {
                let p = allows_pred(*self);
                let sub = pool@.subrange(0, i as int);
                let sub1 = pool@.subrange(0, i + 1);
                assert(views_of(sub1) =~= views_of(sub).push(pool@[i as int]@));
                views_of(sub).lemma_filter_push(pool@[i as int]@, p);
                if p(pool@[i as int]@) {
                    assert(views_of(r@) =~= views_of(prev).push(pool@[i as int]@));
                } else {
                    assert(views_of(r@) =~= views_of(prev));
                }
            }
            i += 1;
        }
        proof {
            assert(pool@.subrange(0, n as int) =~= pool@);
        }
        r
    }
}

/// How one scored guess folds a constraint set `before` into `after`:
/// Correct marks fix their position's letter, Present marks add the
/// letter to the must-appear set, and Absent marks record the letter as
/// absent exactly when nothing in the folded state shows it present.
pub open spec fn spec_recorded(
    before: ConstraintSet,
    after: ConstraintSet,
    g: Seq<u8>,
    v: Seq<Mark>,
) -> bool {
    &&& forall|i: int|
        0 <= i < 5 ==> #[trigger] after.green(i) == (if v[i] == Mark::Correct {
            Some(g[i])
        } else {
            before.green(i)
        })
    &&& forall|l: int|
        0 <= l < 26 ==> #[trigger] after.yellow(l) == (before.yellow(l) || has_mark(
            g,
            v,
            (l + 97) as u8,
            Mark::Present,
        ))
    &&& forall|l: int|
        0 <= l < 26 ==> #[trigger] after.absent(l) == (before.absent(l) || (has_mark(
            g,
            v,
            (l + 97) as u8,
            Mark::Absent,
        ) && !after.yellow(l) && !after.fixes_letter((l + 97) as u8)))
}

/// Constraint sets with the same fixed positions fix the same letters.
proof fn lemma_fixes_letter_same_greens(a: ConstraintSet, b: ConstraintSet, c: u8)
    requires
        a.greens@ == b.greens@,
    ensures
        a.fixes_letter(c) == b.fixes_letter(c),
{
    if a.fixes_letter(c) {
        let i = choose|i: int| 0 <= i < 5 && a.green(i) == Some(c);
        assert(b.green(i) == Some(c));
    }
    if b.fixes_letter(c) {
        let i = choose|i: int| 0 <= i < 5 && b.green(i) == Some(c);
        assert(a.green(i) == Some(c));
    }
}

/// The advisory filter as a predicate on letter sequences.
pub open spec fn allows_pred(cs: ConstraintSet) -> spec_fn(Seq<u8>) -> bool {
    |s: Seq<u8>| cs.spec_allows(s)
}

/// Whether `w` holds letter `c` (executable scan).
pub fn word_contains(w: &Word, c: u8) -> (r: bool)
    requires
        w.wf(),
    ensures
        r == contains_letter(w@, c),
{
    let mut j: usize = 0;
    while j < 5
        invariant
            w.wf(),
            0 <= j <= 5,
            forall|k: int| 0 <= k < j ==> w@[k] != c,
        decreases 5 - j,
    {
        if w.letter_at(j) == c {
            return true;
        }
        j += 1;
    }
    false
}

} // verus!
