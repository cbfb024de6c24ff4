//! Scoring one guess against one secret: the two-pass feedback rule.
//!
//! The first pass marks exact position matches Correct and consumes the
//! matched letters from the secret's supply.  The second pass walks the
//! remaining positions left to right and marks a position Present while
//! the guessed letter still has supply, Absent once the supply is
//! exhausted.  This ordering is what keeps repeated letters honest: a
//! letter never earns more Correct and Present marks in one guess than
//! the secret holds of it.

use crate::verdict::{all_correct, Mark, Verdict};
use crate::word::{wf_word, Word};
use vstd::prelude::*;

verus! {

/// Occurrences of letter `c` among the first `n` positions of `s`.
pub open spec fn occ(s: Seq<u8>, c: u8, n: int) -> int
    decreases n,
{
    if n <= 0 {
        0
    } else {
        occ(s, c, n - 1) + if s[n - 1] == c {
            1int
        } else {
            0int
        }
    }
}

/// Positions before `n` where guess and secret agree and both hold `c`.
pub open spec fn matched(s: Seq<u8>, g: Seq<u8>, c: u8, n: int) -> int
    decreases n,
{
    if n <= 0 {
        0
    } else {
        matched(s, g, c, n - 1) + if s[n - 1] == g[n - 1] && g[n - 1] == c {
            1int
        } else {
            0int
        }
    }
}

/// Guess positions before `n` that hold `c` but do not match the secret.
pub open spec fn missed(s: Seq<u8>, g: Seq<u8>, c: u8, n: int) -> int
    decreases n,
{
    if n <= 0 {
        0
    } else {
        missed(s, g, c, n - 1) + if s[n - 1] != g[n - 1] && g[n - 1] == c {
            1int
        } else {
            0int
        }
    }
}

/// The supply of letter `c` left for Present marks once the first pass
/// has consumed all exact matches.
pub open spec fn supply_after(s: Seq<u8>, g: Seq<u8>, c: u8) -> int {
    occ(s, c, 5) - matched(s, g, c, 5)
}

/// The mark the two-pass rule gives position `i`: Correct on an exact
/// match; otherwise Present while earlier non-matching occurrences of the
/// letter have not used up its remaining supply, else Absent.
pub open spec fn spec_mark(s: Seq<u8>, g: Seq<u8>, i: int) -> Mark {
    if s[i] == g[i] {
        Mark::Correct
    } else if missed(s, g, g[i], i) < supply_after(s, g, g[i]) {
        Mark::Present
    } else {
        Mark::Absent
    }
}

/// The whole verdict for one guess.
pub open spec fn spec_evaluate(s: Seq<u8>, g: Seq<u8>) -> Seq<Mark> {
    Seq::new(5, |i: int| spec_mark(s, g, i))
}

/// Occurrence counts are non-negative and bounded by the prefix length.
proof fn lemma_occ_bounds(s: Seq<u8>, c: u8, n: int)
    requires
        0 <= n,
    ensures
        0 <= occ(s, c, n) <= n,
    decreases n,
{
    if n > 0 {
        lemma_occ_bounds(s, c, n - 1);
    }
}

/// Occurrence counts grow with the prefix.
proof fn lemma_occ_mono(s: Seq<u8>, c: u8, n: int, m: int)
    requires
        0 <= n <= m,
    ensures
        occ(s, c, n) <= occ(s, c, m),
    decreases m,
{
    if n < m {
        lemma_occ_mono(s, c, n, m - 1);
    }
}

/// Matches for a letter never exceed its occurrences in the secret.
proof fn lemma_matched_le_occ(s: Seq<u8>, g: Seq<u8>, c: u8, n: int)
    requires
        0 <= n,
    ensures
        0 <= matched(s, g, c, n) <= occ(s, c, n),
    decreases n,
{
    if n > 0 {
        lemma_matched_le_occ(s, g, c, n - 1);
    }
}

/// Misses are non-negative.
proof fn lemma_missed_nonneg(s: Seq<u8>, g: Seq<u8>, c: u8, n: int)
    requires
        0 <= n,
    ensures
        0 <= missed(s, g, c, n),
    decreases n,
{
    if n > 0 {
        lemma_missed_nonneg(s, g, c, n - 1);
    }
}

/// The supply of letter `c` that the second pass still has before it
/// reaches position `i`.
pub open spec fn residual(s: Seq<u8>, g: Seq<u8>, c: u8, i: int) -> int {
    if missed(s, g, c, i) < supply_after(s, g, c) {
        supply_after(s, g, c) - missed(s, g, c, i)
    } else {
        0
    }
}

/// Scores a guess against a secret, producing the five-mark verdict of
/// the two-pass rule.
pub fn evaluate(secret: &Word, guess: &Word) -> (v: Verdict)
    requires
        secret.wf(),
        guess.wf(),
    ensures
        v.wf(),
        v@ == spec_evaluate(secret@, guess@),
{
    let ghost s = secret@;
    let ghost g = guess@;

    // Count each letter's occurrences in the secret.
    let mut supply: Vec<u8> = Vec::new();
    let mut l: usize = 0;
    while l < 26
        invariant
            0 <= l <= 26,
            supply@.len() == l,
            forall|k: int| 0 <= k < l ==> supply@[k] == 0,
        decreases 26 - l,
    {
        supply.push(0);
        l += 1;
    }
    let mut i: usize = 0;
    while i < 5
        invariant
            wf_word(s),
            secret@ == s,
            0 <= i <= 5,
            supply@.len() == 26,
            forall|k: int| 0 <= k < 26 ==> supply@[k] == occ(s, (k + 97) as u8, i as int),
        decreases 5 - i,
    {
        let c = secret.letter_at(i);
        let idx = (c - 97) as usize;
        proof {
            lemma_occ_bounds(s, c, i as int);
        }
        let cur = supply[idx];
        supply[idx] = cur + 1;
        proof {
            assert forall|k: int| 0 <= k < 26 implies supply@[k] == occ(
                s,
                (k + 97) as u8,
                i + 1,
            ) by {
                if k + 97 == c {
                    assert(supply@[k] == occ(s, (k + 97) as u8, i as int) + 1);
                } else {
                    assert(s[i as int] != ((k + 97) as u8));
                }
            }
        }
        i += 1;
    }

    // First pass: mark exact matches and consume their supply.
    let mut marks: Vec<Mark> = Vec::new();
    let mut j: usize = 0;
    while j < 5
        invariant
            0 <= j <= 5,
            marks@.len() == j,
            forall|k: int| 0 <= k < j ==> marks@[k] == Mark::Absent,
        decreases 5 - j,
    {
        marks.push(Mark::Absent);
        j += 1;
    }
    let mut i: usize = 0;
    while i < 5
        invariant
            wf_word(s),
            wf_word(g),
            secret@ == s,
            guess@ == g,
            0 <= i <= 5,
            supply@.len() == 26,
            marks@.len() == 5,
            forall|k: int|
                0 <= k < 26 ==> supply@[k] == occ(s, (k + 97) as u8, 5) - matched(
                    s,
                    g,
                    (k + 97) as u8,
                    i as int,
                ),
            forall|k: int|
                0 <= k < i ==> marks@[k] == (if s[k] == g[k] {
                    Mark::Correct
                } else {
                    Mark::Absent
                }),
            forall|k: int| i <= k < 5 ==> marks@[k] == Mark::Absent,
        decreases 5 - i,
    {
        let sc = secret.letter_at(i);
        let gc = guess.letter_at(i);
        if gc == sc {
            let idx = (sc - 97) as usize;
            proof {
                lemma_matched_le_occ(s, g, sc, i as int);
                lemma_occ_mono(s, sc, i + 1, 5);
                assert(occ(s, sc, i + 1) == occ(s, sc, i as int) + 1);
            }
            let cur = supply[idx];
            supply[idx] = cur - 1;
            marks[i] = Mark::Correct;
            proof {
                assert forall|k: int| 0 <= k < 26 implies supply@[k] == occ(s, (k + 97) as u8, 5)
                    - matched(s, g, (k + 97) as u8, i + 1) by {
                    if k + 97 != sc {
                        assert(g[i as int] != ((k + 97) as u8));
                    }
                }
            }
        } else {
            proof {
                assert forall|k: int| 0 <= k < 26 implies supply@[k] == occ(s, (k + 97) as u8, 5)
                    - matched(s, g, (k + 97) as u8, i + 1) by {
                    assert(matched(s, g, (k + 97) as u8, i + 1) == matched(
                        s,
                        g,
                        (k + 97) as u8,
                        i as int,
                    ));
                }
            }
        }
        i += 1;
    }

    // Second pass: hand out Present marks while supply lasts.
    let mut i: usize = 0;
    while i < 5
        invariant
            wf_word(s),
            wf_word(g),
            secret@ == s,
            guess@ == g,
            0 <= i <= 5,
            supply@.len() == 26,
            marks@.len() == 5,
            forall|k: int|
                0 <= k < 26 ==> supply@[k] == residual(s, g, (k + 97) as u8, i as int),
            forall|k: int| 0 <= k < i ==> marks@[k] == spec_mark(s, g, k),
            forall|k: int|
                i <= k < 5 ==> marks@[k] == (if s[k] == g[k] {
                    Mark::Correct
                } else {
                    Mark::Absent
                }),
        decreases 5 - i,
    {
        let sc = secret.letter_at(i);
        let gc = guess.letter_at(i);
        if gc != sc {
            let idx = (gc - 97) as usize;
            if supply[idx] > 0 {
                let cur = supply[idx];
                supply[idx] = cur - 1;
                marks[i] = Mark::Present;
            }
            proof {
                assert forall|k: int| 0 <= k < 26 implies supply@[k] == residual(
                    s,
                    g,
                    (k + 97) as u8,
                    i + 1,
                ) by {
                    if k + 97 != gc {
                        assert(g[i as int] != ((k + 97) as u8));
                        assert(missed(s, g, (k + 97) as u8, i + 1) == missed(
                            s,
                            g,
                            (k + 97) as u8,
                            i as int,
                        ));
                    }
                }
                assert(marks@[i as int] == spec_mark(s, g, i as int));
            }
        } else {
            proof {
                assert forall|k: int| 0 <= k < 26 implies supply@[k] == residual(
                    s,
                    g,
                    (k + 97) as u8,
                    i + 1,
                ) by {
                    assert(missed(s, g, (k + 97) as u8, i + 1) == missed(
                        s,
                        g,
                        (k + 97) as u8,
                        i as int,
                    ));
                }
            }
        }
        i += 1;
    }

    let v = Verdict::from_five(marks);
    proof {
        assert(v@ =~= spec_evaluate(s, g));
    }
    v
}

/// Law: a guess equal to the secret scores all-Correct.
pub proof fn lemma_self_guess_all_correct(s: Seq<u8>)
    requires
        wf_word(s),
    ensures
        all_correct(spec_evaluate(s, s)),
{
    assert forall|i: int| 0 <= i < 5 implies spec_evaluate(s, s)[i] == Mark::Correct by {
        assert(spec_mark(s, s, i) == Mark::Correct);
    }
}

/// Positions before `n` where the guess holds `c` and earned a mark other
/// than Absent.
pub open spec fn scored(s: Seq<u8>, g: Seq<u8>, c: u8, n: int) -> int
    decreases n,
{
    if n <= 0 {
        0
    } else {
        scored(s, g, c, n - 1) + if g[n - 1] == c && spec_mark(s, g, n - 1) != Mark::Absent {
            1int
        } else {
            0int
        }
    }
}

/// The smaller of two integers.
pub open spec fn min_int(a: int, b: int) -> int {
    if a < b {
        a
    } else {
        b
    }
}

/// Correct and Present marks split into exact matches and the misses that
/// the supply could still cover.
proof fn lemma_scored_decompose(s: Seq<u8>, g: Seq<u8>, c: u8, n: int)
    requires
        wf_word(s),
        wf_word(g),
        0 <= n <= 5,
    ensures
        scored(s, g, c, n) == matched(s, g, c, n) + min_int(
            missed(s, g, c, n),
            supply_after(s, g, c),
        ),
    decreases n,
{
    lemma_matched_le_occ(s, g, c, 5);
    lemma_occ_bounds(s, c, 5);
    if n == 0 {
    } else {
        lemma_scored_decompose(s, g, c, n - 1);
        lemma_missed_nonneg(s, g, c, n - 1);
    }
}

/// Law: in one guess, a letter never earns more Correct and Present
/// marks than its count in the secret.
pub proof fn lemma_no_overcount(s: Seq<u8>, g: Seq<u8>, c: u8)
    requires
        wf_word(s),
        wf_word(g),
    ensures
        scored(s, g, c, 5) <= occ(s, c, 5),
{
    lemma_scored_decompose(s, g, c, 5);
    lemma_matched_le_occ(s, g, c, 5);
    lemma_missed_nonneg(s, g, c, 5);
}

} // verus!
