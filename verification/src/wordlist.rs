//! Validation of externally loaded word lists: a list is accepted when
//! it is non-empty, free of duplicates and a subset of the allowed
//! superset; the accepted list is returned sorted lexicographically.

use crate::word::{lex_code, lex_code_exec, views_of, wf_list, word_in, word_in_list, Word};
use vstd::multiset::Multiset;
use vstd::prelude::*;

verus! {

/// Why a word list was rejected.
#[derive(Clone, Copy, Debug, PartialEq, Eq, Structural)]
pub enum ListError {
    /// The list holds no words.
    Empty,
    /// Two entries hold the same word.
    Duplicate,
    /// An entry does not occur in the allowed list.
    NotAllowed,
}

/// No two entries hold the same word.
pub open spec fn no_duplicates(s: Seq<Word>) -> bool {
    forall|i: int, j: int| 0 <= i < j < s.len() ==> s[i]@ != s[j]@
}

/// Every entry occurs in `allowed`.
pub open spec fn all_in(s: Seq<Word>, allowed: Seq<Word>) -> bool {
    forall|i: int| 0 <= i < s.len() ==> word_in(allowed, #[trigger] s[i]@)
}

/// The entries come in lexicographic order.
pub open spec fn sorted_lex(s: Seq<Word>) -> bool {
    forall|i: int, j: int| 0 <= i < j < s.len() ==> lex_code(s[i]@) <= lex_code(s[j]@)
}

/// The words of a list as a multiset of letter sequences.
pub open spec fn word_multiset(s: Seq<Word>) -> Multiset<Seq<u8>> {
    views_of(s).to_multiset()
}

/// Checks a loaded word list and returns it sorted.
///
/// The list is accepted exactly when it is non-empty, holds no word
/// twice, and every word occurs in `allowed`; the result then holds the
/// same words in lexicographic order.
pub fn prepare_word_list(words: &Vec<Word>, allowed: &Vec<Word>) -> (r: Result<Vec<Word>, ListError>)
    requires
        wf_list(words@),
        wf_list(allowed@),
    ensures
        match r {
            Ok(out) => {
                &&& words@.len() > 0
                &&& no_duplicates(words@)
                &&& all_in(words@, allowed@)
                &&& out@.len() == words@.len()
                &&& wf_list(out@)
                &&& sorted_lex(out@)
                &&& word_multiset(out@) == word_multiset(words@)
            },
            Err(ListError::Empty) => words@.len() == 0,
            Err(ListError::Duplicate) => words@.len() > 0 && !no_duplicates(words@),
            Err(ListError::NotAllowed) => words@.len() > 0 && no_duplicates(words@) && !all_in(
                words@,
                allowed@,
            ),
        },
{
    let n = words.len();
    if n == 0 {
        return Err(ListError::Empty);
    }

    // No word may occur twice.
    let mut i: usize = 0;
    while i < n
        invariant
            wf_list(words@),
            n == words@.len(),
            0 <= i <= n,
            forall|p: int, q: int| 0 <= p < q < n && p < i ==> words@[p]@ != words@[q]@,
        decreases n - i,
    {
        let mut j: usize = i + 1;
        while j < n
            invariant
                wf_list(words@),
                n == words@.len(),
                0 <= i < j <= n,
                forall|q: int| i < q < j ==> words@[i as int]@ != words@[q]@,
            decreases n - j,
        {
            if words[i].same_word(&words[j]) {
                proof {
                    assert(words@[i as int]@ == words@[j as int]@ && 0 <= i < j < n);
                }
                return Err(ListError::Duplicate);
            }
            j += 1;
        }
        i += 1;
    }
    proof {
        assert(no_duplicates(words@));
    }

    // Every word must be allowed.
    let mut i: usize = 0;
    while i < n
        invariant
            wf_list(words@),
            wf_list(allowed@),
            n == words@.len(),
            n > 0,
            no_duplicates(words@),
            0 <= i <= n,
            forall|p: int| 0 <= p < i ==> word_in(allowed@, #[trigger] words@[p]@),
        decreases n - i,
    {
        if !word_in_list(&words[i], allowed) {
            proof {
                assert(!word_in(allowed@, words@[i as int]@));
            }
            return Err(ListError::NotAllowed);
        }
        i += 1;
    }

    // Insertion sort by lexicographic rank.
    let mut out: Vec<Word> = Vec::new();
    proof {
        assert(views_of(out@) =~= views_of(words@.subrange(0, 0)));
    }
    let mut i: usize = 0;
    while i < n
        invariant
            wf_list(words@),
            n == words@.len(),
            0 <= i <= n,
            out@.len() == i,
            wf_list(out@),
            sorted_lex(out@),
            word_multiset(out@) == word_multiset(words@.subrange(0, i as int)),
        decreases n - i,
    {
        let w = words[i].copy_word();
        proof {
            assert(w.wf());
        }
        let wcode = lex_code_exec(&w);
        let m = out.len();
        let mut p: usize = 0;
        while p < m
            invariant_except_break
                wf_list(out@),
                m == out@.len(),
                0 <= p <= m,
                wcode == lex_code(w@),
                forall|k: int| 0 <= k < p ==> lex_code(out@[k]@) <= wcode,
            ensures
                0 <= p <= m,
                forall|k: int| 0 <= k < p ==> lex_code(out@[k]@) <= wcode,
                p < m ==> lex_code(out@[p as int]@) > wcode,
            decreases m - p,
        {
            if lex_code_exec(&out[p]) > wcode {
                break;
            }
            p += 1;
        }
        let ghost before = out@;
        out.insert(p, w);
        proof {
            before.insert_ensures(p as int, w);
            let pi = p as int;
            assert forall|a: int, b: int| 0 <= a < b < out@.len() implies lex_code(out@[a]@)
                <= lex_code(out@[b]@) by {
                if b < pi {
                    // both kept their places
                } else if b == pi {
                    // the new word sits above everything before the
                    // insertion point
                    assert(out@[a] == before[a]);
                } else if a < pi {
                    // a kept its place, b shifted up by one
                    assert(out@[a] == before[a]);
                    assert(out@[b] == before[b - 1]);
                    assert(lex_code(before[a]@) <= lex_code(before[b - 1]@));
                } else if a == pi {
                    // the element after the new word exceeds its code
                    assert(out@[b] == before[b - 1]);
                    assert(lex_code(before[pi]@) > wcode);
                    if b - 1 > pi {
                        assert(lex_code(before[pi]@) <= lex_code(before[b - 1]@));
                    }
                } else {
                    // both shifted up by one
                    assert(out@[a] == before[a - 1]);
                    assert(out@[b] == before[b - 1]);
                    assert(lex_code(before[a - 1]@) <= lex_code(before[b - 1]@));
                }
            }
            assert(views_of(out@) =~= views_of(before).insert(p as int, w@));
            vstd::seq_lib::to_multiset_insert(views_of(before), p as int, w@);
            let sub1 = words@.subrange(0, i + 1);
            assert(sub1 =~= words@.subrange(0, i as int).push(words@[i as int]));
            assert(views_of(sub1) =~= views_of(words@.subrange(0, i as int)).push(
                words@[i as int]@,
            ));
            vstd::seq_lib::to_multiset_build(views_of(words@.subrange(0, i as int)), w@);
            assert(word_multiset(out@) =~= word_multiset(sub1));
        }
        i += 1;
    }
    proof {
        assert(words@.subrange(0, n as int) =~= words@);
    }
    Ok(out)
}

} // verus!
