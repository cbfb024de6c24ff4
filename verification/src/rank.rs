//! Candidate ranking support.
//!
//! For a candidate word and a pool of still-possible words, the engine
//! builds a histogram over the 243 feedback-pattern ordinals that the
//! candidate, taken as the hypothetical secret, would produce against
//! every pool member.  A caller turns each histogram into a numeric
//! score (the Shannon entropy of the distribution, computed outside this
//! crate because it is a floating-point quantity) and hands the scores
//! back; `top_k_by_score` then selects the best candidates, breaking
//! equal scores towards the lexicographically smaller word.
//!
//! The selection runs through a priority queue of the `priority_queue`
//! crate, holding pool indices under `(score, reversed lexicographic
//! rank)` priorities.

use crate::feedback::spec_evaluate;
use crate::feedback::evaluate;
use crate::verdict::{encode, lemma_all_correct_ordinal, lemma_spec_encode_bounds, spec_encode};
use crate::word::{
    lemma_lex_code_bounds, lemma_lex_code_orders, lex_code, lex_code_exec, lex_less, wf_list,
    wf_word, Word,
};
use vstd::multiset::Multiset;
use vstd::prelude::*;

verus! {

broadcast use vstd::multiset::group_multiset_axioms, vstd::multiset::group_multiset_properties;

// ---- the trusted boundary around priority_queue::PriorityQueue ----

#[verifier::external_type_specification]
#[verifier::external_body]
#[verifier::reject_recursive_types(I)]
#[verifier::reject_recursive_types(P)]
#[verifier::reject_recursive_types(H)]
pub struct ExPriorityQueue<I, P, H>(priority_queue::PriorityQueue<I, P, H>);

/// The queue used for ranking: items are pool indices, priorities are
/// (score, reversed lexicographic rank) pairs.
pub type RankQueue = priority_queue::PriorityQueue<
    u64,
    (u64, u64),
    std::collections::hash_map::RandomState,
>;

/// What the ranking queue holds: a multiset of (item, priority) pairs.
pub uninterp spec fn pq_contents(q: RankQueue) -> Multiset<(u64, (u64, u64))>;

/// Whether priority `a` is at most `b` in the order the queue pops by:
/// lexicographic on the pair, as std orders tuples.
pub open spec fn prio_le(a: (u64, u64), b: (u64, u64)) -> bool {
    a.0 < b.0 || (a.0 == b.0 && a.1 <= b.1)
}

/// Relies on `PriorityQueue::new`: a fresh queue is empty.
#[verifier::external_body]
fn pq_new() -> (q: RankQueue)
    ensures
        pq_contents(q) == Multiset::<(u64, (u64, u64))>::empty(),
{
    priority_queue::PriorityQueue::new()
}

/// Relies on `PriorityQueue::push`: an item not yet in the queue is
/// inserted with its priority.  (Pushing an existing item would update
/// its priority instead, so that case is excluded here.)
#[verifier::external_body]
fn pq_push(q: &mut RankQueue, item: u64, prio: (u64, u64))
    requires
        forall|p: (u64, u64)| !pq_contents(*old(q)).contains((item, p)),
    ensures
        pq_contents(*final(q)) == pq_contents(*old(q)).insert((item, prio)),
{
    q.push(item, prio);
}

/// Relies on `PriorityQueue::pop`: removes and returns a pair whose
/// priority is greatest in the tuple order, or `None` exactly when the
/// queue is empty.  Which of several greatest-priority items leaves is
/// not specified.
#[verifier::external_body]
fn pq_pop(q: &mut RankQueue) -> (r: Option<(u64, (u64, u64))>)
    ensures
        match r {
            None => pq_contents(*old(q)).len() == 0 && pq_contents(*final(q)) == pq_contents(
                *old(q),
            ),
            Some(e) => {
                &&& pq_contents(*old(q)).contains(e)
                &&& pq_contents(*final(q)) == pq_contents(*old(q)).remove(e)
                &&& forall|e2: (u64, (u64, u64))|
                    pq_contents(*final(q)).contains(e2) ==> prio_le(#[trigger] e2.1, e.1)
            },
        },
{
    q.pop()
}

// ---- the pattern histogram ----

/// How many of the first `n` pool words produce ordinal `o` when scored
/// against `cand` as the hypothetical secret.
pub open spec fn hist_count(cand: Seq<u8>, pool: Seq<Word>, o: int, n: int) -> int
    decreases n,
{
    if n <= 0 {
        0
    } else {
        hist_count(cand, pool, o, n - 1) + if spec_encode(spec_evaluate(cand, pool[n - 1]@))
            == o {
            1int
        } else {
            0int
        }
    }
}

/// Bucket counts are non-negative and bounded by the prefix length.
proof fn lemma_hist_count_bound(cand: Seq<u8>, pool: Seq<Word>, o: int, n: int)
    requires
        0 <= n,
    ensures
        0 <= hist_count(cand, pool, o, n) <= n,
    decreases n,
{
    if n > 0 {
        lemma_hist_count_bound(cand, pool, o, n - 1);
    }
}

/// Builds the histogram of feedback-pattern ordinals that `cand`, taken
/// as the secret, produces over the whole pool.
pub fn pattern_histogram(cand: &Word, pool: &Vec<Word>) -> (h: Vec<u32>)
    requires
        cand.wf(),
        wf_list(pool@),
        pool@.len() <= u32::MAX,
    ensures
        h@.len() == 243,
        forall|o: int| 0 <= o < 243 ==> h@[o] == hist_count(cand@, pool@, o, pool@.len() as int),
{
    let mut h: Vec<u32> = Vec::new();
    let mut o: usize = 0;
    while o < 243
        invariant
            0 <= o <= 243,
            h@.len() == o,
            forall|x: int| 0 <= x < o ==> h@[x] == 0,
        decreases 243 - o,
    {
        h.push(0);
        o += 1;
    }
    let n = pool.len();
    let mut j: usize = 0;
    while j < n
        invariant
            cand.wf(),
            wf_list(pool@),
            n == pool@.len() <= u32::MAX,
            0 <= j <= n,
            h@.len() == 243,
            forall|x: int| 0 <= x < 243 ==> h@[x] == hist_count(cand@, pool@, x, j as int),
        decreases n - j,
    {
        let v = evaluate(cand, &pool[j]);
        let ord = encode(&v) as usize;
        proof {
            lemma_hist_count_bound(cand@, pool@, ord as int, j as int);
        }
        let cur = h[ord];
        h[ord] = cur + 1;
        proof {
            assert forall|x: int| 0 <= x < 243 implies h@[x] == hist_count(
                cand@,
                pool@,
                x,
                j + 1,
            ) by {
                if x != ord {
                    assert(spec_encode(spec_evaluate(cand@, pool@[j as int]@)) != x);
                }
            }
        }
        j += 1;
    }
    h
}

/// The histogram a candidate induces over a pool is a function of the
/// two alone: any two vectors meeting `pattern_histogram`'s contract are
/// equal.
pub proof fn lemma_histogram_deterministic(h1: Seq<u32>, h2: Seq<u32>, cand: Seq<u8>, pool: Seq<
    Word,
>)
    requires
        h1.len() == 243,
        h2.len() == 243,
        forall|o: int| 0 <= o < 243 ==> h1[o] == hist_count(cand, pool, o, pool.len() as int),
        forall|o: int| 0 <= o < 243 ==> h2[o] == hist_count(cand, pool, o, pool.len() as int),
    ensures
        h1 == h2,
{
    assert(h1 =~= h2);
}

/// Law: when the candidate itself stands among the first `n` pool words,
/// the all-Correct bucket (ordinal 0) counts it at least once.
pub proof fn lemma_self_bucket(cand: Seq<u8>, pool: Seq<Word>, n: int)
    requires
        wf_word(cand),
        0 <= n <= pool.len(),
        exists|j: int| 0 <= j < n && #[trigger] pool[j]@ == cand,
    ensures
        hist_count(cand, pool, 0, n) >= 1,
    decreases n,
{
    let j = choose|j: int| 0 <= j < n && #[trigger] pool[j]@ == cand;
    lemma_hist_count_bound(cand, pool, 0, n - 1);
    if j == n - 1 {
        crate::feedback::lemma_self_guess_all_correct(cand);
        lemma_all_correct_ordinal(spec_evaluate(cand, cand));
    } else {
        lemma_self_bucket(cand, pool, n - 1);
    }
}

/// The histogram total over the ordinals below `o`.
pub open spec fn hist_total(cand: Seq<u8>, pool: Seq<Word>, o: int, n: int) -> int
    decreases o,
{
    if o <= 0 {
        0
    } else {
        hist_total(cand, pool, o - 1, n) + hist_count(cand, pool, o - 1, n)
    }
}

/// An empty prefix contributes nothing to any total.
proof fn lemma_hist_total_empty(cand: Seq<u8>, pool: Seq<Word>, o: int)
    ensures
        hist_total(cand, pool, o, 0) == 0,
    decreases o,
{
    if o > 0 {
        lemma_hist_total_empty(cand, pool, o - 1);
    }
}

/// One more pool word adds one to the total over the ordinals below `o`
/// exactly when its own ordinal lies below `o`.
proof fn lemma_hist_total_step(cand: Seq<u8>, pool: Seq<Word>, o: int, n: int)
    requires
        1 <= n <= pool.len(),
        0 <= o,
    ensures
        hist_total(cand, pool, o, n) == hist_total(cand, pool, o, n - 1) + if spec_encode(
            spec_evaluate(cand, pool[n - 1]@),
        ) < o {
            1int
        } else {
            0int
        },
    decreases o,
{
    lemma_spec_encode_bounds(spec_evaluate(cand, pool[n - 1]@));
    if o > 0 {
        lemma_hist_total_step(cand, pool, o - 1, n);
        assert(hist_total(cand, pool, o, n) == hist_total(cand, pool, o - 1, n) + hist_count(
            cand,
            pool,
            o - 1,
            n,
        ));
        assert(hist_count(cand, pool, o - 1, n) == hist_count(cand, pool, o - 1, n - 1)
            + if spec_encode(spec_evaluate(cand, pool[n - 1]@)) == o - 1 {
            1int
        } else {
            0int
        });
        assert(hist_total(cand, pool, o, n - 1) == hist_total(cand, pool, o - 1, n - 1)
            + hist_count(cand, pool, o - 1, n - 1));
    }
}

/// Law: the 243 buckets partition the pool — their counts sum to the
/// number of pool words scored.
pub proof fn lemma_histogram_partitions(cand: Seq<u8>, pool: Seq<Word>, n: int)
    requires
        0 <= n <= pool.len(),
    ensures
        hist_total(cand, pool, 243, n) == n,
    decreases n,
{
    if n == 0 {
        lemma_hist_total_empty(cand, pool, 243);
    } else {
        lemma_histogram_partitions(cand, pool, n - 1);
        lemma_spec_encode_bounds(spec_evaluate(cand, pool[n - 1]@));
        lemma_hist_total_step(cand, pool, 243, n);
    }
}

// ---- top-k selection by score ----

/// The selection key of pool index `i`: the score first, then the
/// reversed lexicographic rank, so that among equal scores the
/// lexicographically smaller word carries the larger key.
pub open spec fn spec_key(words: Seq<Word>, scores: Seq<u64>, i: int) -> (u64, u64) {
    (scores[i], (11881375 - lex_code(words[i]@)) as u64)
}

/// The queue entries for the first `n` pool indices.
pub open spec fn entries(words: Seq<Word>, scores: Seq<u64>, n: int) -> Multiset<
    (u64, (u64, u64)),
>
    decreases n,
{
    if n <= 0 {
        Multiset::empty()
    } else {
        entries(words, scores, n - 1).insert((((n - 1) as u64), spec_key(words, scores, n - 1)))
    }
}

/// Each index below `n` appears in the entries exactly once, under its
/// key; nothing else appears.
proof fn lemma_entries_count(words: Seq<Word>, scores: Seq<u64>, n: int, e: (u64, (u64, u64)))
    requires
        0 <= n <= u64::MAX,
    ensures
        entries(words, scores, n).count(e) == if 0 <= e.0 < n && e.1 == spec_key(
            words,
            scores,
            e.0 as int,
        ) {
            1nat
        } else {
            0nat
        },
    decreases n,
{
    if n > 0 {
        lemma_entries_count(words, scores, n - 1, e);
        let x = ((((n - 1)) as u64), spec_key(words, scores, n - 1));
        assert(entries(words, scores, n) == entries(words, scores, n - 1).insert(x));
        assert(x.0 as int == n - 1);
        if e == x {
        } else {
            assert(entries(words, scores, n).count(e) == entries(words, scores, n - 1).count(e));
        }
    }
}

/// The number of entries equals the number of indices.
proof fn lemma_entries_len(words: Seq<Word>, scores: Seq<u64>, n: int)
    requires
        0 <= n,
    ensures
        entries(words, scores, n).len() == n,
    decreases n,
{
    if n > 0 {
        lemma_entries_len(words, scores, n - 1);
    }
}

/// Whether index `j` occurs in the selection result.
pub open spec fn in_result(r: Seq<usize>, j: int) -> bool {
    exists|b: int| 0 <= b < r.len() && r[b] == j
}

/// Appending an index extends the occurrence test by that index.
proof fn lemma_in_result_push(r: Seq<usize>, x: usize, j: int)
    ensures
        in_result(r.push(x), j) == (in_result(r, j) || j == x),
{
    if in_result(r.push(x), j) {
        let b = choose|b: int| 0 <= b < r.push(x).len() && r.push(x)[b] == j;
        if b < r.len() {
            assert(r[b] == j);
        }
    }
    if in_result(r, j) {
        let b = choose|b: int| 0 <= b < r.len() && r[b] == j;
        assert(r.push(x)[b] == j);
    }
    if j == x {
        assert(r.push(x)[r.len() as int] == j);
    }
}

/// Selects the `k` best-scored pool indices, equal scores resolved
/// towards the lexicographically smaller word.
///
/// The result lists distinct valid indices, ordered by descending
/// selection key, and no index left out carries a key above any listed
/// one.
pub fn top_k_by_score(words: &Vec<Word>, scores: &Vec<u64>, k: usize) -> (r: Vec<usize>)
    requires
        wf_list(words@),
        words@.len() == scores@.len(),
    ensures
        r@.len() == (if k <= words@.len() {
            k as int
        } else {
            words@.len() as int
        }),
        forall|a: int| 0 <= a < r@.len() ==> #[trigger] r@[a] < words@.len(),
        forall|a: int, b: int| 0 <= a < b < r@.len() ==> r@[a] != r@[b],
        forall|a: int, b: int|
            0 <= a < b < r@.len() ==> prio_le(
                spec_key(words@, scores@, #[trigger] r@[b] as int),
                spec_key(words@, scores@, #[trigger] r@[a] as int),
            ),
        forall|j: int, a: int|
            #![trigger spec_key(words@, scores@, j), r@[a]]
            0 <= j < words@.len() && !in_result(r@, j) && 0 <= a < r@.len() ==> prio_le(
                spec_key(words@, scores@, j),
                spec_key(words@, scores@, r@[a] as int),
            ),
{
    let n = words.len();
    let mut q = pq_new();
    let mut i: usize = 0;
    while i < n
        invariant
            wf_list(words@),
            n == words@.len() == scores@.len(),
            0 <= i <= n,
            pq_contents(q) == entries(words@, scores@, i as int),
        decreases n - i,
    {
        let code = lex_code_exec(&words[i]);
        let rev: u64 = 11881375 - code;
        let prio = (scores[i], rev);
        proof {
            assert forall|p: (u64, u64)| !(#[trigger] pq_contents(q).contains(
                ((i as u64), p),
            )) by {
                lemma_entries_count(words@, scores@, i as int, ((i as u64), p));
            }
        }
        pq_push(&mut q, i as u64, prio);
        proof {
            assert(prio == spec_key(words@, scores@, i as int)) by {
                lemma_lex_code_bounds(words@[i as int]@);
            }
            assert(pq_contents(q) == entries(words@, scores@, i + 1));
        }
        i += 1;
    }
    proof {
        lemma_entries_len(words@, scores@, n as int);
        assert forall|e: (u64, (u64, u64))| pq_contents(q).count(e) > 0 implies 0 <= e.0 < n
            && e.1 == spec_key(words@, scores@, e.0 as int) && !in_result(Seq::empty(), e.0 as int)
            by {
            lemma_entries_count(words@, scores@, n as int, e);
        }
        assert forall|j: int| 0 <= j < n && !in_result(Seq::<usize>::empty(), j) implies
            pq_contents(q).count(((j as u64), spec_key(words@, scores@, j))) == 1 by {
            lemma_entries_count(words@, scores@, n as int, ((j as u64), spec_key(words@, scores@, j)));
        }
    }
    let m = if k < n {
        k
    } else {
        n
    };
    let mut out: Vec<usize> = Vec::new();
    while out.len() < m
        invariant
            wf_list(words@),
            n == words@.len() == scores@.len(),
            m <= n,
            m == (if k <= n {
                k as int
            } else {
                n as int
            }),
            out@.len() <= m,
            pq_contents(q).len() == n - out@.len(),
            forall|e: (u64, (u64, u64))|
                #[trigger] pq_contents(q).count(e) > 0 ==> 0 <= e.0 < n && e.1 == spec_key(
                    words@,
                    scores@,
                    e.0 as int,
                ) && !in_result(out@, e.0 as int),
            forall|j: int|
                0 <= j < n && !in_result(out@, j) ==> pq_contents(q).count(
                    ((j as u64), spec_key(words@, scores@, j)),
                ) == 1,
            forall|a: int| 0 <= a < out@.len() ==> #[trigger] out@[a] < n,
            forall|a: int, b: int| 0 <= a < b < out@.len() ==> out@[a] != out@[b],
            forall|a: int, b: int|
                0 <= a < b < out@.len() ==> prio_le(
                    spec_key(words@, scores@, #[trigger] out@[b] as int),
                    spec_key(words@, scores@, #[trigger] out@[a] as int),
                ),
            forall|j: int, a: int|
                #![trigger spec_key(words@, scores@, j), out@[a]]
                0 <= j < n && !in_result(out@, j) && 0 <= a < out@.len() ==> prio_le(
                    spec_key(words@, scores@, j),
                    spec_key(words@, scores@, out@[a] as int),
                ),
        decreases m - out@.len(),
    {
        let ghost pre_q = pq_contents(q);
        let ghost pre_out = out@;
        let popped = pq_pop(&mut q);
        match popped {
            Some(e) => {
                let (item, _prio) = e;
                proof {
                    assert(pre_q.count(e) > 0);
                    assert(0 <= e.0 < n && e.1 == spec_key(words@, scores@, e.0 as int));
                    assert(!in_result(pre_out, e.0 as int));
                    // the queue after the pop is the queue before it,
                    // less one copy of the popped entry
                    assert(pre_q =~= pq_contents(q).insert(e));
                    vstd::multiset::lemma_insert_len(pq_contents(q), e);
                }
                out.push(item as usize);
                proof {
                    let ji = e.0 as int;
                    assert(out@ == pre_out.push(item as usize));
                    assert forall|j: int| 0 <= j < n implies in_result(out@, j) == (in_result(
                        pre_out,
                        j,
                    ) || j == ji) by {
                        lemma_in_result_push(pre_out, item as usize, j);
                        assert((item as usize) as int == ji);
                    }
                    assert(in_result(out@, ji)) by {
                        lemma_in_result_push(pre_out, item as usize, ji);
                    }
                    // each index still outside the result keeps its entry
                    assert forall|j: int|
                        0 <= j < n && !in_result(out@, j) implies pq_contents(q).count(
                            ((j as u64), spec_key(words@, scores@, j)),
                        ) == 1 by {
                        let ej = ((j as u64), spec_key(words@, scores@, j));
                        assert(!in_result(pre_out, j) && j != ji);
                        assert(pre_q.count(ej) == 1);
                        assert((j as u64) as int == j);
                        assert(ej.0 != e.0);
                        assert(pq_contents(q).count(ej) == pre_q.remove(e).count(ej));
                    }
                    // nothing left in the queue mentions the new index
                    assert forall|e2: (u64, (u64, u64))|
                        #[trigger] pq_contents(q).count(e2) > 0 implies 0 <= e2.0 < n && e2.1
                        == spec_key(words@, scores@, e2.0 as int) && !in_result(out@, e2.0 as int)
                        by {
                        assert(pre_q.count(e2) >= pq_contents(q).count(e2));
                        assert(pre_q.count(e2) > 0);
                        if e2.0 == e.0 {
                            assert(e2 == e);
                            assert(pre_q.count(e) == 1);
                            assert(pq_contents(q).count(e) == 0);
                        }
                    }
                    // the new entry dominates what stays outside the result
                    assert forall|j: int|
                        0 <= j < n && !in_result(out@, j) implies prio_le(
                            spec_key(words@, scores@, j),
                            spec_key(words@, scores@, ji),
                        ) by {
                        let ej = ((j as u64), spec_key(words@, scores@, j));
                        assert(pq_contents(q).count(ej) == 1);
                        assert(pq_contents(q).contains(ej));
                        assert(prio_le(ej.1, e.1));
                    }
                }
            },
            None => {
                proof {
                    assert(pre_q.len() > 0);
                    assert(false);
                }
            },
        }
    }
    out
}

/// Law: equal scores come out in ascending lexicographic order — if two
/// distinct words hold the same score, the one listed earlier precedes
/// the other lexicographically.
pub proof fn lemma_tie_break_lexicographic(
    words: Seq<Word>,
    scores: Seq<u64>,
    r: Seq<usize>,
    a: int,
    b: int,
)
    requires
        wf_list(words),
        words.len() == scores.len(),
        forall|x: int| 0 <= x < r.len() ==> #[trigger] r[x] < words.len(),
        forall|x: int, y: int|
            0 <= x < y < r.len() ==> prio_le(
                spec_key(words, scores, #[trigger] r[y] as int),
                spec_key(words, scores, #[trigger] r[x] as int),
            ),
        0 <= a < b < r.len(),
        scores[r[a] as int] == scores[r[b] as int],
        words[r[a] as int]@ != words[r[b] as int]@,
    ensures
        lex_less(words[r[a] as int]@, words[r[b] as int]@),
{
    let ia = r[a] as int;
    let ib = r[b] as int;
    lemma_lex_code_bounds(words[ia]@);
    lemma_lex_code_bounds(words[ib]@);
    assert(prio_le(spec_key(words, scores, ib), spec_key(words, scores, ia)));
    lemma_lex_code_orders(words[ia]@, words[ib]@);
}

} // verus!
