use wordle::rank::{pattern_histogram, top_k_by_score};
use wordle::session::{winning_guess_total, GameRecord};
use wordle::tally::GuessTally;
use wordle::verdict::encode;
use wordle::feedback::evaluate;
use wordle::word::Word;

fn wd(s: &str) -> Word {
    Word::from_bytes(&s.as_bytes().to_vec()).expect("five letters")
}

fn entropy_bits(hist: &[u32], pool_size: usize) -> f64 {
    let mut h = 0.0f64;
    for &count in hist {
        if count > 0 {
            let p = count as f64 / pool_size as f64;
            h -= p * p.log2();
        }
    }
    h
}

#[test]
fn histogram_counts_each_pool_word_once() {
    let pool = vec![wd("crane"), wd("trace"), wd("slate"), wd("crane")];
    let cand = wd("crane");
    let hist = pattern_histogram(&cand, &pool);
    assert_eq!(hist.len(), 243);
    let total: u64 = hist.iter().map(|&c| c as u64).sum();
    assert_eq!(total, pool.len() as u64);
    // The candidate occurs in the pool twice, so the all-Correct bucket
    // (ordinal 0) holds two counts.
    assert_eq!(hist[0], 2);
    // Each other word lands in the bucket of its own verdict.
    for other in ["trace", "slate"] {
        let o = encode(&evaluate(&cand, &wd(other))) as usize;
        assert!(hist[o] >= 1, "bucket for {} is empty", other);
    }
}

#[test]
fn histogram_is_deterministic() {
    let pool = vec![wd("crane"), wd("trace"), wd("slate"), wd("alloy")];
    let a = pattern_histogram(&wd("trace"), &pool);
    let b = pattern_histogram(&wd("trace"), &pool);
    assert_eq!(a, b);
}

#[test]
fn entropy_lies_between_zero_and_log2_pool_size() {
    let pool = vec![wd("crane"), wd("trace"), wd("slate"), wd("alloy"), wd("queue")];
    let bound = (pool.len() as f64).log2();
    for cand in &pool {
        let hist = pattern_histogram(cand, &pool);
        let h = entropy_bits(&hist, pool.len());
        assert!(h >= 0.0);
        assert!(h <= bound + 1e-9);
    }
    // A candidate separating every pool word reaches the upper bound.
    let spread = pattern_histogram(&wd("crane"), &pool);
    let h = entropy_bits(&spread, pool.len());
    assert!(h > 0.0);
}

#[test]
fn ranking_orders_by_score_descending() {
    let words = vec![wd("alloy"), wd("crane"), wd("slate")];
    let scores = vec![10u64, 30u64, 20u64];
    let top = top_k_by_score(&words, &scores, 3);
    assert_eq!(top, vec![1, 2, 0]);
}

#[test]
fn ranking_is_deterministic() {
    let words = vec![wd("alloy"), wd("crane"), wd("slate"), wd("trace")];
    let scores = vec![7u64, 7u64, 9u64, 7u64];
    let a = top_k_by_score(&words, &scores, 4);
    let b = top_k_by_score(&words, &scores, 4);
    assert_eq!(a, b);
}

#[test]
fn ranking_breaks_ties_lexicographically() {
    // Insertion order deliberately differs from the expected output:
    // equal scores must come back in dictionary order.
    let words = vec![wd("zonal"), wd("alloy"), wd("slate"), wd("crane")];
    let scores = vec![5u64, 5u64, 5u64, 5u64];
    let top = top_k_by_score(&words, &scores, 4);
    assert_eq!(top, vec![1, 3, 2, 0]);
}

#[test]
fn ranking_caps_the_result_at_the_pool_size() {
    let words = vec![wd("crane"), wd("slate")];
    let scores = vec![1u64, 2u64];
    assert_eq!(top_k_by_score(&words, &scores, 5), vec![1, 0]);
    assert_eq!(top_k_by_score(&words, &scores, 1), vec![1]);
    assert_eq!(top_k_by_score(&words, &scores, 0), Vec::<usize>::new());
}

#[test]
fn tally_counts_repeated_guesses_once_per_use() {
    let mut tally = GuessTally::new();
    for g in ["crane", "slate", "crane", "CRANE", "trace"] {
        tally.bump(&wd(g));
    }
    let words: Vec<String> = tally
        .words()
        .iter()
        .map(|w| String::from_utf8(w.bytes()).unwrap())
        .collect();
    assert_eq!(words, vec!["crane", "slate", "trace"]);
    assert_eq!(tally.count_at(0), 3);
    assert_eq!(tally.count_at(1), 1);
    assert_eq!(tally.count_at(2), 1);
    // Most used first; equal counts in dictionary order.
    let top = top_k_by_score(tally.words(), &tally.scores(), 5);
    assert_eq!(top, vec![0, 1, 2]);
}

#[test]
fn winning_totals_sum_only_won_games() {
    let rec = |answer: &str, guesses: &[&str]| GameRecord {
        answer: wd(answer),
        guesses: guesses.iter().map(|g| wd(g)).collect(),
    };
    let history = vec![
        rec("crane", &["slate", "trace", "crane"]),
        rec("slate", &["crane", "trace"]),
        rec("alloy", &["alloy"]),
        rec("queue", &[]),
    ];
    assert_eq!(winning_guess_total(&history), 4);
}

#[test]
fn ranking_of_entropy_scores_prefers_the_separating_guess() {
    // Against this pool, "crane" as a guess splits the pool better
    // than "queue" does, so it must rank first.
    let pool = vec![wd("crane"), wd("brane"), wd("frame"), wd("queue")];
    let mut scores: Vec<u64> = Vec::new();
    for cand in &pool {
        let hist = pattern_histogram(cand, &pool);
        let h = entropy_bits(&hist, pool.len());
        scores.push((h * (1u64 << 32) as f64) as u64);
    }
    let top = top_k_by_score(&pool, &scores, pool.len());
    let queue_pos = top.iter().position(|&i| i == 3).unwrap();
    assert_eq!(queue_pos, pool.len() - 1, "the non-separating guess ranks last");
}
