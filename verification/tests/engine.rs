use wordle::constraints::ConstraintSet;
use wordle::feedback::evaluate;
use wordle::session::{GamePhase, GameRecord, GuessError, WordleApp};
use wordle::status::{LetterState, LetterStatus};
use wordle::verdict::{decode, encode, mark_code, Mark, Verdict};
use wordle::word::{word_in_list, Word};
use wordle::wordlist::{prepare_word_list, ListError};

fn make_word(s: &str) -> Word {
    Word::from_bytes(&s.as_bytes().to_vec()).expect("five letters")
}

fn word_string(w: &Word) -> String {
    String::from_utf8(w.bytes()).expect("ascii letters")
}

fn verdict_marks(secret: &str, guess: &str) -> Vec<Mark> {
    evaluate(&make_word(secret), &make_word(guess)).marks()
}

#[test]
fn word_construction_normalizes_case() {
    let w = Word::from_bytes(&b"CrAnE".to_vec()).unwrap();
    assert_eq!(word_string(&w), "crane");
}

#[test]
fn word_construction_rejects_bad_input() {
    assert!(Word::from_bytes(&b"carn".to_vec()).is_none());
    assert!(Word::from_bytes(&b"cranes".to_vec()).is_none());
    assert!(Word::from_bytes(&b"cr4ne".to_vec()).is_none());
    assert!(Word::from_bytes(&b"".to_vec()).is_none());
}

#[test]
fn word_lookup_finds_members_only() {
    let list = vec![make_word("crane"), make_word("trace")];
    assert!(word_in_list(&make_word("crane"), &list));
    assert!(word_in_list(&make_word("TRACE"), &list));
    assert!(!word_in_list(&make_word("slate"), &list));
}

#[test]
fn codec_round_trips_all_243_ordinals() {
    for o in 0..243u8 {
        let v = decode(o);
        assert_eq!(encode(&v), o);
    }
}

#[test]
fn codec_encodes_base_three_most_significant_first() {
    let v = Verdict::from_marks(vec![
        Mark::Correct,
        Mark::Present,
        Mark::Absent,
        Mark::Correct,
        Mark::Present,
    ])
    .unwrap();
    // digits 0,1,2,0,1 with weights 81,27,9,3,1
    assert_eq!(encode(&v), 27 + 2 * 9 + 1);
    let all_correct = Verdict::from_marks(vec![Mark::Correct; 5]).unwrap();
    assert_eq!(encode(&all_correct), 0);
    let all_absent = Verdict::from_marks(vec![Mark::Absent; 5]).unwrap();
    assert_eq!(encode(&all_absent), 242);
}

#[test]
fn evaluate_self_guess_is_all_correct() {
    for s in ["crane", "speed", "alloy", "queue", "mamma"] {
        let v = evaluate(&make_word(s), &make_word(s));
        assert!(v.is_all_correct());
        assert_eq!(v.marks(), vec![Mark::Correct; 5]);
    }
}

#[test]
fn evaluate_speed_vs_erase_respects_letter_supply() {
    // secret SPEED: e twice; guess ERASE asks for e three times.
    let marks = verdict_marks("speed", "erase");
    assert_eq!(
        marks,
        vec![Mark::Present, Mark::Absent, Mark::Absent, Mark::Present, Mark::Present]
    );
    // marks other than Absent for 'e': positions 0 and 4 only.
    let e_scored = "erase"
        .bytes()
        .zip(marks.iter())
        .filter(|(b, m)| *b == b'e' && **m != Mark::Absent)
        .count();
    assert_eq!(e_scored, 2);
}

#[test]
fn evaluate_alloy_vs_lolly_marks_two_ls() {
    // secret ALLOY holds two l's; guess LOLLY asks for three.
    let marks = verdict_marks("alloy", "lolly");
    assert_eq!(
        marks,
        vec![Mark::Present, Mark::Present, Mark::Correct, Mark::Absent, Mark::Correct]
    );
}

#[test]
fn evaluate_matches_first_pass_before_second() {
    // secret ABBEY vs guess BABES: the two-pass rule hands out
    // Present marks left to right after exact matches are consumed.
    let marks = verdict_marks("abbey", "babes");
    assert_eq!(
        marks,
        vec![Mark::Present, Mark::Present, Mark::Correct, Mark::Correct, Mark::Absent]
    );
}

#[test]
fn mark_codes_are_g_y_r() {
    assert_eq!(mark_code(Mark::Correct), 'G');
    assert_eq!(mark_code(Mark::Present), 'Y');
    assert_eq!(mark_code(Mark::Absent), 'R');
}

#[test]
fn letter_status_never_regresses() {
    let mut status = LetterStatus::new();
    let ranks = |s: &LetterStatus| -> Vec<u8> {
        (0..26)
            .map(|l| match s.state_of(l) {
                LetterState::Unknown => 0,
                LetterState::Absent => 1,
                LetterState::Present => 2,
                LetterState::Correct => 3,
            })
            .collect()
    };
    let secret = make_word("crane");
    let mut last = ranks(&status);
    for guess in ["trace", "caret", "nacre", "crane"] {
        let g = make_word(guess);
        let v = evaluate(&secret, &g);
        status.update(&g, &v);
        let now = ranks(&status);
        for l in 0..26 {
            assert!(now[l] >= last[l], "letter {} regressed", l);
        }
        last = now;
    }
}

#[test]
fn letter_status_applies_precedence() {
    let mut status = LetterStatus::new();
    let secret = make_word("crane");
    let g = make_word("trace");
    let v = evaluate(&secret, &g);
    status.update(&g, &v);
    // TRACE vs CRANE: t Absent, r/a/e Correct, c Present.
    assert_eq!(status.state_of((b't' - b'a') as usize), LetterState::Absent);
    assert_eq!(status.state_of((b'r' - b'a') as usize), LetterState::Correct);
    assert_eq!(status.state_of((b'a' - b'a') as usize), LetterState::Correct);
    assert_eq!(status.state_of((b'c' - b'a') as usize), LetterState::Present);
    assert_eq!(status.state_of((b'e' - b'a') as usize), LetterState::Correct);
    assert_eq!(status.state_of((b'z' - b'a') as usize), LetterState::Unknown);
    // A later guess placing c correctly upgrades it; r stays Correct.
    let g2 = make_word("crane");
    let v2 = evaluate(&secret, &g2);
    status.update(&g2, &v2);
    assert_eq!(status.state_of((b'c' - b'a') as usize), LetterState::Correct);
}

#[test]
fn constraints_validate_greens_and_yellows_only() {
    let mut cs = ConstraintSet::new();
    let secret = make_word("crane");
    let g = make_word("cigar");
    let v = evaluate(&secret, &g);
    // CIGAR vs CRANE: c Correct at 0, a Present, r Present, i/g Absent.
    cs.record(&g, &v);
    // Fixed position honoured, both present letters used somewhere.
    assert!(cs.validate(&make_word("carts")));
    // Wrong letter at the fixed position.
    assert!(!cs.validate(&make_word("roast")));
    // Missing the present letter r.
    assert!(!cs.validate(&make_word("cacao")));
    // Absent letters do not gate strict validation.
    assert!(cs.validate(&make_word("cigar")));
}

#[test]
fn advisory_filter_excludes_absent_letters() {
    let mut cs = ConstraintSet::new();
    let secret = make_word("crane");
    let g = make_word("cigar");
    let v = evaluate(&secret, &g);
    cs.record(&g, &v);
    let pool = vec![
        make_word("carts"),
        make_word("cigar"),
        make_word("crane"),
        make_word("caror"),
    ];
    let kept: Vec<String> = cs
        .filter_candidates(&pool)
        .iter()
        .map(word_string)
        .collect();
    // cigar reuses the absent letters i and g; the others satisfy
    // the green c, the yellows r and a, and avoid i/g.
    assert_eq!(kept, vec!["carts", "crane", "caror"]);
}

#[test]
fn word_list_preparation_sorts_and_validates() {
    let allowed = vec![
        make_word("slate"),
        make_word("crane"),
        make_word("trace"),
        make_word("alloy"),
    ];
    let ok = prepare_word_list(
        &vec![make_word("trace"), make_word("alloy"), make_word("crane")],
        &allowed,
    )
    .unwrap();
    let names: Vec<String> = ok.iter().map(word_string).collect();
    assert_eq!(names, vec!["alloy", "crane", "trace"]);

    assert_eq!(prepare_word_list(&Vec::new(), &allowed), Err(ListError::Empty));
    assert_eq!(
        prepare_word_list(&vec![make_word("crane"), make_word("CRANE")], &allowed),
        Err(ListError::Duplicate)
    );
    assert_eq!(
        prepare_word_list(&vec![make_word("crane"), make_word("queue")], &allowed),
        Err(ListError::NotAllowed)
    );
}

#[test]
fn session_plays_crane_scenario_to_a_win() {
    let mut app = WordleApp::new();
    let lists = vec![make_word("crane"), make_word("trace")];
    app.init(lists.clone(), lists, Vec::new(), 0);
    assert_eq!(app.phase, GamePhase::NotStarted);
    app.new_game(make_word("crane"));
    assert_eq!(app.phase, GamePhase::InProgress);

    for b in b"trace" {
        app.push_letter(*b);
    }
    let first = app.submit_guess().expect("accepted guess");
    assert_eq!(
        first.marks(),
        vec![Mark::Absent, Mark::Correct, Mark::Correct, Mark::Present, Mark::Correct]
    );
    assert_eq!(app.phase, GamePhase::InProgress);

    for b in b"CRANE" {
        app.push_letter(*b);
    }
    let second = app.submit_guess().expect("accepted guess");
    assert!(second.is_all_correct());
    assert_eq!(app.phase, GamePhase::Won);
    assert_eq!(app.guesses.len(), 2);
    assert_eq!(app.win_num, 1);
    assert_eq!(app.total_rounds, 1);
}

#[test]
fn session_rejects_strict_mode_violation() {
    let mut app = WordleApp::new();
    let lists = vec![
        make_word("crane"),
        make_word("cigar"),
        make_word("roast"),
        make_word("carts"),
    ];
    app.init(lists.clone(), lists, Vec::new(), 0);
    app.difficult = true;
    app.new_game(make_word("crane"));

    // CIGAR fixes c at position 0.
    for b in b"cigar" {
        app.push_letter(*b);
    }
    app.submit_guess().expect("accepted guess");

    // ROAST puts a different letter at position 0: rejected before
    // evaluation, state untouched.
    let guesses_before = app.guesses.len();
    for b in b"roast" {
        app.push_letter(*b);
    }
    assert!(!app.examine(&make_word("roast")));
    assert_eq!(app.submit_guess(), Err(GuessError::ConstraintViolation));
    assert_eq!(app.guesses.len(), guesses_before);

    // A conforming guess passes.
    for b in 0..5 {
        let _ = b;
        app.pop_letter();
    }
    for b in b"carts" {
        app.push_letter(*b);
    }
    assert!(app.submit_guess().is_ok());
}

#[test]
fn session_rejects_short_and_unknown_guesses() {
    let mut app = WordleApp::new();
    let lists = vec![make_word("crane")];
    app.init(lists.clone(), lists, Vec::new(), 0);
    app.new_game(make_word("crane"));

    for b in b"cra" {
        app.push_letter(*b);
    }
    assert_eq!(app.submit_guess(), Err(GuessError::InvalidLength));
    app.pop_letter();
    app.pop_letter();
    app.pop_letter();

    for b in b"slate" {
        app.push_letter(*b);
    }
    assert_eq!(app.submit_guess(), Err(GuessError::NotInWordList));
}

#[test]
fn session_rejects_submissions_after_the_game_ends() {
    let mut app = WordleApp::new();
    let lists = vec![make_word("crane")];
    app.init(lists.clone(), lists, Vec::new(), 0);
    app.new_game(make_word("crane"));
    for b in b"crane" {
        app.push_letter(*b);
    }
    assert!(app.submit_guess().is_ok());
    assert_eq!(app.phase, GamePhase::Won);
    for b in b"crane" {
        app.push_letter(*b);
    }
    assert_eq!(app.submit_guess(), Err(GuessError::GameTerminated));
}

#[test]
fn session_loses_after_six_misses() {
    let mut app = WordleApp::new();
    let lists = vec![make_word("crane"), make_word("slate")];
    app.init(lists.clone(), lists, Vec::new(), 0);
    app.new_game(make_word("crane"));
    for _ in 0..6 {
        for b in b"slate" {
            app.push_letter(*b);
        }
        app.submit_guess().expect("accepted guess");
    }
    assert_eq!(app.phase, GamePhase::Lost);
    assert_eq!(app.total_rounds, 1);
    assert_eq!(app.win_num, 0);
}

#[test]
fn session_counts_wins_in_loaded_history() {
    let rec = |answer: &str, guesses: &[&str]| GameRecord {
        answer: make_word(answer),
        guesses: guesses.iter().map(|g| make_word(g)).collect(),
    };
    let history = vec![
        rec("crane", &["slate", "crane"]),
        rec("slate", &["crane", "trace"]),
        rec("alloy", &["alloy"]),
    ];
    let mut app = WordleApp::new();
    let lists = vec![make_word("crane")];
    app.init(lists.clone(), lists, history, 3);
    assert_eq!(app.win_num, 2);
    assert_eq!(app.total_rounds, 3);
}

#[test]
fn typing_normalizes_and_bounds_the_buffer() {
    let mut app = WordleApp::new();
    let lists = vec![make_word("crane")];
    app.init(lists.clone(), lists, Vec::new(), 0);
    app.new_game(make_word("crane"));
    for b in b"CRANES" {
        app.push_letter(*b);
    }
    assert_eq!(app.current_guess, b"crane".to_vec());
    app.push_letter(b'!');
    assert_eq!(app.current_guess, b"crane".to_vec());
    app.pop_letter();
    assert_eq!(app.current_guess, b"cran".to_vec());
}

#[test]
fn keyboard_codes_render_like_the_grid() {
    let mut app = WordleApp::new();
    let lists = vec![make_word("crane"), make_word("trace")];
    app.init(lists.clone(), lists, Vec::new(), 0);
    app.new_game(make_word("crane"));
    for b in b"trace" {
        app.push_letter(*b);
    }
    app.submit_guess().expect("accepted guess");
    assert_eq!(app.get_key_code((b't' - b'a') as usize), 'R');
    assert_eq!(app.get_key_code((b'r' - b'a') as usize), 'G');
    assert_eq!(app.get_key_code((b'c' - b'a') as usize), 'Y');
    assert_eq!(app.get_key_code((b'z' - b'a') as usize), 'X');
}
