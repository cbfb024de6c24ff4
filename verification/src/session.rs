//! One game session: the secret, the scored guesses, the accumulated
//! letter status and constraints, and the win/loss state machine.
//!
//! A session moves from `NotStarted` to `InProgress` when a secret is
//! assigned, stays `InProgress` while scored guesses are neither
//! all-Correct nor the sixth, and ends `Won` on an all-Correct verdict
//! or `Lost` when the sixth guess misses.  Once ended, submissions are
//! rejected without touching the state.

use crate::constraints::{spec_recorded, ConstraintSet};
use crate::feedback::{evaluate, spec_evaluate};
use crate::status::{spec_updated, state_code, strength, LetterState, LetterStatus};
use crate::verdict::{all_correct, Verdict};
use crate::word::{is_letter, to_lower, wf_list, word_in, word_in_list, Word};
use vstd::prelude::*;

verus! {

/// Where a game stands.
#[derive(Clone, Copy, Debug, PartialEq, Eq, Structural)]
pub enum GamePhase {
    /// No secret assigned yet.
    NotStarted,
    /// A secret is set and fewer than six guesses are scored.
    InProgress,
    /// Some guess scored all-Correct.
    Won,
    /// Six guesses scored, none all-Correct.
    Lost,
}

/// Why a submitted guess was rejected.
#[derive(Clone, Copy, Debug, PartialEq, Eq, Structural)]
pub enum GuessError {
    /// The typed guess is not exactly five letters.
    InvalidLength,
    /// The guess is not in the acceptable list.
    NotInWordList,
    /// Strict mode: the guess contradicts revealed information.
    ConstraintViolation,
    /// The game is already over.
    GameTerminated,
}

/// One game as kept in the session's history: its answer and the
/// guesses submitted against it.
pub struct GameRecord {
    pub answer: Word,
    pub guesses: Vec<Word>,
}

impl GameRecord {
    /// The answer and every guess are five-letter words, and a game
    /// never records more than six guesses.
    pub open spec fn wf(&self) -> bool {
        self.answer.wf() && wf_list(self.guesses@) && self.guesses@.len() <= 6
    }

    /// A record counts as a win when its last guess hit the answer.
    pub open spec fn is_win(&self) -> bool {
        self.guesses@.len() > 0 && self.guesses@.last()@ == self.answer@
    }
}

/// Every record of a history is well-formed.
pub open spec fn wf_history(h: Seq<GameRecord>) -> bool {
    forall|i: int| 0 <= i < h.len() ==> (#[trigger] h[i]).wf()
}

/// The number of wins among the first `n` records.
pub open spec fn spec_wins(h: Seq<GameRecord>, n: int) -> int
    decreases n,
{
    if n <= 0 {
        0
    } else {
        spec_wins(h, n - 1) + if h[n - 1].is_win() {
            1int
        } else {
            0int
        }
    }
}

/// The guesses spent on the wins among the first `n` records.
pub open spec fn spec_win_tries(h: Seq<GameRecord>, n: int) -> int
    decreases n,
{
    if n <= 0 {
        0
    } else {
        spec_win_tries(h, n - 1) + if h[n - 1].is_win() {
            h[n - 1].guesses@.len() as int
        } else {
            0int
        }
    }
}

/// Sums the guesses spent on won games, for the statistics line that
/// reports the average tries per win.
pub fn winning_guess_total(history: &Vec<GameRecord>) -> (r: u64)
    requires
        wf_history(history@),
        history@.len() <= u32::MAX,
    ensures
        r == spec_win_tries(history@, history@.len() as int),
{
    let n = history.len();
    let mut total: u64 = 0;
    let mut i: usize = 0;
    while i < n
        invariant
            wf_history(history@),
            n == history@.len() <= u32::MAX,
            0 <= i <= n,
            total == spec_win_tries(history@, i as int),
            total <= 6 * i,
        decreases n - i,
    {
        let rec = &history[i];
        let gl = rec.guesses.len();
        if gl > 0 {
            if rec.guesses[gl - 1].same_word(&rec.answer) {
                total = total + (gl as u64);
            }
        }
        i += 1;
    }
    total
}

/// The letters of an optional answer (empty when none is set).
pub open spec fn answer_view(a: Option<Word>) -> Seq<u8> {
    match a {
        Some(w) => w@,
        None => Seq::empty(),
    }
}

/// One game session.
pub struct WordleApp {
    /// The secret of the running game, once one is assigned.
    pub answer: Option<Word>,
    /// Where the game stands.
    pub phase: GamePhase,
    /// The scored guesses of the running game, in order.
    pub guesses: Vec<Word>,
    /// The verdict of each scored guess.
    pub feedback: Vec<Verdict>,
    /// The letters typed towards the next guess, held lower-case.
    pub current_guess: Vec<u8>,
    /// The best information seen for each letter (the keyboard hints).
    pub keyboard: LetterStatus,
    /// The accumulated position and letter constraints.
    pub constraints: ConstraintSet,
    /// The candidate secrets.
    pub final_list: Vec<Word>,
    /// The words accepted as guesses.
    pub accept_list: Vec<Word>,
    /// Whether strict (difficult) mode gates each guess.
    pub difficult: bool,
    /// Every game of this session and of loaded history.
    pub history: Vec<GameRecord>,
    /// Finished games, counting loaded history.
    pub total_rounds: u64,
    /// Won games, counting loaded history.
    pub win_num: u64,
}

impl WordleApp {
    /// The session invariant.
    pub open spec fn wf(&self) -> bool {
        &&& self.keyboard.wf()
        &&& self.constraints.wf()
        &&& wf_list(self.final_list@)
        &&& wf_list(self.accept_list@)
        &&& wf_list(self.guesses@)
        &&& self.feedback@.len() == self.guesses@.len()
        &&& (forall|i: int| 0 <= i < self.feedback@.len() ==> (#[trigger] self.feedback@[i]).wf())
        &&& self.guesses@.len() <= 6
        &&& self.current_guess@.len() <= 5
        &&& (forall|i: int|
            0 <= i < self.current_guess@.len() ==> is_letter(#[trigger] self.current_guess@[i]))
        &&& (match self.answer {
            Some(w) => w.wf(),
            None => true,
        })
        &&& wf_history(self.history@)
        &&& (self.phase is InProgress ==> self.answer is Some && self.guesses@.len() < 6
            && self.history@.len() > 0 && self.history@.last().guesses@.len()
            == self.guesses@.len())
        &&& ((self.phase is Won || self.phase is Lost) ==> self.answer is Some)
    }

    /// A fresh session: nothing loaded, no game running.
    pub fn new() -> (r: WordleApp)
        ensures
            r.wf(),
            r.phase == GamePhase::NotStarted,
            r.answer is None,
            r.guesses@.len() == 0,
            r.feedback@.len() == 0,
            r.current_guess@.len() == 0,
            r.final_list@.len() == 0,
            r.accept_list@.len() == 0,
            !r.difficult,
            r.history@.len() == 0,
            r.total_rounds == 0,
            r.win_num == 0,
            forall|l: int| 0 <= l < 26 ==> r.keyboard@[l] == LetterState::Unknown,
    {
        WordleApp {
            answer: None,
            phase: GamePhase::NotStarted,
            guesses: Vec::new(),
            feedback: Vec::new(),
            current_guess: Vec::new(),
            keyboard: LetterStatus::new(),
            constraints: ConstraintSet::new(),
            final_list: Vec::new(),
            accept_list: Vec::new(),
            difficult: false,
            history: Vec::new(),
            total_rounds: 0,
            win_num: 0,
        }
    }

    /// Takes over the word lists and the stored history of earlier
    /// games, counting how many of those games were won.  Strict mode
    /// starts off and no game is running afterwards.
    pub fn init(
        &mut self,
        final_list: Vec<Word>,
        accept_list: Vec<Word>,
        history: Vec<GameRecord>,
        total_rounds: u64,
    )
        requires
            wf_list(final_list@),
            wf_list(accept_list@),
            wf_history(history@),
        ensures
            final(self).wf(),
            final(self).final_list == final_list,
            final(self).accept_list == accept_list,
            final(self).history == history,
            final(self).total_rounds == total_rounds,
            final(self).win_num == spec_wins(history@, history@.len() as int),
            !final(self).difficult,
            final(self).phase == GamePhase::NotStarted,
            final(self).answer is None,
            final(self).guesses@.len() == 0,
            final(self).feedback@.len() == 0,
            final(self).current_guess@.len() == 0,
    {
        let mut fresh = WordleApp::new();
        fresh.final_list = final_list;
        fresh.accept_list = accept_list;
        fresh.total_rounds = total_rounds;
        let n = history.len();
        let mut wins: u64 = 0;
        let mut i: usize = 0;
        while i < n
            invariant
                wf_history(history@),
                n == history@.len(),
                0 <= i <= n,
                wins == spec_wins(history@, i as int),
                wins <= i,
            decreases n - i,
        {
            let rec = &history[i];
            let gl = rec.guesses.len();
            if gl > 0 {
                if rec.guesses[gl - 1].same_word(&rec.answer) {
                    wins = wins + 1;
                }
            }
            i += 1;
        }
        fresh.win_num = wins;
        fresh.history = history;
        *self = fresh;
    }

    /// Starts a new game against the given secret, clearing everything
    /// the previous game revealed and opening a record for it.
    pub fn new_game(&mut self, answer: Word)
        requires
            old(self).wf(),
            answer.wf(),
            old(self).history@.len() < usize::MAX,
        ensures
            final(self).wf(),
            final(self).phase == GamePhase::InProgress,
            final(self).answer is Some,
            answer_view(final(self).answer) == answer@,
            final(self).guesses@.len() == 0,
            final(self).feedback@.len() == 0,
            final(self).current_guess@.len() == 0,
            forall|l: int| 0 <= l < 26 ==> final(self).keyboard@[l] == LetterState::Unknown,
            forall|i: int| 0 <= i < 5 ==> final(self).constraints.green(i) is None,
            forall|l: int| 0 <= l < 26 ==> !final(self).constraints.yellow(l),
            forall|l: int| 0 <= l < 26 ==> !final(self).constraints.absent(l),
            final(self).history@.len() == old(self).history@.len() + 1,
            final(self).history@.last().answer@ == answer@,
            final(self).history@.last().guesses@.len() == 0,
            forall|i: int|
                0 <= i < old(self).history@.len() ==> final(self).history@[i] == old(self).history@[i],
            final(self).final_list == old(self).final_list,
            final(self).accept_list == old(self).accept_list,
            final(self).difficult == old(self).difficult,
            final(self).total_rounds == old(self).total_rounds,
            final(self).win_num == old(self).win_num,
    {
        let record = GameRecord { answer: answer.copy_word(), guesses: Vec::new() };
        self.history.push(record);
        self.answer = Some(answer);
        self.phase = GamePhase::InProgress;
        self.guesses = Vec::new();
        self.feedback = Vec::new();
        self.current_guess = Vec::new();
        self.keyboard = LetterStatus::new();
        self.constraints = ConstraintSet::new();
    }

    /// Whether a guess honours the revealed information, as strict mode
    /// demands: fixed positions match and must-appear letters appear.
    pub fn examine(&self, guess: &Word) -> (r: bool)
        requires
            self.wf(),
            guess.wf(),
        ensures
            r == self.constraints.spec_strict_ok(guess@),
    {
        self.constraints.validate(guess)
    }

    /// Scores a guess against the running game's secret and folds the
    /// verdict into the accumulated constraints.
    pub fn calculate_feedback(&mut self, guess: &Word) -> (v: Verdict)
        requires
            old(self).wf(),
            guess.wf(),
            old(self).phase is InProgress,
        ensures
            final(self).wf(),
            v.wf(),
            v@ == spec_evaluate(answer_view(old(self).answer), guess@),
            spec_recorded(old(self).constraints, final(self).constraints, guess@, v@),
            final(self).constraints.wf(),
            *final(self) == (WordleApp { constraints: final(self).constraints, ..*old(self) }),
    {
        let v = match &self.answer {
            Some(ans) => evaluate(ans, guess),
            None => {
                proof {
                    assert(false);
                }
                Verdict::from_five(Vec::new())
            },
        };
        self.constraints.record(guess, &v);
        v
    }

    /// Folds a scored guess into the keyboard's letter hints; no
    /// letter's hint ever weakens.
    pub fn update_keyboard_state(&mut self, guess: &Word, feedback: &Verdict)
        requires
            old(self).wf(),
            guess.wf(),
            feedback.wf(),
        ensures
            final(self).wf(),
            spec_updated(old(self).keyboard@, final(self).keyboard@, guess@, feedback@),
            forall|l: int|
                0 <= l < 26 ==> strength(#[trigger] final(self).keyboard@[l]) >= strength(
                    old(self).keyboard@[l],
                ),
            *final(self) == (WordleApp { keyboard: final(self).keyboard, ..*old(self) }),
    {
        self.keyboard.update(guess, feedback);
    }

    /// Submits the typed guess against the running game.
    ///
    /// A finished game rejects it as `GameTerminated`; a guess that is
    /// not five letters as `InvalidLength`; one outside the acceptable
    /// list as `NotInWordList`; in strict mode, one that contradicts the
    /// revealed information as `ConstraintViolation` — each without
    /// touching the state.  Otherwise the guess is scored: the verdict
    /// is pushed, the keyboard hints and constraints folded, the typed
    /// buffer cleared, the guess appended to the game's record, and the
    /// game won on an all-Correct verdict or lost when the sixth guess
    /// misses.
    pub fn submit_guess(&mut self) -> (r: Result<Verdict, GuessError>)
        requires
            old(self).wf(),
            !(old(self).phase is NotStarted),
            old(self).total_rounds < u64::MAX,
            old(self).win_num < u64::MAX,
        ensures
            final(self).wf(),
            match r {
                Err(GuessError::GameTerminated) => (old(self).phase is Won || old(self).phase is Lost) && *final(self) == *old(self),
                Err(GuessError::InvalidLength) => old(self).phase is InProgress && old(self).current_guess@.len() != 5 && *final(self) == *old(self),
                Err(GuessError::NotInWordList) => old(self).phase is InProgress && old(self).current_guess@.len() == 5 && !word_in(
                    old(self).accept_list@,
                    old(self).current_guess@,
                ) && *final(self) == *old(self),
                Err(GuessError::ConstraintViolation) => old(self).phase is InProgress && old(self).current_guess@.len() == 5 && word_in(
                    old(self).accept_list@,
                    old(self).current_guess@,
                ) && old(self).difficult && !old(self).constraints.spec_strict_ok(
                    old(self).current_guess@,
                ) && *final(self) == *old(self),
                Ok(v) => {
                    let g = old(self).current_guess@;
                    let ans = answer_view(old(self).answer);
                    let won = all_correct(v@);
                    let lost = !won && old(self).guesses@.len() + 1 == 6;
                    &&& old(self).phase is InProgress
                    &&& g.len() == 5
                    &&& word_in(old(self).accept_list@, g)
                    &&& (old(self).difficult ==> old(self).constraints.spec_strict_ok(g))
                    &&& v.wf()
                    &&& v@ == spec_evaluate(ans, g)
                    &&& final(self).guesses@.len() == old(self).guesses@.len() + 1
                    &&& final(self).guesses@.last()@ == g
                    &&& (forall|i: int|
                        0 <= i < old(self).guesses@.len() ==> final(self).guesses@[i] == old(self).guesses@[i])
                    &&& final(self).feedback@.len() == old(self).feedback@.len() + 1
                    &&& final(self).feedback@.last()@ == v@
                    &&& (forall|i: int|
                        0 <= i < old(self).feedback@.len() ==> final(self).feedback@[i] == old(self).feedback@[i])
                    &&& spec_updated(old(self).keyboard@, final(self).keyboard@, g, v@)
                    &&& spec_recorded(old(self).constraints, final(self).constraints, g, v@)
                    &&& final(self).current_guess@.len() == 0
                    &&& final(self).history@.len() == old(self).history@.len()
                    &&& final(self).history@.len() > 0
                    &&& final(self).history@.last().answer@ == old(self).history@.last().answer@
                    &&& final(self).history@.last().guesses@.len() == old(self).history@.last().guesses@.len() + 1
                    &&& final(self).history@.last().guesses@.last()@ == g
                    &&& (forall|i: int|
                        0 <= i < old(self).history@.last().guesses@.len() ==> final(self).history@.last().guesses@[i] == old(self).history@.last().guesses@[i])
                    &&& (forall|i: int|
                        0 <= i < old(self).history@.len() - 1 ==> final(self).history@[i] == old(self).history@[i])
                    &&& final(self).phase == (if won {
                        GamePhase::Won
                    } else if lost {
                        GamePhase::Lost
                    } else {
                        GamePhase::InProgress
                    })
                    &&& final(self).win_num == old(self).win_num + (if won {
                        1int
                    } else {
                        0int
                    })
                    &&& final(self).total_rounds == old(self).total_rounds + (if won || lost {
                        1int
                    } else {
                        0int
                    })
                    &&& final(self).answer == old(self).answer
                    &&& final(self).accept_list == old(self).accept_list
                    &&& final(self).final_list == old(self).final_list
                    &&& final(self).difficult == old(self).difficult
                },
            },
    {
        match self.phase {
            GamePhase::Won => {
                return Err(GuessError::GameTerminated);
            },
            GamePhase::Lost => {
                return Err(GuessError::GameTerminated);
            },
            GamePhase::NotStarted => {
                proof {
                    assert(false);
                }
                return Err(GuessError::GameTerminated);
            },
            GamePhase::InProgress => {},
        }
        if self.current_guess.len() != 5 {
            return Err(GuessError::InvalidLength);
        }
        let w = match Word::from_bytes(&self.current_guess) {
            Some(w) => w,
            None => {
                proof {
                    assert(is_letter(self.current_guess@[0]));
                    assert(false);
                }
                return Err(GuessError::InvalidLength);
            },
        };
        proof {
            assert(w@ =~= self.current_guess@);
        }
        if !word_in_list(&w, &self.accept_list) {
            return Err(GuessError::NotInWordList);
        }
        if self.difficult && !self.constraints.validate(&w) {
            return Err(GuessError::ConstraintViolation);
        }

        let v = self.calculate_feedback(&w);
        self.update_keyboard_state(&w, &v);
        let stored_v = Verdict::from_five(v.marks());
        self.guesses.push(w.copy_word());
        self.feedback.push(stored_v);
        self.current_guess = Vec::new();

        // Append the guess to the running game's record.
        match self.history.pop() {
            Some(mut record) => {
                record.guesses.push(w);
                self.history.push(record);
            },
            None => {
                proof {
                    assert(false);
                }
            },
        }

        let won = v.is_all_correct();
        if won {
            self.phase = GamePhase::Won;
            self.total_rounds = self.total_rounds + 1;
            self.win_num = self.win_num + 1;
        } else if self.guesses.len() >= 6 {
            self.phase = GamePhase::Lost;
            self.total_rounds = self.total_rounds + 1;
        }
        Ok(v)
    }

    /// Types one letter towards the next guess while a game runs and
    /// the buffer has room; other letters leave the state alone.
    /// Upper-case input is stored lower-case.
    pub fn push_letter(&mut self, c: u8)
        requires
            old(self).wf(),
        ensures
            final(self).wf(),
            final(self).current_guess@ == (if old(self).phase is InProgress && old(self).current_guess@.len() < 5 && crate::word::is_alpha(c) {
                old(self).current_guess@.push(to_lower(c))
            } else {
                old(self).current_guess@
            }),
            *final(self) == (WordleApp { current_guess: final(self).current_guess, ..*old(self) }),
    {
        if matches!(self.phase, GamePhase::InProgress) && self.current_guess.len() < 5 {
            if 65 <= c && c <= 90 {
                self.current_guess.push(c + 32);
            } else if 97 <= c && c <= 122 {
                self.current_guess.push(c);
            }
        }
    }

    /// Removes the last typed letter, if any.
    pub fn pop_letter(&mut self)
        requires
            old(self).wf(),
        ensures
            final(self).wf(),
            final(self).current_guess@ == (if old(self).current_guess@.len() > 0 {
                old(self).current_guess@.drop_last()
            } else {
                old(self).current_guess@
            }),
            *final(self) == (WordleApp { current_guess: final(self).current_guess, ..*old(self) }),
    {
        if self.current_guess.len() > 0 {
            let _ = self.current_guess.pop();
        }
    }

    /// The display code the keyboard shows for letter `l` (0 to 25):
    /// 'G', 'Y', 'R' or 'X'.
    pub fn get_key_code(&self, l: usize) -> (c: char)
        requires
            self.wf(),
            l < 26,
        ensures
            c == (match self.keyboard@[l as int] {
                LetterState::Correct => 'G',
                LetterState::Present => 'Y',
                LetterState::Absent => 'R',
                LetterState::Unknown => 'X',
            }),
    {
        state_code(self.keyboard.state_of(l))
    }
}

} // verus!
