//! Per-position feedback marks, the five-mark `Verdict`, and the codec
//! that packs a verdict into a base-3 ordinal in `[0, 243)`.

use vstd::prelude::*;

verus! {

/// Feedback for one guess position.
#[derive(Clone, Copy, Debug, PartialEq, Eq, Structural)]
pub enum Mark {
    /// The guessed letter stands at this position in the secret.
    Correct,
    /// The letter occurs elsewhere in the secret (after supply accounting).
    Present,
    /// The letter's supply in the secret is exhausted.
    Absent,
}

/// The base-3 digit of a mark: Correct is 0, Present is 1, Absent is 2.
pub open spec fn trit(m: Mark) -> int {
    match m {
        Mark::Correct => 0,
        Mark::Present => 1,
        Mark::Absent => 2,
    }
}

/// Three to the power `n`.
pub open spec fn pow3(n: nat) -> nat
    decreases n,
{
    if n == 0 {
        1
    } else {
        3 * pow3((n - 1) as nat)
    }
}

/// The first `n` marks read as a base-3 numeral, position 0 most
/// significant (weights 3^4 .. 3^0 over a full verdict).
pub open spec fn encode_prefix(v: Seq<Mark>, n: int) -> int
    decreases n,
{
    if n <= 0 {
        0
    } else {
        encode_prefix(v, n - 1) * 3 + trit(v[n - 1])
    }
}

/// The ordinal of a five-mark verdict, in `[0, 243)`.
pub open spec fn spec_encode(v: Seq<Mark>) -> int {
    encode_prefix(v, 5)
}

/// Every position of a five-mark verdict is Correct.
pub open spec fn all_correct(v: Seq<Mark>) -> bool {
    v.len() == 5 && forall|i: int| 0 <= i < 5 ==> v[i] == Mark::Correct
}

/// The per-position result of scoring one guess.
#[derive(Clone, Debug, PartialEq, Eq)]
pub struct Verdict {
    marks: Vec<Mark>,
}

impl View for Verdict {
    type V = Seq<Mark>;

    closed spec fn view(&self) -> Seq<Mark> {
        self.marks@
    }
}

impl Verdict {
    /// A verdict always carries exactly five marks.
    pub open spec fn wf(&self) -> bool {
        self@.len() == 5
    }

    /// Builds a verdict from five marks; `None` for any other count.
    pub fn from_marks(marks: Vec<Mark>) -> (r: Option<Verdict>)
        ensures
            match r {
                Some(v) => v.wf() && v@ == marks@,
                None => marks@.len() != 5,
            },
    {
        if marks.len() == 5 {
            Some(Verdict { marks })
        } else {
            None
        }
    }

    /// Wraps marks known to be five as a verdict.
    pub fn from_five(marks: Vec<Mark>) -> (v: Verdict)
        requires
            marks@.len() == 5,
        ensures
            v.wf(),
            v@ == marks@,
    {
        Verdict { marks }
    }

    /// The mark at one position.
    pub fn mark_at(&self, i: usize) -> (m: Mark)
        requires
            i < self@.len(),
        ensures
            m == self@[i as int],
    {
        self.marks[i]
    }

    /// A copy of the five marks.
    pub fn marks(&self) -> (r: Vec<Mark>)
        ensures
            r@ == self@,
    {
        let mut out: Vec<Mark> = Vec::new();
        let n = self.marks.len();
        let mut i: usize = 0;
        while i < n
            invariant
                n == self@.len(),
                0 <= i <= n,
                out@ == self@.subrange(0, i as int),
            decreases n - i,
        {
            out.push(self.marks[i]);
            proof {
                assert(out@ =~= self@.subrange(0, i + 1));
            }
            i += 1;
        }
        proof {
            assert(out@ =~= self@);
        }
        out
    }

    /// Whether every position is Correct.
    pub fn is_all_correct(&self) -> (r: bool)
        requires
            self.wf(),
        ensures
            r == all_correct(self@),
    {
        let mut i: usize = 0;
        while i < 5
            invariant
                self@.len() == 5,
                0 <= i <= 5,
                forall|j: int| 0 <= j < i ==> self@[j] == Mark::Correct,
            decreases 5 - i,
        {
            if !matches!(self.marks[i], Mark::Correct) {
                return false;
            }
            i += 1;
        }
        true
    }
}

/// The single-character display code of a mark: 'G', 'Y' or 'R'.
pub fn mark_code(m: Mark) -> (c: char)
    ensures
        c == (match m {
            Mark::Correct => 'G',
            Mark::Present => 'Y',
            Mark::Absent => 'R',
        }),
{
    match m {
        Mark::Correct => 'G',
        Mark::Present => 'Y',
        Mark::Absent => 'R',
    }
}

/// The prefix value is bounded by the corresponding power of three.
proof fn lemma_encode_prefix_bound(v: Seq<Mark>, n: int)
    requires
        0 <= n,
    ensures
        0 <= encode_prefix(v, n) < pow3(n as nat),
    decreases n,
{
    if n > 0 {
        lemma_encode_prefix_bound(v, n - 1);
    }
}

/// A verdict's ordinal lies in `[0, 243)`.
pub proof fn lemma_spec_encode_bounds(v: Seq<Mark>)
    ensures
        0 <= spec_encode(v) < 243,
{
    lemma_encode_prefix_bound(v, 5);
    assert(pow3(5) == 243) by {
        reveal_with_fuel(pow3, 6);
    }
}

/// An all-Correct verdict encodes to ordinal zero.
pub proof fn lemma_all_correct_ordinal(v: Seq<Mark>)
    requires
        all_correct(v),
    ensures
        spec_encode(v) == 0,
{
    lemma_prefix_all_correct(v, 5);
}

/// The prefix value of an all-Correct verdict is zero.
proof fn lemma_prefix_all_correct(v: Seq<Mark>, n: int)
    requires
        all_correct(v),
        0 <= n <= 5,
    ensures
        encode_prefix(v, n) == 0,
    decreases n,
{
    if n > 0 {
        lemma_prefix_all_correct(v, n - 1);
    }
}

/// Packs a verdict into its ordinal.
pub fn encode(v: &Verdict) -> (o: u8)
    requires
        v.wf(),
    ensures
        o == spec_encode(v@),
        o < 243,
{
    proof {
        assert(pow3(5) == 243 && pow3(4) == 81) by {
            reveal_with_fuel(pow3, 6);
        }
    }
    let mut acc: u8 = 0;
    let mut i: usize = 0;
    while i < 5
        invariant
            v@.len() == 5,
            0 <= i <= 5,
            acc == encode_prefix(v@, i as int),
            acc < pow3(i as nat),
            pow3(5) == 243 && pow3(4) == 81,
        decreases 5 - i,
    {
        proof {
            assert(pow3((i + 1) as nat) == 3 * pow3(i as nat));
            assert(pow3(i as nat) <= pow3(4)) by {
                lemma_pow3_increases(i as nat, 4);
            }
        }
        let t: u8 = match v.mark_at(i) {
            Mark::Correct => 0,
            Mark::Present => 1,
            Mark::Absent => 2,
        };
        acc = acc * 3 + t;
        i += 1;
    }
    acc
}

/// `pow3` is monotone.
proof fn lemma_pow3_increases(a: nat, b: nat)
    requires
        a <= b,
    ensures
        pow3(a) <= pow3(b),
    decreases b,
{
    if a < b {
        lemma_pow3_increases(a, (b - 1) as nat);
    }
}

/// The value of the marks from position `i` on, with their full-verdict
/// weights (position `j` weighs 3^(4-j)).
pub open spec fn suffix_val(v: Seq<Mark>, i: int) -> int
    decreases 5 - i,
{
    if i < 0 || i >= 5 {
        0
    } else {
        trit(v[i]) * pow3((4 - i) as nat) + suffix_val(v, i + 1)
    }
}

/// `suffix_val` only reads positions at or after `i`.
proof fn lemma_suffix_val_agree(v1: Seq<Mark>, v2: Seq<Mark>, i: int)
    requires
        forall|j: int| i <= j < 5 ==> v1[j] == v2[j],
    ensures
        suffix_val(v1, i) == suffix_val(v2, i),
    decreases 5 - i,
{
    if 0 <= i < 5 {
        lemma_suffix_val_agree(v1, v2, i + 1);
    }
}

/// The prefix and suffix readings agree: the whole verdict's value can be
/// split at any position.
proof fn lemma_prefix_suffix(v: Seq<Mark>, n: int)
    requires
        0 <= n <= 5,
    ensures
        encode_prefix(v, n) * pow3((5 - n) as nat) + suffix_val(v, n) == suffix_val(v, 0),
    decreases n,
{
    if n > 0 {
        lemma_prefix_suffix(v, n - 1);
        let a = encode_prefix(v, n - 1);
        let t = trit(v[n - 1]);
        let p = pow3((5 - n) as nat);
        assert(pow3((6 - n) as nat) == 3 * p);
        assert((a * 3 + t) * p == a * (3 * p) + t * p) by (nonlinear_arith);
    }
}

/// Unpacks an ordinal into the verdict it encodes.
pub fn decode(o: u8) -> (v: Verdict)
    requires
        o < 243,
    ensures
        v.wf(),
        spec_encode(v@) == o,
{
    proof {
        assert(pow3(5) == 243 && pow3(4) == 81 && pow3(3) == 27 && pow3(2) == 9 && pow3(1) == 3
            && pow3(0) == 1) by {
            reveal_with_fuel(pow3, 6);
        }
    }
    let mut marks: Vec<Mark> = Vec::new();
    marks.push(Mark::Absent);
    marks.push(Mark::Absent);
    marks.push(Mark::Absent);
    marks.push(Mark::Absent);
    marks.push(Mark::Absent);
    let mut rem: u8 = o;
    let mut i: usize = 5;
    proof {
        assert(suffix_val(marks@, 5) == 0);
        assert(rem * pow3(0) == rem) by (nonlinear_arith)
            requires
                pow3(0) == 1,
        ;
        assert(o == rem * pow3((5 - 5) as nat) + suffix_val(marks@, 5));
    }
    while i > 0
        invariant
            marks@.len() == 5,
            0 <= i <= 5,
            rem < pow3(i as nat),
            o == rem * pow3((5 - i) as nat) + suffix_val(marks@, i as int),
            pow3(5) == 243,
        decreases i,
    {
        i -= 1;
        let d: u8 = rem % 3;
        let next_rem: u8 = rem / 3;
        let m: Mark = if d == 0 {
            Mark::Correct
        } else if d == 1 {
            Mark::Present
        } else {
            Mark::Absent
        };
        let ghost before = marks@;
        marks[i] = m;
        proof {
            let j = i as int;
            assert(pow3((5 - j) as nat) == 3 * pow3((4 - j) as nat));
            lemma_suffix_val_agree(before, marks@, j + 1);
            assert(rem == next_rem * 3 + d);
            assert((next_rem * 3 + d) * pow3((4 - j) as nat) == next_rem * (3 * pow3(
                (4 - j) as nat,
            )) + d * pow3((4 - j) as nat)) by (nonlinear_arith);
            assert(next_rem < pow3(j as nat));
        }
        rem = next_rem;
    }
    let v = Verdict { marks };
    proof {
        lemma_prefix_suffix(v@, 5);
    }
    v
}

/// Law: the codec round-trips.  Two five-mark verdicts with the same
/// ordinal are equal, so decoding inverts encoding on every verdict, and
/// `encode(decode(o)) == o` holds for each of the 243 ordinals by the
/// contract of `decode`.
pub proof fn lemma_codec_round_trip(v1: Seq<Mark>, v2: Seq<Mark>)
    requires
        v1.len() == 5,
        v2.len() == 5,
        spec_encode(v1) == spec_encode(v2),
    ensures
        v1 == v2,
{
    lemma_prefix_digits(v1, v2, 5);
    assert(v1 =~= v2);
}

/// Equal prefix values force equal marks, digit by digit.
proof fn lemma_prefix_digits(v1: Seq<Mark>, v2: Seq<Mark>, n: int)
    requires
        0 <= n <= 5,
        encode_prefix(v1, n) == encode_prefix(v2, n),
    ensures
        forall|j: int| 0 <= j < n ==> v1[j] == v2[j],
    decreases n,
{
    if n > 0 {
        let a1 = encode_prefix(v1, n - 1);
        let a2 = encode_prefix(v2, n - 1);
        let t1 = trit(v1[n - 1]);
        let t2 = trit(v2[n - 1]);
        assert(a1 * 3 + t1 == a2 * 3 + t2);
        assert(0 <= t1 < 3 && 0 <= t2 < 3);
        assert(a1 == a2 && t1 == t2) by (nonlinear_arith)
            requires
                a1 * 3 + t1 == a2 * 3 + t2,
                0 <= t1 < 3,
                0 <= t2 < 3,
        ;
        assert(v1[n - 1] == v2[n - 1]);
        lemma_prefix_digits(v1, v2, n - 1);
    }
}

} // verus!
