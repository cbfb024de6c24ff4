//! The `Word` type: exactly five lower-case ASCII letters.

use vstd::prelude::*;

verus! {

/// A byte is a lower-case ASCII letter.
pub open spec fn is_letter(b: u8) -> bool {
    97 <= b <= 122
}

/// A byte is an ASCII letter of either case.
pub open spec fn is_alpha(b: u8) -> bool {
    (65 <= b <= 90) || (97 <= b <= 122)
}

/// The lower-case form of an ASCII letter.
pub open spec fn to_lower(b: u8) -> u8 {
    if 65 <= b <= 90 {
        (b + 32) as u8
    } else {
        b
    }
}

/// A well-formed word: five lower-case letters.
pub open spec fn wf_word(s: Seq<u8>) -> bool {
    s.len() == 5 && forall|i: int| 0 <= i < 5 ==> is_letter(#[trigger] s[i])
}

/// A guess or secret: exactly five letters, held lower-case.
#[derive(Clone, Debug, PartialEq, Eq)]
pub struct Word {
    letters: Vec<u8>,
}

impl View for Word {
    type V = Seq<u8>;

    closed spec fn view(&self) -> Seq<u8> {
        self.letters@
    }
}

impl Word {
    /// The word is five lower-case letters.
    pub open spec fn wf(&self) -> bool {
        wf_word(self@)
    }

    /// Builds a word from raw bytes, normalizing upper-case letters to
    /// lower case.  Returns `None` unless the input is exactly five
    /// ASCII letters.
    pub fn from_bytes(bytes: &Vec<u8>) -> (r: Option<Word>)
        ensures
            match r {
                Some(w) => {
                    &&& w.wf()
                    &&& bytes@.len() == 5
                    &&& forall|i: int| 0 <= i < 5 ==> is_alpha(#[trigger] bytes@[i])
                    &&& w@ == Seq::new(5, |i: int| to_lower(bytes@[i]))
                },
                None => !(bytes@.len() == 5 && forall|i: int|
                    0 <= i < 5 ==> is_alpha(#[trigger] bytes@[i])),
            },
    {
        if bytes.len() != 5 {
            return None;
        }
        let mut letters: Vec<u8> = Vec::new();
        let mut i: usize = 0;
        while i < 5
            invariant
                bytes@.len() == 5,
                0 <= i <= 5,
                letters@.len() == i,
                forall|j: int| 0 <= j < i ==> is_alpha(#[trigger] bytes@[j]),
                forall|j: int| 0 <= j < i ==> #[trigger] letters@[j] == to_lower(bytes@[j]),
            decreases 5 - i,
        {
            let b = bytes[i];
            if 65 <= b && b <= 90 {
                letters.push(b + 32);
            } else if 97 <= b && b <= 122 {
                letters.push(b);
            } else {
                return None;
            }
            i += 1;
        }
        let w = Word { letters };
        proof {
            assert(w@ =~= Seq::new(5, |i: int| to_lower(bytes@[i])));
        }
        Some(w)
    }

    /// The letter at a position.
    pub fn letter_at(&self, i: usize) -> (b: u8)
        requires
            i < self@.len(),
        ensures
            b == self@[i as int],
    {
        self.letters[i]
    }

    /// The number of letters (always five for a well-formed word).
    pub fn len(&self) -> (n: usize)
        ensures
            n == self@.len(),
    {
        self.letters.len()
    }

    /// An independent copy of the word.
    pub fn copy_word(&self) -> (r: Word)
        ensures
            r@ == self@,
    {
        let mut letters: Vec<u8> = Vec::new();
        let mut i: usize = 0;
        let n = self.letters.len();
        while i < n
            invariant
                n == self@.len(),
                0 <= i <= n,
                letters@ == self@.subrange(0, i as int),
            decreases n - i,
        {
            letters.push(self.letters[i]);
            proof {
                assert(letters@ =~= self@.subrange(0, i + 1));
            }
            i += 1;
        }
        proof {
            assert(letters@ =~= self@);
        }
        Word { letters }
    }

    /// Whether two words hold the same letters.
    pub fn same_word(&self, other: &Word) -> (r: bool)
        ensures
            r == (self@ == other@),
    {
        if self.letters.len() != other.letters.len() {
            proof {
                assert(self@.len() != other@.len());
            }
            return false;
        }
        let n = self.letters.len();
        let mut i: usize = 0;
        while i < n
            invariant
                n == self@.len() == other@.len(),
                0 <= i <= n,
                forall|j: int| 0 <= j < i ==> self@[j] == other@[j],
            decreases n - i,
        {
            if self.letters[i] != other.letters[i] {
                return false;
            }
            i += 1;
        }
        proof {
            assert(self@ =~= other@);
        }
        true
    }

    /// The letters of the word, for callers that render it.
    pub fn bytes(&self) -> (r: Vec<u8>)
        ensures
            r@ == self@,
    {
        self.copy_word().letters
    }
}

/// The letter sequences of a sequence of words.
pub open spec fn views_of(s: Seq<Word>) -> Seq<Seq<u8>> {
    s.map_values(|w: Word| w@)
}

/// The value of the first `n` letters as a base-26 numeral ('a' is 0),
/// position 0 most significant.
pub open spec fn lex_prefix(w: Seq<u8>, n: int) -> int
    decreases n,
{
    if n <= 0 {
        0
    } else {
        lex_prefix(w, n - 1) * 26 + (w[n - 1] - 97)
    }
}

/// A word's rank in the lexicographic order of five-letter words.
pub open spec fn lex_code(w: Seq<u8>) -> int {
    lex_prefix(w, 5)
}

/// 26 to the power `n`.
pub open spec fn pow26(n: nat) -> nat
    decreases n,
{
    if n == 0 {
        1
    } else {
        26 * pow26((n - 1) as nat)
    }
}

/// The prefix value is bounded by the corresponding power of 26.
proof fn lemma_lex_prefix_bound(w: Seq<u8>, n: int)
    requires
        0 <= n,
        forall|i: int| 0 <= i < n ==> is_letter(#[trigger] w[i]),
    ensures
        0 <= lex_prefix(w, n) < pow26(n as nat),
    decreases n,
{
    if n > 0 {
        lemma_lex_prefix_bound(w, n - 1);
    }
}

/// `pow26` is monotone.
proof fn lemma_pow26_increases(a: nat, b: nat)
    requires
        a <= b,
    ensures
        pow26(a) <= pow26(b),
    decreases b,
{
    if a < b {
        lemma_pow26_increases(a, (b - 1) as nat);
    }
}

/// Computes a word's lexicographic rank; it is below 26^5.
pub fn lex_code_exec(w: &Word) -> (r: u64)
    requires
        w.wf(),
    ensures
        r == lex_code(w@),
        r < 11881376,
{
    proof {
        assert(pow26(5) == 11881376 && pow26(4) == 456976) by {
            reveal_with_fuel(pow26, 6);
        }
    }
    let mut acc: u64 = 0;
    let mut i: usize = 0;
    while i < 5
        invariant
            w.wf(),
            0 <= i <= 5,
            acc == lex_prefix(w@, i as int),
            acc < pow26(i as nat),
            pow26(5) == 11881376 && pow26(4) == 456976,
        decreases 5 - i,
    {
        proof {
            assert(pow26((i + 1) as nat) == 26 * pow26(i as nat));
            assert(pow26(i as nat) <= pow26(4)) by {
                lemma_pow26_increases(i as nat, 4);
            }
        }
        let b = w.letter_at(i);
        acc = acc * 26 + ((b - 97) as u64);
        i += 1;
    }
    proof {
        lemma_lex_prefix_bound(w@, 5);
    }
    acc
}

/// A word's lexicographic rank lies below 26^5.
pub proof fn lemma_lex_code_bounds(w: Seq<u8>)
    requires
        wf_word(w),
    ensures
        0 <= lex_code(w) <= 11881375,
{
    lemma_lex_prefix_bound(w, 5);
    assert(pow26(5) == 11881376) by {
        reveal_with_fuel(pow26, 6);
    }
}

/// Strict lexicographic order on five-letter words: the words differ
/// first at some position where `a` holds the smaller letter.
pub open spec fn lex_less(a: Seq<u8>, b: Seq<u8>) -> bool {
    exists|i: int|
        0 <= i < 5 && a[i] < b[i] && (forall|j: int| 0 <= j < i ==> a[j] == b[j])
}

/// Prefix values agree wherever the letters agree.
proof fn lemma_lex_prefix_agree(a: Seq<u8>, b: Seq<u8>, n: int)
    requires
        forall|j: int| 0 <= j < n ==> a[j] == b[j],
    ensures
        lex_prefix(a, n) == lex_prefix(b, n),
    decreases n,
{
    if n > 0 {
        lemma_lex_prefix_agree(a, b, n - 1);
    }
}

/// The whole code splits at any position into the prefix value and the
/// value of the remaining letters.
proof fn lemma_lex_split(w: Seq<u8>, n: int)
    requires
        0 <= n <= 5,
    ensures
        lex_code(w) == lex_prefix(w, n) * pow26((5 - n) as nat) + lex_tail(w, n),
    decreases 5 - n,
{
    if n < 5 {
        lemma_lex_split(w, n + 1);
        let a = lex_prefix(w, n);
        let t = w[n] - 97;
        let p = pow26((4 - n) as nat);
        assert(pow26((5 - n) as nat) == 26 * p);
        assert((a * 26 + t) * p == a * (26 * p) + t * p) by (nonlinear_arith);
    } else {
        assert(pow26(0) == 1);
        assert(lex_prefix(w, 5) * pow26(0) == lex_prefix(w, 5)) by (nonlinear_arith)
            requires
                pow26(0) == 1,
        ;
    }
}

/// The value of the letters from position `i` on, with their
/// whole-word weights.
pub open spec fn lex_tail(w: Seq<u8>, i: int) -> int
    decreases 5 - i,
{
    if i < 0 || i >= 5 {
        0
    } else {
        (w[i] - 97) * pow26((4 - i) as nat) + lex_tail(w, i + 1)
    }
}

/// Tail values are bounded by the corresponding power of 26.
proof fn lemma_lex_tail_bound(w: Seq<u8>, i: int)
    requires
        0 <= i <= 5,
        forall|j: int| 0 <= j < 5 ==> is_letter(#[trigger] w[j]),
    ensures
        0 <= lex_tail(w, i) < pow26((5 - i) as nat),
    decreases 5 - i,
{
    if i < 5 {
        lemma_lex_tail_bound(w, i + 1);
        let t = w[i] - 97;
        let p = pow26((4 - i) as nat);
        assert(pow26((5 - i) as nat) == 26 * p);
        assert(0 <= t * p <= 25 * p) by (nonlinear_arith)
            requires
                0 <= t <= 25,
                p >= 0,
        ;
    }
}

/// A difference at position `i` after an agreeing prefix decides the
/// order of the codes.
proof fn lemma_lex_first_diff(a: Seq<u8>, b: Seq<u8>, i: int)
    requires
        wf_word(a),
        wf_word(b),
        0 <= i < 5,
        a[i] < b[i],
        forall|j: int| 0 <= j < i ==> a[j] == b[j],
    ensures
        lex_code(a) < lex_code(b),
{
    lemma_lex_split(a, i);
    lemma_lex_split(b, i);
    lemma_lex_prefix_agree(a, b, i);
    lemma_lex_tail_bound(a, i + 1);
    lemma_lex_tail_bound(b, i + 1);
    let p = pow26((4 - i) as nat);
    assert(pow26((5 - i) as nat) == 26 * p);
    let ta = a[i] - 97;
    let tb = b[i] - 97;
    assert(lex_tail(a, i) == ta * p + lex_tail(a, i + 1));
    assert(lex_tail(b, i) == tb * p + lex_tail(b, i + 1));
    assert(ta * p + p <= tb * p) by (nonlinear_arith)
        requires
            ta < tb,
            p >= 0,
    ;
}

/// Law: the lexicographic rank orders words exactly as the dictionary
/// does — a smaller code means the word comes first lexicographically,
/// and equal codes mean equal words.
pub proof fn lemma_lex_code_orders(a: Seq<u8>, b: Seq<u8>)
    requires
        wf_word(a),
        wf_word(b),
    ensures
        lex_code(a) < lex_code(b) <==> lex_less(a, b),
        lex_code(a) == lex_code(b) <==> a == b,
{
    if lex_less(a, b) {
        let i = choose|i: int|
            0 <= i < 5 && a[i] < b[i] && (forall|j: int| 0 <= j < i ==> a[j] == b[j]);
        lemma_lex_first_diff(a, b, i);
    }
    if lex_less(b, a) {
        let i = choose|i: int|
            0 <= i < 5 && b[i] < a[i] && (forall|j: int| 0 <= j < i ==> b[j] == a[j]);
        lemma_lex_first_diff(b, a, i);
    }
    if !lex_less(a, b) && !lex_less(b, a) {
        assert forall|i: int| 0 <= i < 5 implies a[i] == b[i] by {
            lemma_lex_agree_up_to(a, b, i);
        }
        assert(a =~= b);
        lemma_lex_prefix_agree(a, b, 5);
    }
}

/// When neither word precedes the other, the letters agree position by
/// position.
proof fn lemma_lex_agree_up_to(a: Seq<u8>, b: Seq<u8>, i: int)
    requires
        wf_word(a),
        wf_word(b),
        0 <= i < 5,
        !lex_less(a, b),
        !lex_less(b, a),
    ensures
        a[i] == b[i],
    decreases i,
{
    assert forall|j: int| 0 <= j < i implies a[j] == b[j] by {
        lemma_lex_agree_up_to(a, b, j);
    }
    if a[i] < b[i] {
        assert(lex_less(a, b));
    }
    if b[i] < a[i] {
        assert(lex_less(b, a));
    }
}

/// Whether a word with these letters occurs in a list.
pub open spec fn word_in(list: Seq<Word>, w: Seq<u8>) -> bool {
    exists|j: int| 0 <= j < list.len() && #[trigger] list[j]@ == w
}

/// Every word of the list is well-formed.
pub open spec fn wf_list(list: Seq<Word>) -> bool {
    forall|j: int| 0 <= j < list.len() ==> (#[trigger] list[j]).wf()
}

/// Whether `w` occurs in `list`.
pub fn word_in_list(w: &Word, list: &Vec<Word>) -> (r: bool)
    ensures
        r == word_in(list@, w@),
{
    let n = list.len();
    let mut i: usize = 0;
    while i < n
        invariant
            n == list@.len(),
            0 <= i <= n,
            forall|j: int| 0 <= j < i ==> #[trigger] list@[j]@ != w@,
        decreases n - i,
    {
        if list[i].same_word(w) {
            return true;
        }
        i += 1;
    }
    false
}

} // verus!
