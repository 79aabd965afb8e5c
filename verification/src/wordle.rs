//! Core solver types: words, per-letter colours, feedback patterns, and the
//! session state machine that narrows the candidate answers round by round.

use vstd::prelude::*;
use vstd::arithmetic::div_mod::lemma_breakdown;
use vstd::arithmetic::div_mod::lemma_div_denominator;
use vstd::arithmetic::div_mod::lemma_small_mod;
use vstd::arithmetic::mul::lemma_mul_inequality;
use vstd::arithmetic::mul::lemma_mul_is_distributive_add_other_way;
use vstd::arithmetic::mul::lemma_mul_nonnegative;
use vstd::arithmetic::mul::lemma_mul_is_commutative;
use crate::feedback::pow3;
use crate::feedback::pattern_code;
use crate::builder::contains_word;
use crate::builder::chosen_targets;
use crate::feedback::lemma_pow3_values;
use crate::feedback::lemma_pow3_positive;
use crate::candidates::matrix_code;
use crate::candidates::filter_code;
use crate::candidates::count_code;
use crate::candidates::hist_sum;
use crate::candidates::score_sum;
use crate::candidates::lemma_filter_code_len;
use crate::candidates::lemma_filter_code_membership;
use crate::candidates::lemma_filter_code_sorted;
use crate::candidates::lemma_filter_code_bounded;
use crate::candidates::lemma_filter_code_shrinks;
use crate::candidates::lemma_hist_sum_total;
use crate::candidates::lemma_score_sum_bounds;
use crate::candidates::true_positions;
use crate::candidates::lemma_true_positions_props;
use crate::entropy::log2_fixed;
use crate::entropy::log2_fixed_spec;
use crate::entropy::lemma_log2_fixed_bounds;
use rayon::iter::IntoParallelIterator;
use rayon::iter::ParallelIterator;

verus! {

/// A five-letter word, identified elsewhere by its index in the vocabulary.
#[derive(Clone, Copy, Debug)]
pub struct Word {
    letters: [u8; 5],
}

impl View for Word {
    type V = Seq<u8>;

    closed spec fn view(&self) -> Seq<u8> {
        self.letters@
    }
}

impl Word {
    /// Wraps five letter bytes as a word.
    pub fn from_bytes(letters: [u8; 5]) -> (w: Word)
        ensures
            w@ == letters@,
    {
        Word { letters }
    }

    /// The letter bytes of the word.
    pub fn letters(&self) -> (r: [u8; 5])
        ensures
            r@ == self@,
    {
        self.letters
    }

    /// Whether two words spell the same letters.
    pub fn same(&self, other: &Word) -> (r: bool)
        ensures
            r == (self@ == other@),
    {
        let r = self.letters[0] == other.letters[0] && self.letters[1] == other.letters[1]
            && self.letters[2] == other.letters[2] && self.letters[3] == other.letters[3]
            && self.letters[4] == other.letters[4];
        proof {
            if r {
                assert(self.letters@ =~= other.letters@);
            }
        }
        r
    }
}

/// The colour of one guess letter in the observed feedback.
#[derive(Clone, Copy, Debug, PartialEq, Eq, Structural)]
pub enum Colour {
    Green,
    Yellow,
    Black,
}

/// The base-3 digit a colour stands for: absent 0, present elsewhere 1,
/// correct position 2.
pub open spec fn colour_digit(c: Colour) -> int {
    match c {
        Colour::Black => 0,
        Colour::Yellow => 1,
        Colour::Green => 2,
    }
}

/// The feedback digits of `cols` at positions `i..5`, each weighted by its
/// base-3 place value.
pub open spec fn id_from(cols: Seq<Colour>, i: int) -> int
    decreases 5 - i,
{
    if i < 0 || i >= 5 {
        0
    } else {
        colour_digit(cols[i]) * pow3(i as nat) + id_from(cols, i + 1)
    }
}

/// The feedback code that a sequence of five colours encodes.
pub open spec fn pattern_id(cols: Seq<Colour>) -> int {
    id_from(cols, 0)
}

pub proof fn lemma_id_from_bounds(cols: Seq<Colour>, i: int)
    requires
        0 <= i <= 5,
    ensures
        0 <= id_from(cols, i) <= pow3(5) - pow3(i as nat),
    decreases 5 - i,
{
    if i < 5 {
        assert(pow3((i + 1) as nat) == 3 * pow3(i as nat));
        lemma_id_from_bounds(cols, i + 1);
        assert(colour_digit(cols[i]) * pow3(i as nat) <= 2 * pow3(i as nat)) by {
            assert(colour_digit(cols[i]) <= 2);
            assert(pow3(i as nat) > 0) by {
                lemma_pow3_positive(i as nat);
            }
        }
    }
}

/// Re-encoding the five base-3 digits of a code yields the code itself: the
/// digit decomposition is the inverse of the positional encoding.
pub proof fn lemma_digits_encode_back(cols: Seq<Colour>, code: int, i: int)
    requires
        0 <= code < 243,
        0 <= i <= 5,
        forall|k: int| 0 <= k < 5 ==> colour_digit(cols[k]) == (code / pow3(k as nat) as int) % 3,
    ensures
        id_from(cols, i) == code - code % (pow3(i as nat) as int),
    decreases 5 - i,
{
    lemma_pow3_values();
    if i >= 5 {
        lemma_small_mod(code as nat, 243);
    } else {
        lemma_digits_encode_back(cols, code, i + 1);
        let p = pow3(i as nat) as int;
        lemma_breakdown(code, p, 3);
        assert(p * 3 == pow3((i + 1) as nat)) by {
            assert(pow3((i + 1) as nat) == 3 * pow3(i as nat));
        }
        assert(code % (p * 3) == p * ((code / p) % 3) + code % p);
        assert(colour_digit(cols[i]) == (code / p) % 3);
        assert(colour_digit(cols[i]) * p == code % (pow3((i + 1) as nat) as int) - code % (pow3(
            i as nat,
        ) as int));
    }
}

/// Decoding a feedback code into five base-3 digits and re-encoding those
/// digits returns the original code.
pub proof fn lemma_code_round_trip(cols: Seq<Colour>, code: int)
    requires
        0 <= code < 243,
        forall|k: int| 0 <= k < 5 ==> colour_digit(cols[k]) == (code / pow3(k as nat) as int) % 3,
    ensures
        pattern_id(cols) == code,
{
    lemma_digits_encode_back(cols, code, 0);
    lemma_pow3_values();
    assert(code % 1 == 0);
}

/// The caller supplied a feedback code outside [0, 242] or an incomplete
/// per-letter colour sequence; the solver state is left untouched.
#[derive(Clone, Copy, Debug, PartialEq, Eq, Structural)]
pub struct InvalidFeedbackError;

/// The persisted artifact is shorter than its header declares or its header
/// dimensions are inconsistent with its length; no session can start from it.
#[derive(Clone, Copy, Debug, PartialEq, Eq, Structural)]
pub struct CorruptMatrixError;

/// One full round of observed feedback: a colour for each letter position.
#[derive(Clone, Copy, Debug)]
pub struct Pattern {
    colours: [Colour; 5],
}

impl View for Pattern {
    type V = Seq<Colour>;

    closed spec fn view(&self) -> Seq<Colour> {
        self.colours@
    }
}

impl Pattern {
    /// Wraps five colours as a feedback pattern.
    pub fn new(colours: [Colour; 5]) -> (p: Pattern)
        ensures
            p@ == colours@,
    {
        Pattern { colours }
    }

    /// The feedback code this pattern encodes, a base-3 number with one digit
    /// per letter position.
    pub fn get_id(&self) -> (code: u8)
        ensures
            code == pattern_id(self@),
            code <= 242,
    {
        proof {
            lemma_pow3_values();
            lemma_id_from_bounds(self@, 0);
        }
        let mut value: u8 = 0;
        let mut multiplier: u8 = 1;
        for i in 0..5usize
            invariant
                multiplier == pow3(i as nat),
                value < pow3(i as nat),
                value + id_from(self@, i as int) == pattern_id(self@),
                pattern_id(self@) <= 242,
        {
            proof {
                lemma_pow3_values();
                lemma_id_from_bounds(self@, i as int);
                lemma_id_from_bounds(self@, i as int + 1);
            }
            assert(id_from(self@, i as int) == colour_digit(self@[i as int]) * pow3(i as nat)
                + id_from(self@, i as int + 1));
            value = value + match self.colours[i] {
                Colour::Black => 0,
                Colour::Yellow => multiplier,
                Colour::Green => multiplier * 2,
            };
            multiplier = multiplier * 3;
        }
        assert(id_from(self@, 5) == 0);
        value
    }

    /// Decodes a feedback code into its five base-3 digits, one colour per
    /// letter position; codes outside [0, 242] are rejected.
    pub fn from_code(code: u8) -> (r: Result<Pattern, InvalidFeedbackError>)
        ensures
            code <= 242 ==> (r matches Ok(p) && pattern_id(p@) == code && forall|k: int|
                0 <= k < 5 ==> colour_digit(p@[k]) == (code as int / pow3(k as nat) as int) % 3),
            code > 242 ==> (r matches Err(_)),
    {
        if code > 242 {
            return Err(InvalidFeedbackError);
        }
        proof {
            lemma_pow3_values();
        }
        let d0 = digit_colour(code % 3);
        let r0 = code / 3;
        let d1 = digit_colour(r0 % 3);
        let r1 = r0 / 3;
        let d2 = digit_colour(r1 % 3);
        let r2 = r1 / 3;
        let d3 = digit_colour(r2 % 3);
        let r3 = r2 / 3;
        let d4 = digit_colour(r3 % 3);
        let p = Pattern { colours: [d0, d1, d2, d3, d4] };
        proof {
            lemma_div_denominator(code as int, 3, 3);
            lemma_div_denominator(code as int, 9, 3);
            lemma_div_denominator(code as int, 27, 3);
            assert(r0 == code as int / pow3(1) as int);
            assert(r1 == code as int / pow3(2) as int);
            assert(r2 == code as int / pow3(3) as int);
            assert(r3 == code as int / pow3(4) as int);
            assert(p@[0] == d0 && p@[1] == d1 && p@[2] == d2 && p@[3] == d3 && p@[4] == d4);
            assert forall|k: int| 0 <= k < 5 implies colour_digit(p@[k]) == (code as int
                / pow3(k as nat) as int) % 3 by {
                if k == 0 {
                    assert(code as int / pow3(0) as int == code as int);
                } else if k == 1 {
                    assert(colour_digit(d1) == r0 % 3);
                } else if k == 2 {
                    assert(colour_digit(d2) == r1 % 3);
                } else if k == 3 {
                    assert(colour_digit(d3) == r2 % 3);
                } else {
                    assert(colour_digit(d4) == r3 % 3);
                }
            }
            lemma_code_round_trip(p@, code as int);
        }
        Ok(p)
    }
}

/// Maps a base-3 digit to its colour.
fn digit_colour(d: u8) -> (c: Colour)
    requires
        d < 3,
    ensures
        colour_digit(c) == d,
{
    if d == 0 {
        Colour::Black
    } else if d == 1 {
        Colour::Yellow
    } else {
        Colour::Green
    }
}

/// What a feedback round resolved to: the next guess to probe, the identified
/// answer, or the fact that no candidate is consistent with the feedback.
#[derive(Clone, Copy, Debug)]
pub enum SolverStatus {
    Continue(Word),
    Solved(Word),
    Unsolvable,
}

/// The session state: still taking feedback rounds, or terminal.
#[derive(Clone, Copy, Debug)]
enum Phase {
    Running,
    Solved,
    Unsolvable,
}

/// One solving session: the vocabulary, the feedback matrix, the shrinking
/// candidate set, and the currently selected guess.
pub struct Wordle {
    words: Vec<Word>,
    mask: Vec<bool>,
    targets: Vec<u16>,
    target_words: Vec<u16>,
    patterns: Vec<u8>,
    guess: u16,
    phase: Phase,
}

impl Wordle {
    /// The vocabulary, in the index order every other component uses.
    pub closed spec fn words_view(self) -> Seq<Word> {
        self.words@
    }

    /// Which vocabulary words are still possible hidden answers.
    pub closed spec fn mask_view(self) -> Seq<bool> {
        self.mask@
    }

    /// The target columns still consistent with all observed feedback.
    pub closed spec fn targets_view(self) -> Seq<u16> {
        self.targets@
    }

    /// The vocabulary index of each target column.
    pub closed spec fn target_word_view(self) -> Seq<u16> {
        self.target_words@
    }

    /// The row-major feedback matrix bytes, one code per (guess, target).
    pub closed spec fn matrix_view(self) -> Seq<u8> {
        self.patterns@
    }

    /// The currently selected guess index.
    pub closed spec fn guess_view(self) -> u16 {
        self.guess
    }

    pub closed spec fn is_running(self) -> bool {
        self.phase is Running
    }

    pub closed spec fn is_solved(self) -> bool {
        self.phase is Solved
    }

    pub closed spec fn is_unsolvable(self) -> bool {
        self.phase is Unsolvable
    }

    pub open spec fn word_count(self) -> int {
        self.words_view().len() as int
    }

    pub open spec fn target_total(self) -> int {
        self.target_word_view().len() as int
    }

    pub open spec fn candidate_count(self) -> int {
        self.targets_view().len() as int
    }

    /// Internal consistency of a session: dimensions agree, every index is in
    /// range, candidate columns stay strictly increasing, the mask is true
    /// exactly for the words of the remaining candidates, every matrix byte
    /// is a feedback code, and a terminal phase matches the candidate count.
    pub closed spec fn wf(self) -> bool {
        let w = self.words@.len() as int;
        let t = self.target_words@.len() as int;
        &&& 1 <= w <= 0xFFFF
        &&& t <= 0xFFFF
        &&& self.mask@.len() == w
        &&& self.patterns@.len() == w * t
        &&& (self.guess as int) < w
        &&& self.targets@.len() <= t
        &&& forall|j: int| 0 <= j < t ==> (self.target_words@[j] as int) < w
        &&& forall|i: int, j: int| 0 <= i < j < t ==> self.target_words@[i] < self.target_words@[j]
        &&& forall|k: int| 0 <= k < self.targets@.len() ==> (self.targets@[k] as int) < t
        &&& forall|i: int, j: int|
            0 <= i < j < self.targets@.len() ==> self.targets@[i] < self.targets@[j]
        &&& forall|x: int|
            0 <= x < w ==> (self.mask@[x] <==> exists|k: int|
                0 <= k < self.targets@.len() && (self.target_words@[#[trigger] self.targets@[k] as int]
                    as int) == x)
        &&& forall|p: int| 0 <= p < self.patterns@.len() ==> (#[trigger] self.patterns@[p] as int) <= 242
        &&& (self.phase is Solved ==> self.targets@.len() == 1)
        &&& (self.phase is Unsolvable ==> self.targets@.len() == 0)
    }

    /// The adjusted information score of guess `g` over the current candidate
    /// set, at fixed-point scale 65536 and multiplied through by the
    /// candidate count: a bonus of one scale unit when the guess itself is
    /// still a possible answer, plus the entropy of its feedback histogram.
    pub closed spec fn spec_score(self, g: int) -> int {
        let n = self.targets@.len() as int;
        let bonus: int = if self.mask@[g] {
            65536int
        } else {
            0int
        };
        bonus + n * log2_fixed_spec(n) - score_sum(
            self.targets@,
            self.patterns@,
            self.words@.len() as int,
            g,
            243,
        )
    }

    /// `g` maximizes the score over all guesses, and is the first index to
    /// reach that maximum: the stable argmax the selection contract promises.
    pub open spec fn is_best_guess(self, g: int) -> bool {
        &&& 0 <= g < self.word_count()
        &&& forall|h: int| 0 <= h < self.word_count() ==> self.spec_score(h) <= self.spec_score(g)
        &&& forall|h: int| 0 <= h < g ==> self.spec_score(h) < self.spec_score(g)
    }

    /// The matrix byte of a guess against a target column is a feedback code
    /// and its index is in range.
    proof fn lemma_code_in_range(self, g: int, t: int)
        requires
            self.wf(),
            0 <= g < self.words@.len(),
            0 <= t < self.target_words@.len(),
        ensures
            0 <= g + t * self.words@.len() < self.patterns@.len(),
            (matrix_code(self.patterns@, self.words@.len() as int, g, t) as int) <= 242,
    {
        let w = self.words@.len() as int;
        let tt = self.target_words@.len() as int;
        lemma_mul_inequality(t, tt - 1, w);
        lemma_mul_is_distributive_add_other_way(w, tt - 1, 1);
        lemma_mul_nonnegative(t, w);
        lemma_mul_is_commutative(w, tt);
        assert(0 <= g + t * w < self.patterns@.len());
    }

    /// Looks up the feedback code the matrix stores for a guess against a
    /// target column.
    fn get_pattern(&self, guess: u16, target: u16) -> (code: u8)
        requires
            self.patterns@.len() == self.words@.len() * self.target_words@.len(),
            (guess as int) < self.words@.len(),
            (target as int) < self.target_words@.len(),
        ensures
            code == matrix_code(
                self.patterns@,
                self.words@.len() as int,
                guess as int,
                target as int,
            ),
    {
        let w = self.words.len();
        let pl = self.patterns.len();
        proof {
            let t = self.target_words@.len() as int;
            lemma_mul_inequality(target as int, t - 1, w as int);
            lemma_mul_is_distributive_add_other_way(w as int, t - 1, 1);
            lemma_mul_nonnegative(target as int, w as int);
            lemma_mul_is_commutative(w as int, t);
            assert((target as int) * (w as int) + (guess as int) < pl);
        }
        let idx: usize = guess as usize + target as usize * w;
        self.patterns[idx]
    }

    /// Builds the 243-bucket feedback histogram of guess `g` over the current
    /// candidate set.  Every candidate lands in exactly one bucket, so the
    /// buckets add up to the candidate count.
    pub fn code_histogram(&self, g: u16) -> (h: Vec<u32>)
        requires
            self.wf(),
            (g as int) < self.word_count(),
        ensures
            h@.len() == 243,
            forall|c: int|
                0 <= c < 243 ==> (#[trigger] h@[c] as int) == count_code(
                    self.targets_view(),
                    self.matrix_view(),
                    self.word_count(),
                    g as int,
                    c as u8,
                ),
            forall|c: int| 0 <= c < 243 ==> (#[trigger] h@[c] as int) <= self.candidate_count(),
            hist_sum(self.targets_view(), self.matrix_view(), self.word_count(), g as int, 243)
                == self.candidate_count(),
    {
        let ghost m = self.patterns@;
        let ghost w = self.words@.len() as int;
        let mut h: Vec<u32> = Vec::new();
        let mut i: usize = 0;
        while i < 243
            invariant
                i <= 243,
                h@.len() == i,
                forall|c: int| 0 <= c < i ==> (#[trigger] h@[c] as int) == 0,
            decreases 243 - i,
        {
            h.push(0);
            i = i + 1;
        }
        proof {
            assert forall|c: int| 0 <= c < 243 implies (#[trigger] h@[c] as int) == count_code(
                self.targets@.take(0),
                m,
                w,
                g as int,
                c as u8,
            ) by {
                assert(self.targets@.take(0).len() == 0);
            }
        }
        let mut k: usize = 0;
        while k < self.targets.len()
            invariant
                self.wf(),
                (g as int) < self.words@.len(),
                m == self.patterns@,
                w == self.words@.len() as int,
                k <= self.targets@.len(),
                h@.len() == 243,
                forall|c: int|
                    0 <= c < 243 ==> (#[trigger] h@[c] as int) == count_code(
                        self.targets@.take(k as int),
                        m,
                        w,
                        g as int,
                        c as u8,
                    ),
                forall|c: int| 0 <= c < 243 ==> (#[trigger] h@[c] as int) <= k,
            decreases self.targets@.len() - k,
        {
            let t = self.targets[k];
            let code = self.get_pattern(g, t);
            proof {
                self.lemma_code_in_range(g as int, t as int);
            }
            let cur = h[code as usize];
            h.set(code as usize, cur + 1);
            proof {
                let pre = self.targets@.take(k as int);
                let post = self.targets@.take(k as int + 1);
                assert(post.drop_last() =~= pre);
                assert(post.last() == t);
                assert forall|c: int| 0 <= c < 243 implies (#[trigger] h@[c] as int) == count_code(
                    post,
                    m,
                    w,
                    g as int,
                    c as u8,
                ) by {
                    lemma_filter_code_len(pre, m, w, g as int, c as u8);
                    assert(count_code(post, m, w, g as int, c as u8) == count_code(
                        pre,
                        m,
                        w,
                        g as int,
                        c as u8,
                    ) + (if matrix_code(m, w, g as int, t as int) == c as u8 {
                        1int
                    } else {
                        0int
                    }));
                }
            }
            k = k + 1;
        }
        proof {
            assert(self.targets@.take(self.targets@.len() as int) =~= self.targets@);
            assert forall|i2: int| 0 <= i2 < self.targets@.len() implies (matrix_code(
                m,
                w,
                g as int,
                #[trigger] self.targets@[i2] as int,
            ) as int) < 243 by {
                let t2 = self.targets@[i2] as int;
                let t = self.target_words@.len() as int;
                lemma_mul_inequality(t2, t - 1, w);
                lemma_mul_is_distributive_add_other_way(w, t - 1, 1);
                lemma_mul_nonnegative(t2, w);
                lemma_mul_is_commutative(w, t);
                assert(0 <= g as int + t2 * w < m.len());
                assert((m[g as int + t2 * w] as int) <= 242);
            }
            lemma_hist_sum_total(self.targets@, m, w, g as int);
        }
        h
    }

    /// Computes the fixed-point information score of guess `g` over the
    /// current candidate set: histogram, entropy term, and the
    /// possible-answer bonus.
    pub fn score_of_guess(&self, g: u16) -> (s: i64)
        requires
            self.wf(),
            (g as int) < self.word_count(),
        ensures
            s == self.spec_score(g as int),
    {
        let ghost m = self.patterns@;
        let ghost w = self.words@.len() as int;
        let h = self.code_histogram(g);
        let n: u32 = self.targets.len() as u32;
        let ln = log2_fixed(n);
        proof {
            lemma_log2_fixed_bounds(n as int);
            assert((n as int) * (ln as int) <= 68719476736) by (nonlinear_arith)
                requires
                    0 <= n as int <= 65536,
                    0 <= ln as int <= 1048576,
            ;
        }
        let mut acc: i64 = (n as i64) * (ln as i64);
        let ghost base = (n as int) * (ln as int);
        let mut c: usize = 0;
        while c < 243
            invariant
                self.wf(),
                (g as int) < self.words@.len(),
                m == self.patterns@,
                w == self.words@.len() as int,
                h@.len() == 243,
                n == self.targets@.len(),
                ln == log2_fixed_spec(n as int),
                forall|c2: int|
                    0 <= c2 < 243 ==> (#[trigger] h@[c2] as int) == count_code(
                        self.targets@,
                        m,
                        w,
                        g as int,
                        c2 as u8,
                    ),
                forall|c2: int| 0 <= c2 < 243 ==> (#[trigger] h@[c2] as int) <= n,
                c <= 243,
                0 <= base <= 68719476736,
                acc == base - score_sum(self.targets@, m, w, g as int, c as int),
            decreases 243 - c,
        {
            proof {
                lemma_score_sum_bounds(self.targets@, m, w, g as int, c as int);
                lemma_score_sum_bounds(self.targets@, m, w, g as int, c as int + 1);
            }
            let cnt = h[c];
            if cnt > 0 {
                let lc = log2_fixed(cnt);
                proof {
                    lemma_log2_fixed_bounds(cnt as int);
                    assert((cnt as int) * (lc as int) <= 68719476736) by (nonlinear_arith)
                        requires
                            0 <= cnt as int <= 65536,
                            0 <= lc as int <= 1048576,
                    ;
                }
                acc = acc - (cnt as i64) * (lc as i64);
            } else {
                proof {
                    assert(count_code(self.targets@, m, w, g as int, c as u8) * log2_fixed_spec(
                        count_code(self.targets@, m, w, g as int, c as u8),
                    ) == 0);
                }
            }
            c = c + 1;
        }
        proof {
            lemma_score_sum_bounds(self.targets@, m, w, g as int, 243);
        }
        if self.mask[g as usize] {
            acc + 65536
        } else {
            acc
        }
    }
}

/// Relies on rayon: a parallel iterator over the range of guess indices,
/// where `map` applies the verified scoring function to each index and
/// `collect` on an indexed parallel iterator produces the results in index
/// order.
#[verifier::external_body]
fn parallel_scores(solver: &Wordle) -> (scores: Vec<i64>)
    requires
        solver.wf(),
    ensures
        scores@.len() == solver.words_view().len(),
        forall|g: int| 0 <= g < scores@.len() ==> scores@[g] == solver.spec_score(g),
{
    (0..solver.words.len() as u16).into_par_iter().map(|g| solver.score_of_guess(g)).collect()
}

/// The word count a well-formed artifact header declares.
pub open spec fn header_words(d: Seq<u8>) -> int {
    (d[0] as int) * 256 + (d[1] as int)
}

/// The target count a well-formed artifact header declares.
pub open spec fn header_targets(d: Seq<u8>) -> int {
    (d[2] as int) * 256 + (d[3] as int)
}

/// The target-eligibility mask an artifact stores, one byte per word,
/// nonzero meaning eligible.
pub open spec fn artifact_mask(d: Seq<u8>) -> Seq<bool> {
    Seq::new(header_words(d) as nat, |i: int| d[4 + 5 * header_words(d) + i] != 0)
}

/// A persisted artifact a session can start from: a full header, at least
/// one word, a length that matches the declared dimensions, a mask whose
/// true count matches the declared target count, and matrix bytes that are
/// all feedback codes.
pub open spec fn artifact_ok(d: Seq<u8>) -> bool {
    &&& d.len() >= 4
    &&& 1 <= header_words(d)
    &&& d.len() == 4 + 6 * header_words(d) + header_words(d) * header_targets(d)
    &&& true_positions(artifact_mask(d)).len() == header_targets(d)
    &&& forall|p: int| 4 + 6 * header_words(d) <= p < d.len() ==> (#[trigger] d[p] as int) <= 242
}

/// The word of the sole remaining candidate of a solved session.
pub open spec fn solved_word(s: Wordle) -> Word {
    s.words_view()[s.target_word_view()[s.targets_view()[0] as int] as int]
}

/// `post` is `pre` after one narrowing round with feedback `code`: the
/// candidate set keeps exactly the columns whose matrix entry for the
/// selected guess equals the code, and everything else is unchanged.
pub open spec fn narrowed(pre: Wordle, post: Wordle, code: u8) -> bool {
    &&& post.targets_view() == filter_code(
        pre.targets_view(),
        pre.matrix_view(),
        pre.word_count(),
        pre.guess_view() as int,
        code,
    )
    &&& post.words_view() == pre.words_view()
    &&& post.matrix_view() == pre.matrix_view()
    &&& post.target_word_view() == pre.target_word_view()
}

impl Wordle {
    /// Well-formedness reads only the collections, the guess bound and the
    /// phase consistency, so it carries over to a session with equal fields.
    proof fn lemma_wf_transfer(a: Wordle, b: Wordle)
        requires
            a.wf(),
            b.words@ == a.words@,
            b.mask@ == a.mask@,
            b.targets@ == a.targets@,
            b.target_words@ == a.target_words@,
            b.patterns@ == a.patterns@,
            (b.guess as int) < b.words@.len(),
            b.phase is Solved ==> b.targets@.len() == 1,
            b.phase is Unsolvable ==> b.targets@.len() == 0,
        ensures
            b.wf(),
    {
        assert forall|x: int| 0 <= x < b.mask@.len() implies (b.mask@[x] <==> exists|k: int|
            0 <= k < b.targets@.len() && (b.target_words@[#[trigger] b.targets@[k] as int] as int)
                == x) by {
            if b.mask@[x] {
                let k = choose|k: int|
                    0 <= k < a.targets@.len() && (a.target_words@[
                        #[trigger] a.targets@[k] as int
                    ] as int) == x;
                assert((b.target_words@[b.targets@[k] as int] as int) == x);
            } else {
                if exists|k: int|
                    0 <= k < b.targets@.len() && (b.target_words@[
                        #[trigger] b.targets@[k] as int
                    ] as int) == x {
                    let k = choose|k: int|
                        0 <= k < b.targets@.len() && (b.target_words@[
                            #[trigger] b.targets@[k] as int
                        ] as int) == x;
                    assert((a.target_words@[a.targets@[k] as int] as int) == x);
                }
            }
        }
    }

    /// Recomputes the selected guess: all guesses are scored in parallel over
    /// the immutable matrix and candidate set, and the first index attaining
    /// the maximal score wins.
    fn set_guess(&mut self)
        requires
            old(self).wf(),
        ensures
            final(self).wf(),
            final(self).words@ == old(self).words@,
            final(self).mask@ == old(self).mask@,
            final(self).targets@ == old(self).targets@,
            final(self).target_words@ == old(self).target_words@,
            final(self).patterns@ == old(self).patterns@,
            final(self).phase == old(self).phase,
            final(self).is_best_guess(final(self).guess as int),
    {
        let scores = parallel_scores(self);
        let mut best: usize = 0;
        let mut g: usize = 1;
        while g < scores.len()
            invariant
                self.wf(),
                scores@.len() == self.words@.len(),
                forall|h: int| 0 <= h < scores@.len() ==> scores@[h] == self.spec_score(h),
                1 <= g <= scores@.len(),
                best < g,
                forall|h: int| 0 <= h < g ==> scores@[h] <= scores@[best as int],
                forall|h: int| 0 <= h < best ==> scores@[h] < scores@[best as int],
            decreases scores@.len() - g,
        {
            if scores[g] > scores[best] {
                best = g;
            }
            g = g + 1;
        }
        let ghost before = *self;
        self.guess = best as u16;
        proof {
            assert forall|h: int| 0 <= h < self.words@.len() implies #[trigger] self.spec_score(h)
                == before.spec_score(h) by {
                assert(self.targets@ == before.targets@);
                assert(self.mask@ == before.mask@);
                assert(self.patterns@ == before.patterns@);
                assert(self.words@ == before.words@);
            }
            Self::lemma_wf_transfer(before, *self);
        }
    }

    /// Starts a solving session from the bytes of a persisted artifact:
    /// validates the header and dimensions, reconstructs the vocabulary, the
    /// target mask, the target columns and the feedback matrix, and selects
    /// the opening guess.  Every candidate answer is still possible at this
    /// point, and the session awaits its first feedback round.
    pub fn new(data: &Vec<u8>) -> (r: Result<Wordle, CorruptMatrixError>)
        ensures
            (r matches Ok(_)) <==> artifact_ok(data@),
            r matches Ok(s) ==> {
                &&& s.wf()
                &&& s.is_running()
                &&& s.word_count() == header_words(data@)
                &&& s.target_total() == header_targets(data@)
                &&& forall|i: int, p: int|
                    0 <= i < s.word_count() && 0 <= p < 5 ==> s.words_view()[i]@[p] == data@[4 + 5
                        * i + p]
                &&& s.mask_view() == artifact_mask(data@)
                &&& s.matrix_view() == data@.subrange(
                    4 + 6 * header_words(data@),
                    data@.len() as int,
                )
                &&& s.target_word_view() == true_positions(artifact_mask(data@))
                &&& s.candidate_count() == s.target_total()
                &&& forall|k: int|
                    0 <= k < s.candidate_count() ==> (#[trigger] s.targets_view()[k] as int) == k
                &&& s.is_best_guess(s.guess_view() as int)
            },
    {
        let dl = data.len();
        if dl < 4 {
            return Err(CorruptMatrixError);
        }
        let wc: usize = (data[0] as usize) * 256 + (data[1] as usize);
        let tc: usize = (data[2] as usize) * 256 + (data[3] as usize);
        if wc == 0 {
            return Err(CorruptMatrixError);
        }
        proof {
            assert((wc as int) * (tc as int) <= 0xFFFF * 0xFFFF) by (nonlinear_arith)
                requires
                    0 <= wc as int <= 0xFFFF,
                    0 <= tc as int <= 0xFFFF,
            ;
        }
        let total: u64 = 4 + 6 * (wc as u64) + (wc as u64) * (tc as u64);
        if (dl as u64) != total {
            return Err(CorruptMatrixError);
        }
        proof {
            assert(wc == header_words(data@));
            assert(tc == header_targets(data@));
            assert(dl == 4 + 6 * wc + wc * tc);
        }
        let mut words: Vec<Word> = Vec::new();
        let mut i: usize = 0;
        while i < wc
            invariant
                dl == data@.len(),
                dl == 4 + 6 * wc + wc * tc,
                1 <= wc <= 0xFFFF,
                i <= wc,
                words@.len() == i,
                forall|i2: int, p: int|
                    0 <= i2 < i && 0 <= p < 5 ==> (#[trigger] words@[i2]@[p]) == data@[4 + 5 * i2
                        + p],
            decreases wc - i,
        {
            proof {
                lemma_mul_nonnegative(wc as int, tc as int);
            }
            let base = 4 + 5 * i;
            let letters = [data[base], data[base + 1], data[base + 2], data[base + 3], data[base
                + 4]];
            let word = Word::from_bytes(letters);
            words.push(word);
            proof {
                assert(words@[i as int]@ == letters@);
                assert(letters@[0] == data@[base as int]);
                assert(letters@[1] == data@[base as int + 1]);
                assert(letters@[2] == data@[base as int + 2]);
                assert(letters@[3] == data@[base as int + 3]);
                assert(letters@[4] == data@[base as int + 4]);
            }
            i = i + 1;
        }
        let mbase = 4 + 5 * wc;
        let mut mask: Vec<bool> = Vec::new();
        let mut x: usize = 0;
        while x < wc
            invariant
                dl == data@.len(),
                dl == 4 + 6 * wc + wc * tc,
                1 <= wc <= 0xFFFF,
                mbase == 4 + 5 * wc,
                x <= wc,
                mask@.len() == x,
                forall|x2: int|
                    0 <= x2 < x ==> (#[trigger] mask@[x2]) == (data@[mbase + x2] != 0),
            decreases wc - x,
        {
            proof {
                lemma_mul_nonnegative(wc as int, tc as int);
            }
            mask.push(data[mbase + x] != 0);
            x = x + 1;
        }
        proof {
            assert(mask@ =~= artifact_mask(data@));
        }
        let mut tw: Vec<u16> = Vec::new();
        let mut y: usize = 0;
        while y < wc
            invariant
                1 <= wc <= 0xFFFF,
                mask@.len() == wc,
                y <= wc,
                tw@ == true_positions(mask@.take(y as int)),
            decreases wc - y,
        {
            proof {
                assert(mask@.take(y as int + 1).drop_last() =~= mask@.take(y as int));
                assert(mask@.take(y as int + 1).last() == mask@[y as int]);
            }
            if mask[y] {
                tw.push(y as u16);
            }
            y = y + 1;
        }
        proof {
            assert(mask@.take(mask@.len() as int) =~= mask@);
        }
        if tw.len() != tc {
            proof {
                assert(tw@ == true_positions(artifact_mask(data@)));
                assert(!artifact_ok(data@));
            }
            return Err(CorruptMatrixError);
        }
        let pbase = mbase + wc;
        let plen = dl - pbase;
        let mut patterns: Vec<u8> = Vec::new();
        let mut p: usize = 0;
        while p < plen
            invariant
                dl == data@.len(),
                dl == 4 + 6 * wc + wc * tc,
                1 <= wc <= 0xFFFF,
                wc == header_words(data@),
                pbase == 4 + 6 * wc,
                pbase + plen == dl,
                p <= plen,
                patterns@.len() == p,
                forall|q: int|
                    0 <= q < p ==> (#[trigger] patterns@[q]) == data@[pbase + q] && (data@[pbase
                        + q] as int) <= 242,
            decreases plen - p,
        {
            let b = data[pbase + p];
            if b > 242 {
                return Err(CorruptMatrixError);
            }
            patterns.push(b);
            p = p + 1;
        }
        let mut targets: Vec<u16> = Vec::new();
        let mut k: usize = 0;
        while k < tc
            invariant
                tc <= 0xFFFF,
                k <= tc,
                targets@.len() == k,
                forall|k2: int| 0 <= k2 < k ==> (#[trigger] targets@[k2] as int) == k2,
            decreases tc - k,
        {
            targets.push(k as u16);
            k = k + 1;
        }
        let ghost pseq = patterns@;
        let ghost wseq = words@;
        let mut solver = Wordle {
            words,
            mask,
            targets,
            target_words: tw,
            patterns,
            guess: 0,
            phase: Phase::Running,
        };
        proof {
            assert(solver.patterns@ == pseq);
            assert(solver.words@ == wseq);
            assert forall|p2: int|
                4 + 6 * header_words(data@) <= p2 < data@.len() implies (#[trigger] data@[p2]
                as int) <= 242 by {
                let q = p2 - (4 + 6 * (wc as int));
                assert(pseq[q] == data@[4 + 6 * (wc as int) + q]);
            }
            assert(artifact_ok(data@));
            lemma_true_positions_props(solver.mask@);
            assert(solver.patterns@.len() == wc * tc);
            assert(solver.target_words@.len() == tc);
            assert forall|xx: int| 0 <= xx < solver.mask@.len() implies (solver.mask@[xx]
                <==> exists|k2: int|
                0 <= k2 < solver.targets@.len() && (solver.target_words@[
                    #[trigger] solver.targets@[k2] as int
                ] as int) == xx) by {
                let tp = true_positions(solver.mask@);
                if solver.mask@[xx] {
                    let k2 = choose|k2: int|
                        0 <= k2 < tp.len() && (#[trigger] tp[k2] as int) == xx;
                    assert(solver.targets@[k2] as int == k2);
                    assert((solver.target_words@[solver.targets@[k2] as int] as int) == xx);
                } else {
                    if exists|k2: int|
                        0 <= k2 < solver.targets@.len() && (solver.target_words@[
                            #[trigger] solver.targets@[k2] as int
                        ] as int) == xx {
                        let k2 = choose|k2: int|
                            0 <= k2 < solver.targets@.len() && (solver.target_words@[
                                #[trigger] solver.targets@[k2] as int
                            ] as int) == xx;
                        assert(tp[k2] as int == xx);
                        assert(solver.mask@[tp[k2] as int]);
                    }
                }
            }
            assert(solver.wf());
            assert(solver.matrix_view() =~= data@.subrange(4 + 6 * (wc as int), dl as int));
        }
        solver.set_guess();
        Ok(solver)
    }

    /// The currently selected guess word.
    pub fn guess(&self) -> (w: Word)
        requires
            self.wf(),
        ensures
            w == self.words_view()[self.guess_view() as int],
    {
        self.words[self.guess as usize]
    }

    /// How many candidate answers remain consistent with all feedback so far.
    pub fn options(&self) -> (n: usize)
        ensures
            n as int == self.candidate_count(),
    {
        self.targets.len()
    }

    /// Applies one observed feedback code for the currently selected guess:
    /// drops every candidate whose matrix entry differs from the code, then
    /// reports the identified answer, an unsolvable contradiction, or the
    /// next guess to probe.  A code outside [0, 242] is rejected with the
    /// state untouched, and a terminal session only restates its outcome.
    pub fn apply_feedback(&mut self, code: u8) -> (r: Result<SolverStatus, InvalidFeedbackError>)
        requires
            old(self).wf(),
        ensures
            final(self).wf(),
            code > 242 ==> *final(self) == *old(self) && (r matches Err(_)),
            code <= 242 && !old(self).is_running() ==> *final(self) == *old(self),
            code <= 242 && old(self).is_solved() ==> (r matches Ok(s) && s matches
                SolverStatus::Solved(word) && word == solved_word(*old(self))),
            code <= 242 && old(self).is_unsolvable() ==> (r matches Ok(s) && s is Unsolvable),
            code <= 242 && old(self).is_running() ==> {
                &&& narrowed(*old(self), *final(self), code)
                &&& final(self).mask_view().len() == old(self).mask_view().len()
                &&& final(self).candidate_count() <= old(self).candidate_count()
                &&& final(self).is_best_guess(final(self).guess_view() as int)
                &&& (final(self).is_solved() <==> final(self).candidate_count() == 1)
                &&& (final(self).is_unsolvable() <==> final(self).candidate_count() == 0)
                &&& (final(self).candidate_count() == 1 ==> (r matches Ok(s) && s matches
                    SolverStatus::Solved(word) && word == solved_word(*final(self))))
                &&& (final(self).candidate_count() == 0 ==> (r matches Ok(s) && s is Unsolvable))
                &&& (final(self).candidate_count() >= 2 ==> (r matches Ok(s) && s matches
                    SolverStatus::Continue(word) && word == final(self).words_view()[
                        final(self).guess_view() as int] && final(self).is_running()))
            },
    {
        if code > 242 {
            return Err(InvalidFeedbackError);
        }
        match self.phase {
            Phase::Solved => {
                let t = self.targets[0];
                let wi = self.target_words[t as usize];
                Ok(SolverStatus::Solved(self.words[wi as usize]))
            },
            Phase::Unsolvable => Ok(SolverStatus::Unsolvable),
            Phase::Running => {
                let ghost pre = *self;
                let g = self.guess;
                let ghost m = pre.patterns@;
                let ghost w = pre.words@.len() as int;
                let mut kept: Vec<u16> = Vec::new();
                let mut k: usize = 0;
                while k < self.targets.len()
                    invariant
                        pre.wf(),
                        self.words@ == pre.words@,
                        self.patterns@ == pre.patterns@,
                        self.target_words@ == pre.target_words@,
                        self.targets@ == pre.targets@,
                        self.guess == pre.guess,
                        self.phase == pre.phase,
                        self.mask@.len() == pre.mask@.len(),
                        g == pre.guess,
                        m == pre.patterns@,
                        w == pre.words@.len() as int,
                        k <= self.targets@.len(),
                        kept@ == filter_code(
                            pre.targets@.take(k as int),
                            m,
                            w,
                            g as int,
                            code,
                        ),
                        forall|x: int|
                            0 <= x < self.mask@.len() ==> (self.mask@[x] <==> ((exists|k2: int|
                                k <= k2 < pre.targets@.len() && (pre.target_words@[
                                    #[trigger] pre.targets@[k2] as int
                                ] as int) == x) || (exists|j: int|
                                0 <= j < kept@.len() && (pre.target_words@[
                                    #[trigger] kept@[j] as int
                                ] as int) == x))),
                    decreases self.targets@.len() - k,
                {
                    let t = self.targets[k];
                    let c = self.get_pattern(g, t);
                    let ghost kept_pre = kept@;
                    proof {
                        assert(pre.targets@.take(k as int + 1).drop_last() =~= pre.targets@.take(
                            k as int,
                        ));
                        assert(pre.targets@.take(k as int + 1).last() == t);
                        lemma_filter_code_len(pre.targets@.take(k as int), m, w, g as int, code);
                    }
                    if c == code {
                        kept.push(t);
                        proof {
                            assert(kept@ == kept_pre.push(t));
                            assert forall|x: int| 0 <= x < self.mask@.len() implies (
                            self.mask@[x] <==> ((exists|k2: int|
                                k + 1 <= k2 < pre.targets@.len() && (pre.target_words@[
                                    #[trigger] pre.targets@[k2] as int
                                ] as int) == x) || (exists|j: int|
                                0 <= j < kept@.len() && (pre.target_words@[
                                    #[trigger] kept@[j] as int
                                ] as int) == x))) by {
                                if self.mask@[x] {
                                    if exists|k2: int|
                                        k <= k2 < pre.targets@.len() && (pre.target_words@[
                                            #[trigger] pre.targets@[k2] as int
                                        ] as int) == x {
                                        let k2 = choose|k2: int|
                                            k <= k2 < pre.targets@.len() && (pre.target_words@[
                                                #[trigger] pre.targets@[k2] as int
                                            ] as int) == x;
                                        if k2 == k {
                                            assert(kept@[kept@.len() - 1] == t);
                                        }
                                    } else {
                                        let j = choose|j: int|
                                            0 <= j < kept_pre.len() && (pre.target_words@[
                                                #[trigger] kept_pre[j] as int
                                            ] as int) == x;
                                        assert(kept@[j] == kept_pre[j]);
                                    }
                                } else {
                                    assert forall|j: int| 0 <= j < kept@.len() implies (
                                    pre.target_words@[#[trigger] kept@[j] as int] as int) != x by {
                                        if j < kept_pre.len() {
                                            assert(kept@[j] == kept_pre[j]);
                                        } else {
                                            assert(kept@[j] == t);
                                        }
                                    }
                                }
                            }
                        }
                    } else {
                        let wi = self.target_words[t as usize];
                        proof {
                            lemma_filter_code_bounded(
                                pre.targets@.take(k as int),
                                m,
                                w,
                                g as int,
                                code,
                                pre.target_words@.len() as int,
                            );
                        }
                        self.mask.set(wi as usize, false);
                        proof {
                            assert forall|x: int| 0 <= x < self.mask@.len() implies (
                            self.mask@[x] <==> ((exists|k2: int|
                                k + 1 <= k2 < pre.targets@.len() && (pre.target_words@[
                                    #[trigger] pre.targets@[k2] as int
                                ] as int) == x) || (exists|j: int|
                                0 <= j < kept@.len() && (pre.target_words@[
                                    #[trigger] kept@[j] as int
                                ] as int) == x))) by {
                                if x == wi as int {
                                    assert(!self.mask@[x]);
                                    assert forall|k2: int|
                                        k + 1 <= k2 < pre.targets@.len() implies (
                                    pre.target_words@[#[trigger] pre.targets@[k2] as int] as int)
                                        != x by {
                                        assert(pre.targets@[k as int] < pre.targets@[k2]);
                                    }
                                    assert forall|j: int| 0 <= j < kept@.len() implies (
                                    pre.target_words@[#[trigger] kept@[j] as int] as int) != x by {
                                        lemma_filter_code_membership(
                                            pre.targets@.take(k as int),
                                            m,
                                            w,
                                            g as int,
                                            code,
                                            kept@[j],
                                        );
                                        let i = choose|i: int|
                                            0 <= i < pre.targets@.take(k as int).len() && (
                                            pre.targets@.take(k as int)[i]) == kept@[j];
                                        assert(pre.targets@[i] == kept@[j]);
                                        assert(pre.targets@[i] < pre.targets@[k as int]);
                                    }
                                } else {
                                    if self.mask@[x] {
                                        if exists|k2: int|
                                            k <= k2 < pre.targets@.len() && (pre.target_words@[
                                                #[trigger] pre.targets@[k2] as int
                                            ] as int) == x {
                                            let k2 = choose|k2: int|
                                                k <= k2 < pre.targets@.len() && (pre.target_words@[
                                                    #[trigger] pre.targets@[k2] as int
                                                ] as int) == x;
                                            assert(k2 != k);
                                        }
                                    }
                                }
                            }
                        }
                    }
                    k = k + 1;
                }
                proof {
                    assert(pre.targets@.take(pre.targets@.len() as int) =~= pre.targets@);
                    lemma_filter_code_len(pre.targets@, m, w, g as int, code);
                    lemma_filter_code_sorted(pre.targets@, m, w, g as int, code);
                    lemma_filter_code_bounded(
                        pre.targets@,
                        m,
                        w,
                        g as int,
                        code,
                        pre.target_words@.len() as int,
                    );
                }
                let ghost kf = kept@;
                self.targets = kept;
                proof {
                    assert(self.targets@ == kf);
                    assert forall|x: int| 0 <= x < self.mask@.len() implies (self.mask@[x]
                        <==> exists|k2: int|
                        0 <= k2 < self.targets@.len() && (self.target_words@[
                            #[trigger] self.targets@[k2] as int
                        ] as int) == x) by {
                        if self.mask@[x] {
                            let j = choose|j: int|
                                0 <= j < kf.len() && (pre.target_words@[
                                    #[trigger] kf[j] as int
                                ] as int) == x;
                            assert((self.target_words@[self.targets@[j] as int] as int) == x);
                        } else {
                            if exists|k2: int|
                                0 <= k2 < self.targets@.len() && (self.target_words@[
                                    #[trigger] self.targets@[k2] as int
                                ] as int) == x {
                                let k2 = choose|k2: int|
                                    0 <= k2 < self.targets@.len() && (self.target_words@[
                                        #[trigger] self.targets@[k2] as int
                                    ] as int) == x;
                                assert((pre.target_words@[kf[k2] as int] as int) == x);
                            }
                        }
                    }
                    assert(self.wf());
                }
                if self.targets.len() == 1 {
                    let ghost mid = *self;
                    self.phase = Phase::Solved;
                    proof {
                        Self::lemma_wf_transfer(mid, *self);
                    }
                    self.set_guess();
                    let t = self.targets[0];
                    let wi = self.target_words[t as usize];
                    Ok(SolverStatus::Solved(self.words[wi as usize]))
                } else if self.targets.len() == 0 {
                    let ghost mid = *self;
                    self.phase = Phase::Unsolvable;
                    proof {
                        Self::lemma_wf_transfer(mid, *self);
                    }
                    self.set_guess();
                    Ok(SolverStatus::Unsolvable)
                } else {
                    self.set_guess();
                    Ok(SolverStatus::Continue(self.words[self.guess as usize]))
                }
            },
        }
    }

    /// Applies one observed feedback pattern for the currently selected
    /// guess; a terminal session is left unchanged.
    pub fn update(&mut self, pattern: Pattern)
        requires
            old(self).wf(),
        ensures
            final(self).wf(),
            !old(self).is_running() ==> *final(self) == *old(self),
            old(self).is_running() ==> {
                &&& narrowed(*old(self), *final(self), pattern_id(pattern@) as u8)
                &&& final(self).candidate_count() <= old(self).candidate_count()
                &&& final(self).is_best_guess(final(self).guess_view() as int)
                &&& (final(self).is_solved() <==> final(self).candidate_count() == 1)
                &&& (final(self).is_unsolvable() <==> final(self).candidate_count() == 0)
            },
    {
        let code = pattern.get_id();
        let _ = self.apply_feedback(code);
    }
}

/// The matrix rows are exactly what the feedback encoder produces for the
/// stored vocabulary, as the artifact builder writes them.
pub open spec fn matrix_from_encoder(s: Wordle) -> bool {
    forall|g: int, t: int|
        #![trigger matrix_code(s.matrix_view(), s.word_count(), g, t)]
        0 <= g < s.word_count() && 0 <= t < s.target_total() ==> (matrix_code(
            s.matrix_view(),
            s.word_count(),
            g,
            t,
        ) as int) == pattern_code(
            s.words_view()[g]@,
            s.words_view()[s.target_word_view()[t] as int]@,
        )
}

/// A session loaded from an artifact the builder wrote narrows and scores
/// against exactly the encoder's codes.  The hypotheses restate what the
/// builder ensures of the bytes and what loading ensures of the session;
/// together they discharge the `matrix_from_encoder` hypothesis of the
/// round-progress law.
pub proof fn lemma_built_artifact_is_encoder(
    s: Wordle,
    words: Seq<Word>,
    targets: Seq<Word>,
    d: Seq<u8>,
)
    requires
        1 <= words.len() <= 0xFFFF,
        (d[0] as int) == words.len() as int / 256,
        (d[1] as int) == words.len() as int % 256,
        d.len() == 4 + 6 * words.len() + words.len() * chosen_targets(words, targets).len(),
        forall|i: int|
            0 <= i < words.len() ==> (#[trigger] d[4 + 5 * words.len() + i]) == (if contains_word(
                targets,
                words[i],
            ) {
                1u8
            } else {
                0u8
            }),
        forall|ti: int, g: int|
            0 <= ti < chosen_targets(words, targets).len() && 0 <= g < words.len() ==> (#[trigger] d[4
                + 6 * words.len() + ti * words.len() + g]) == pattern_code(
                words[g]@,
                chosen_targets(words, targets)[ti]@,
            ),
        s.word_count() == words.len(),
        s.target_total() == chosen_targets(words, targets).len(),
        forall|i: int, p: int|
            0 <= i < s.word_count() && 0 <= p < 5 ==> s.words_view()[i]@[p] == d[4 + 5 * i + p],
        forall|i: int, p: int|
            0 <= i < words.len() && 0 <= p < 5 ==> (#[trigger] words[i]@[p]) == d[4 + 5 * i + p],
        s.matrix_view() == d.subrange(4 + 6 * (words.len() as int), d.len() as int),
        s.target_word_view() == true_positions(artifact_mask(d)),
    ensures
        matrix_from_encoder(s),
{
    let w = words.len() as int;
    let tw = chosen_targets(words, targets);
    let t = tw.len() as int;
    assert(header_words(d) == w);
    let cm = Seq::new(w as nat, |i: int| contains_word(targets, words[i]));
    assert forall|i: int| 0 <= i < w implies artifact_mask(d)[i] == cm[i] by {
        assert(d[4 + 5 * words.len() + i] == (if contains_word(targets, words[i]) {
            1u8
        } else {
            0u8
        }));
    }
    assert(artifact_mask(d) =~= cm);
    crate::builder::lemma_chosen_matches_positions(words, targets, cm);
    lemma_true_positions_props(cm);
    let tp = true_positions(cm);
    assert forall|g: int, t2: int|
        #![trigger matrix_code(s.matrix_view(), s.word_count(), g, t2)]
        0 <= g < s.word_count() && 0 <= t2 < s.target_total() implies (matrix_code(
        s.matrix_view(),
        s.word_count(),
        g,
        t2,
    ) as int) == pattern_code(
        s.words_view()[g]@,
        s.words_view()[s.target_word_view()[t2] as int]@,
    ) by {
        lemma_mul_inequality(t2, t - 1, w);
        lemma_mul_is_distributive_add_other_way(w, t - 1, 1);
        lemma_mul_nonnegative(t2, w);
        lemma_mul_is_commutative(w, t);
        assert(0 <= g + t2 * w < s.matrix_view().len());
        assert(s.matrix_view()[g + t2 * w] == d[4 + 6 * w + (g + t2 * w)]);
        assert(t2 * words.len() == t2 * w);
        assert(d[4 + 6 * words.len() + t2 * words.len() + g] == pattern_code(
            words[g]@,
            tw[t2]@,
        ));
        assert(d[4 + 6 * w + t2 * w + g] == pattern_code(words[g]@, tw[t2]@));
        assert(s.words_view()[g]@ =~= words[g]@);
        assert(tw[t2] == words[tp[t2] as int]);
        assert((tp[t2] as int) < w && cm[tp[t2] as int]);
        assert(s.words_view()[s.target_word_view()[t2] as int]@ =~= words[tp[t2] as int]@);
    }
}

/// Soundness and progress of one full round: when the matrix comes from the
/// encoder, the true answer `a` is among candidates that do not all spell
/// the same word, and the selected guess maximizes the score, then the
/// feedback that `a` itself produces keeps `a` in the candidate set and
/// strictly shrinks that set.  Applied round after round, a session whose
/// answer is a candidate keeps it to the end and reaches `Solved` in fewer
/// rounds than it has candidates.
pub proof fn lemma_round_progress(s: Wordle, a: u16, i: int, j: int)
    requires
        s.wf(),
        matrix_from_encoder(s),
        s.is_best_guess(s.guess_view() as int),
        s.targets_view().contains(a),
        0 <= i < j < s.candidate_count(),
        s.words_view()[s.target_word_view()[s.targets_view()[i] as int] as int]@
            != s.words_view()[s.target_word_view()[s.targets_view()[j] as int] as int]@,
    ensures
        ({
            let code_a = matrix_code(
                s.matrix_view(),
                s.word_count(),
                s.guess_view() as int,
                a as int,
            );
            let kept = filter_code(
                s.targets_view(),
                s.matrix_view(),
                s.word_count(),
                s.guess_view() as int,
                code_a,
            );
            kept.contains(a) && kept.len() < s.candidate_count()
        }),
{
    let ts = s.targets@;
    let m = s.patterns@;
    let w = s.words@.len() as int;
    let n = ts.len() as int;
    let gbest = s.guess as int;
    let code_a = matrix_code(m, w, gbest, a as int);
    s.lemma_code_in_range(gbest, a as int);
    lemma_filter_code_membership(ts, m, w, gbest, code_a, a);

    // The word of candidate `i` is still a possible answer, so guessing it
    // carries the bonus; and it splits the candidates into at least two
    // nonempty buckets: itself (all correct) and candidate `j` (not all
    // correct, since the words differ).
    let t1 = ts[i];
    let t2 = ts[j];
    let g1 = s.target_words@[t1 as int] as int;
    assert(s.mask@[g1]) by {
        assert(0 <= i < ts.len() && (s.target_words@[ts[i] as int] as int) == g1);
    }
    assert(matrix_code(m, w, g1, t1 as int) == 242) by {
        assert((matrix_code(s.matrix_view(), s.word_count(), g1, t1 as int) as int)
            == pattern_code(
            s.words_view()[g1]@,
            s.words_view()[s.target_word_view()[t1 as int] as int]@,
        ));
        crate::feedback::lemma_code_self(s.words@[g1]@);
    }
    let c2 = matrix_code(m, w, g1, t2 as int);
    assert((c2 as int) < 242) by {
        assert((matrix_code(s.matrix_view(), s.word_count(), g1, t2 as int) as int)
            == pattern_code(
            s.words_view()[g1]@,
            s.words_view()[s.target_word_view()[t2 as int] as int]@,
        ));
        crate::feedback::lemma_code_differs(
            s.words@[g1]@,
            s.words@[s.target_words@[t2 as int] as int]@,
        );
    }
    let n242 = count_code(ts, m, w, g1, 242u8);
    let nc2 = count_code(ts, m, w, g1, c2);
    assert(n242 >= 1) by {
        lemma_filter_code_membership(ts, m, w, g1, 242u8, t1);
        let f = filter_code(ts, m, w, g1, 242u8);
        assert(f.contains(t1));
        let idx = choose|idx: int| 0 <= idx < f.len() && f[idx] == t1;
    }
    assert(nc2 >= 1) by {
        lemma_filter_code_membership(ts, m, w, g1, c2, t2);
        let f = filter_code(ts, m, w, g1, c2);
        assert(f.contains(t2));
        let idx = choose|idx: int| 0 <= idx < f.len() && f[idx] == t2;
    }
    assert forall|k: int| 0 <= k < ts.len() implies (matrix_code(
        m,
        w,
        g1,
        #[trigger] ts[k] as int,
    ) as int) < 243 by {
        s.lemma_code_in_range(g1, ts[k] as int);
    }
    lemma_hist_sum_total(ts, m, w, g1);
    crate::candidates::lemma_hist_pair_bound(ts, m, w, g1, c2 as int, 242, 243);

    // The smaller of the two buckets holds at most half the candidates, so
    // the score of that probe exceeds the bare bonus by at least one unit.
    if n242 <= nc2 {
        crate::candidates::lemma_score_sum_gap(ts, m, w, g1, 243, n, 242);
    } else {
        crate::candidates::lemma_score_sum_gap(ts, m, w, g1, 243, n, c2 as int);
    }
    assert(s.spec_score(g1) >= 65537);

    // The selected guess scores at least as much, so its feedback histogram
    // cannot be a single bucket: some candidate disagrees with `code_a` and
    // is discarded, while `a` itself always matches its own code.
    assert(s.spec_score(gbest) >= s.spec_score(g1));
    if forall|k: int|
        0 <= k < ts.len() ==> matrix_code(m, w, gbest, #[trigger] ts[k] as int) == code_a {
        crate::candidates::lemma_score_sum_uniform(ts, m, w, gbest, 243, code_a, n);
        assert(s.spec_score(gbest) <= 65536);
        assert(false);
    }
    let k = choose|k: int|
        0 <= k < ts.len() && matrix_code(m, w, gbest, #[trigger] ts[k] as int) != code_a;
    assert(ts.contains(ts[k]));
    lemma_filter_code_shrinks(ts, m, w, gbest, code_a, ts[k]);
}

/// Soundness of narrowing: when the observed code is the one the matrix
/// stores for the true answer's column, that column survives the round.
pub proof fn lemma_feedback_keeps_answer(pre: Wordle, post: Wordle, code: u8, a: u16)
    requires
        narrowed(pre, post, code),
        pre.targets_view().contains(a),
        matrix_code(pre.matrix_view(), pre.word_count(), pre.guess_view() as int, a as int)
            == code,
    ensures
        post.targets_view().contains(a),
{
    lemma_filter_code_membership(
        pre.targets_view(),
        pre.matrix_view(),
        pre.word_count(),
        pre.guess_view() as int,
        code,
        a,
    );
}

/// Progress of narrowing: a candidate whose matrix entry differs from the
/// observed code is discarded, so the candidate set strictly shrinks.
pub proof fn lemma_feedback_discards_inconsistent(pre: Wordle, post: Wordle, code: u8, t: u16)
    requires
        narrowed(pre, post, code),
        pre.targets_view().contains(t),
        matrix_code(pre.matrix_view(), pre.word_count(), pre.guess_view() as int, t as int)
            != code,
    ensures
        post.candidate_count() < pre.candidate_count(),
{
    lemma_filter_code_shrinks(
        pre.targets_view(),
        pre.matrix_view(),
        pre.word_count(),
        pre.guess_view() as int,
        code,
        t,
    );
}

} // verus!

