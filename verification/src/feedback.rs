//! The feedback encoder: maps a (guess, target) pair of five-letter words to
//! a feedback code in [0, 242], a base-3 number with one digit per position
//! (0 = absent, 1 = present elsewhere, 2 = correct position), with the greedy
//! left-to-right tie-break for duplicate letters.

use vstd::prelude::*;

verus! {

/// Powers of three, the place values of the base-3 feedback encoding.
pub open spec fn pow3(n: nat) -> nat
    decreases n,
{
    if n == 0 {
        1
    } else {
        3 * pow3((n - 1) as nat)
    }
}

pub proof fn lemma_pow3_values()
    ensures
        pow3(0) == 1,
        pow3(1) == 3,
        pow3(2) == 9,
        pow3(3) == 27,
        pow3(4) == 81,
        pow3(5) == 243,
{
    assert(pow3(0) == 1);
    assert(pow3(1) == 3);
    assert(pow3(2) == 9);
    assert(pow3(3) == 27);
    assert(pow3(4) == 81);
    assert(pow3(5) == 243);
}

/// Target position `j` may satisfy guess position `i` as "present elsewhere":
/// a different position, not itself an exact match, carrying the guessed
/// letter, and not already consumed by an earlier guess letter.
pub open spec fn eligible(guess: Seq<u8>, target: Seq<u8>, used: Seq<bool>, i: int, j: int) -> bool {
    &&& j != i
    &&& guess[j] != target[j]
    &&& guess[i] == target[j]
    &&& !used[j]
}

/// The first eligible target position at or after `j`, or 5 when none exists:
/// the greedy first-unclaimed-match policy for duplicate letters.
pub open spec fn first_eligible(
    guess: Seq<u8>,
    target: Seq<u8>,
    used: Seq<bool>,
    i: int,
    j: int,
) -> int
    decreases 5 - j,
{
    if j < 0 || j >= 5 {
        5
    } else if eligible(guess, target, used, i, j) {
        j
    } else {
        first_eligible(guess, target, used, i, j + 1)
    }
}

/// The feedback digits for positions `i..5`, each weighted by its place value,
/// given which target positions earlier guess letters have consumed.
pub open spec fn code_from(guess: Seq<u8>, target: Seq<u8>, used: Seq<bool>, i: int) -> int
    decreases 5 - i,
{
    if i < 0 || i >= 5 {
        0
    } else if guess[i] == target[i] {
        2 * pow3(i as nat) + code_from(guess, target, used, i + 1)
    } else {
        let j = first_eligible(guess, target, used, i, 0);
        if j < 5 {
            pow3(i as nat) + code_from(guess, target, used.update(j, true), i + 1)
        } else {
            code_from(guess, target, used, i + 1)
        }
    }
}

/// The feedback code for a (guess, target) pair: all five digits, no target
/// position consumed yet.
pub open spec fn pattern_code(guess: Seq<u8>, target: Seq<u8>) -> int {
    code_from(guess, target, seq![false, false, false, false, false], 0)
}

/// Digits for positions `i..5` contribute at least 0 and at most
/// `pow3(5) - pow3(i)`, the sum of twice each remaining place value.
pub proof fn lemma_code_from_bounds(guess: Seq<u8>, target: Seq<u8>, used: Seq<bool>, i: int)
    requires
        0 <= i <= 5,
    ensures
        0 <= code_from(guess, target, used, i) <= pow3(5) - pow3(i as nat),
    decreases 5 - i,
{
    if i >= 5 {
        assert(pow3(5) - pow3(5) == 0);
    } else {
        assert(pow3((i + 1) as nat) == 3 * pow3(i as nat));
        if guess[i] == target[i] {
            lemma_code_from_bounds(guess, target, used, i + 1);
        } else {
            let j = first_eligible(guess, target, used, i, 0);
            if j < 5 {
                lemma_code_from_bounds(guess, target, used.update(j, true), i + 1);
            } else {
                lemma_code_from_bounds(guess, target, used, i + 1);
            }
        }
    }
}

/// The code of any pair fits in [0, 242].
pub proof fn lemma_pattern_code_bounds(guess: Seq<u8>, target: Seq<u8>)
    ensures
        0 <= pattern_code(guess, target) <= 242,
{
    lemma_pow3_values();
    lemma_code_from_bounds(guess, target, seq![false, false, false, false, false], 0);
}

/// A word guessed against itself scores "correct position" everywhere, which
/// is the all-correct code 242.
pub proof fn lemma_code_self(w: Seq<u8>)
    ensures
        pattern_code(w, w) == 242,
{
    lemma_pow3_values();
    let used = seq![false, false, false, false, false];
    assert(code_from(w, w, used, 5) == 0);
    assert(code_from(w, w, used, 4) == 2 * pow3(4));
    assert(code_from(w, w, used, 3) == 2 * pow3(3) + 2 * pow3(4));
    assert(code_from(w, w, used, 2) == 2 * pow3(2) + 2 * pow3(3) + 2 * pow3(4));
    assert(code_from(w, w, used, 1) == 2 * pow3(1) + 2 * pow3(2) + 2 * pow3(3) + 2 * pow3(4));
    assert(code_from(w, w, used, 0) == 242);
}

/// A position whose guess letter differs from the target's scores at most
/// "present elsewhere" there, so the final code falls short of all-correct
/// by at least that position's place value.
proof fn lemma_code_from_missing(guess: Seq<u8>, target: Seq<u8>, used: Seq<bool>, i: int, i0: int)
    requires
        0 <= i <= i0 < 5,
        guess[i0] != target[i0],
    ensures
        code_from(guess, target, used, i) <= pow3(5) - pow3(i as nat) - pow3(i0 as nat),
    decreases 5 - i,
{
    assert(pow3((i + 1) as nat) == 3 * pow3(i as nat));
    if i == i0 {
        let j = first_eligible(guess, target, used, i, 0);
        if j < 5 {
            lemma_code_from_bounds(guess, target, used.update(j, true), i + 1);
        } else {
            lemma_code_from_bounds(guess, target, used, i + 1);
        }
    } else {
        if guess[i] == target[i] {
            lemma_code_from_missing(guess, target, used, i + 1, i0);
        } else {
            let j = first_eligible(guess, target, used, i, 0);
            if j < 5 {
                lemma_code_from_missing(guess, target, used.update(j, true), i + 1, i0);
            } else {
                lemma_code_from_missing(guess, target, used, i + 1, i0);
            }
        }
    }
}

/// Only a word guessed against itself reaches the all-correct code: words
/// that differ anywhere encode to something below 242.
pub proof fn lemma_code_differs(guess: Seq<u8>, target: Seq<u8>)
    requires
        guess.len() == 5,
        target.len() == 5,
        guess != target,
    ensures
        pattern_code(guess, target) < 242,
{
    lemma_pow3_values();
    if forall|p: int| 0 <= p < 5 ==> guess[p] == target[p] {
        assert(guess =~= target);
    }
    let p = choose|p: int| 0 <= p < 5 && guess[p] != target[p];
    lemma_code_from_missing(guess, target, seq![false, false, false, false, false], 0, p);
    assert(pow3(p as nat) >= 1) by {
        lemma_pow3_positive(p as nat);
    }
}

/// Powers of three are positive.
pub proof fn lemma_pow3_positive(n: nat)
    ensures
        pow3(n) >= 1,
    decreases n,
{
    if n > 0 {
        lemma_pow3_positive((n - 1) as nat);
    }
}

/// Computes the feedback code for guessing `guess` against the hidden word
/// `target`, scanning positions left to right and consuming at most one
/// unclaimed target position per "present elsewhere" credit.
pub fn calculate_pattern(guess: [u8; 5], target: [u8; 5]) -> (code: u8)
    ensures
        code == pattern_code(guess@, target@),
        code <= 242,
{
    proof {
        lemma_pattern_code_bounds(guess@, target@);
        lemma_pow3_values();
    }
    let mut value: u8 = 0;
    let mut multiplier: u8 = 1;
    let mut used: Vec<bool> = vec![false, false, false, false, false];
    assert(used@ =~= seq![false, false, false, false, false]);
    for i in 0..5usize
        invariant
            used@.len() == 5,
            multiplier == pow3(i as nat),
            value < pow3(i as nat),
            value + code_from(guess@, target@, used@, i as int) == pattern_code(guess@, target@),
            pattern_code(guess@, target@) <= 242,
    {
        proof {
            lemma_pow3_values();
            lemma_code_from_bounds(guess@, target@, used@, i as int);
        }
        if guess[i] == target[i] {
            assert(code_from(guess@, target@, used@, i as int) == 2 * pow3(i as nat)
                + code_from(guess@, target@, used@, i as int + 1));
            proof {
                lemma_code_from_bounds(guess@, target@, used@, i as int + 1);
            }
            value = value + multiplier * 2;
        } else {
            let ghost first = first_eligible(guess@, target@, used@, i as int, 0);
            let mut hit: usize = 5;
            for j in 0..5usize
                invariant
                    used@.len() == 5,
                    hit <= 5,
                    hit < 5 ==> first_eligible(guess@, target@, used@, i as int, 0) == hit,
                    hit == 5 ==> first_eligible(guess@, target@, used@, i as int, 0)
                        == first_eligible(guess@, target@, used@, i as int, j as int),
                    i < 5,
            {
                if hit == 5 && j != i && guess[j] != target[j] && guess[i] == target[j] && !used[j]
                {
                    assert(eligible(guess@, target@, used@, i as int, j as int));
                    hit = j;
                } else {
                    if hit == 5 {
                        assert(!eligible(guess@, target@, used@, i as int, j as int));
                    }
                }
            }
            if hit < 5 {
                assert(first == hit);
                assert(code_from(guess@, target@, used@, i as int) == pow3(i as nat)
                    + code_from(guess@, target@, used@.update(hit as int, true), i as int + 1));
                proof {
                    lemma_code_from_bounds(
                        guess@,
                        target@,
                        used@.update(hit as int, true),
                        i as int + 1,
                    );
                }
                used.set(hit, true);
                value = value + multiplier;
            } else {
                assert(first == 5);
                assert(code_from(guess@, target@, used@, i as int) == code_from(
                    guess@,
                    target@,
                    used@,
                    i as int + 1,
                ));
                proof {
                    lemma_code_from_bounds(guess@, target@, used@, i as int + 1);
                }
            }
        }
        multiplier = multiplier * 3;
    }
    assert(code_from(guess@, target@, used@, 5) == 0);
    value
}

} // verus!
