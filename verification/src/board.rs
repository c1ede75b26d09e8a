//! The board: how many colours and holes a code has, how codes are numbered
//! and written, and the feedback between two codes.

use crate::feedback::{
    color_matches, exact_matches, lemma_color_symmetric, lemma_exact_everywhere,
    lemma_exact_symmetric, lemma_match_bound, lemma_match_self, unmatched_count, MatchKeys,
};
use crate::numeral::{lemma_numeral_injective, lemma_numeral_len, lemma_pow_step, numeral};
use vstd::arithmetic::power::{lemma0_pow, lemma1_pow, lemma_pow0, lemma_pow_increases, pow};
use vstd::arithmetic::power2::lemma2_to64;
use vstd::prelude::*;

verus! {

/// The configuration of a game: codes have `hole_count` holes, each holding
/// one of `color_count` colours. A pattern is a code written as a number: the
/// colours of its holes are the digits of a `hole_count`-digit numeral in
/// base `color_count`.
#[derive(Clone, Copy, Debug, PartialEq, Eq, Structural)]
pub struct Board {
    /// The number of colours a hole can hold.
    pub color_count: u32,
    /// The number of holes of a code.
    pub hole_count: u32,
}

impl Board {
    /// Both counts are positive and the number of patterns fits in `u32`.
    pub open spec fn valid(&self) -> bool {
        &&& self.color_count >= 1
        &&& self.hole_count >= 1
        &&& pow(self.color_count as int, self.hole_count as nat) <= u32::MAX
    }

    /// The number of patterns: `color_count ^ hole_count`.
    pub open spec fn pattern_count(&self) -> int {
        pow(self.color_count as int, self.hole_count as nat)
    }

    /// The colours of the holes of `pattern`, first hole first.
    pub open spec fn digits(&self, pattern: u32) -> Seq<int> {
        numeral(pattern as int, self.color_count as int, self.hole_count as nat)
    }

    /// The feedback between `pattern` and `guess`: the exact matches of their
    /// digits, and the colour matches over the colours of the board.
    pub open spec fn match_spec(&self, pattern: u32, guess: u32) -> MatchKeys {
        MatchKeys {
            exact_count: exact_matches(self.digits(pattern), self.digits(guess)) as u32,
            color_count: color_matches(
                self.digits(pattern),
                self.digits(guess),
                self.color_count as nat,
            ) as u32,
        }
    }

    /// The feedback that says a guess is the code: every hole exact.
    pub open spec fn solved_keys(&self) -> MatchKeys {
        MatchKeys { exact_count: self.hole_count, color_count: 0 }
    }

    /// A board with the given numbers of colours and holes.
    pub fn new(color_count: u32, hole_count: u32) -> (board: Board)
        ensures
            board == (Board { color_count, hole_count }),
    {
        Board { color_count, hole_count }
    }

    /// Whether the board can be played on.
    pub fn is_valid(&self) -> (ok: bool)
        ensures
            ok == self.valid(),
    {
        self.color_count >= 1 && self.hole_count >= 1 && checked_power(
            self.color_count,
            self.hole_count,
        ).is_some()
    }

    /// Whether `keys` says that a guess is the code.
    pub fn is_solved(&self, keys: MatchKeys) -> (solved: bool)
        ensures
            solved == (keys == self.solved_keys()),
    {
        keys == MatchKeys::new(self.hole_count, 0)
    }

    /// The number of patterns on this board.
    pub fn total_pattern_count(&self) -> (count: u32)
        requires
            self.pattern_count() <= u32::MAX,
        ensures
            count == self.pattern_count(),
    {
        checked_power(self.color_count, self.hole_count).unwrap()
    }

    /// The feedback between `pattern` and `guess`: the holes where both hold
    /// the same colour, and, over the remaining holes, the colours they share
    /// when position is ignored.
    pub fn compute_match(&self, pattern: u32, guess: u32) -> (keys: MatchKeys)
        requires
            self.color_count > 0,
        ensures
            keys == self.match_spec(pattern, guess),
            keys.exact_count == exact_matches(self.digits(pattern), self.digits(guess)),
            keys.color_count == color_matches(
                self.digits(pattern),
                self.digits(guess),
                self.color_count as nat,
            ),
            keys.exact_count + keys.color_count <= self.hole_count,
    {
        let colors = self.color_count;
        let holes = self.hole_count;
        let ghost a = self.digits(pattern);
        let ghost b = self.digits(guess);
        let mut pattern_colors: Vec<u32> = vec![0u32; colors as usize];
        let mut guess_colors: Vec<u32> = vec![0u32; colors as usize];
        let mut pattern_rest = pattern;
        let mut guess_rest = guess;
        let mut exact_count: u32 = 0;
        let mut hole: u32 = 0;
        proof {
            lemma_numeral_len(pattern as int, colors as int, holes as nat);
            lemma_numeral_len(guess as int, colors as int, holes as nat);
        }
        while hole < holes
            invariant
                colors == self.color_count,
                holes == self.hole_count,
                colors > 0,
                a == self.digits(pattern),
                b == self.digits(guess),
                hole <= holes,
                exact_count <= hole,
                pattern_colors.len() == colors,
                guess_colors.len() == colors,
                forall|c: int| 0 <= c < colors ==> #[trigger] pattern_colors[c] <= hole,
                forall|c: int| 0 <= c < colors ==> #[trigger] guess_colors[c] <= hole,
                exact_matches(a, b) == exact_count + exact_matches(
                    numeral(pattern_rest as int, colors as int, (holes - hole) as nat),
                    numeral(guess_rest as int, colors as int, (holes - hole) as nat),
                ),
                forall|c: int|
                    0 <= c < colors ==> unmatched_count(a, b, c) == #[trigger] pattern_colors[c]
                        + unmatched_count(
                        numeral(pattern_rest as int, colors as int, (holes - hole) as nat),
                        numeral(guess_rest as int, colors as int, (holes - hole) as nat),
                        c,
                    ),
                forall|c: int|
                    0 <= c < colors ==> unmatched_count(b, a, c) == #[trigger] guess_colors[c]
                        + unmatched_count(
                        numeral(guess_rest as int, colors as int, (holes - hole) as nat),
                        numeral(pattern_rest as int, colors as int, (holes - hole) as nat),
                        c,
                    ),
            decreases holes - hole,
        {
            proof {
                lemma_match_step(
                    pattern_rest as int,
                    guess_rest as int,
                    colors as int,
                    (holes - hole) as nat,
                );
                lemma_match_step(
                    guess_rest as int,
                    pattern_rest as int,
                    colors as int,
                    (holes - hole) as nat,
                );
            }
            let pattern_digit = pattern_rest % colors;
            let guess_digit = guess_rest % colors;
            pattern_rest = pattern_rest / colors;
            guess_rest = guess_rest / colors;
            if pattern_digit == guess_digit {
                exact_count += 1;
            } else {
                let seen_in_pattern = pattern_colors[pattern_digit as usize];
                pattern_colors.set(pattern_digit as usize, seen_in_pattern + 1);
                let seen_in_guess = guess_colors[guess_digit as usize];
                guess_colors.set(guess_digit as usize, seen_in_guess + 1);
            }
            hole += 1;
        }
        let mut color_count: u32 = 0;
        let mut color: u32 = 0;
        while color < colors
            invariant
                colors == self.color_count,
                holes == self.hole_count,
                a == self.digits(pattern),
                b == self.digits(guess),
                a.len() == holes,
                b.len() == holes,
                color <= colors,
                pattern_colors.len() == colors,
                guess_colors.len() == colors,
                exact_count == exact_matches(a, b),
                color_count == color_matches(a, b, color as nat),
                exact_count + color_count <= holes,
                forall|c: int|
                    0 <= c < colors ==> unmatched_count(a, b, c) == #[trigger] pattern_colors[c],
                forall|c: int|
                    0 <= c < colors ==> unmatched_count(b, a, c) == #[trigger] guess_colors[c],
            decreases colors - color,
        {
            proof {
                lemma_match_bound(a, b, (color + 1) as nat);
            }
            let in_pattern = pattern_colors[color as usize];
            let in_guess = guess_colors[color as usize];
            if in_pattern <= in_guess {
                color_count += in_pattern;
            } else {
                color_count += in_guess;
            }
            color += 1;
        }
        MatchKeys { exact_count, color_count }
    }

    /// Feedback does not depend on which of the two patterns is the guess.
    pub proof fn lemma_match_symmetric(&self, pattern: u32, guess: u32)
        ensures
            self.match_spec(pattern, guess) == self.match_spec(guess, pattern),
    {
        lemma_exact_symmetric(self.digits(pattern), self.digits(guess));
        lemma_color_symmetric(self.digits(pattern), self.digits(guess), self.color_count as nat);
    }

    /// Exact and colour matches together never exceed the number of holes,
    /// and the two counts of the feedback are those of the digit sequences.
    pub proof fn lemma_match_within_holes(&self, pattern: u32, guess: u32)
        ensures
            self.match_spec(pattern, guess).exact_count + self.match_spec(
                pattern,
                guess,
            ).color_count <= self.hole_count,
            self.match_spec(pattern, guess).exact_count == exact_matches(
                self.digits(pattern),
                self.digits(guess),
            ),
            self.match_spec(pattern, guess).color_count == color_matches(
                self.digits(pattern),
                self.digits(guess),
                self.color_count as nat,
            ),
    {
        lemma_numeral_len(pattern as int, self.color_count as int, self.hole_count as nat);
        lemma_numeral_len(guess as int, self.color_count as int, self.hole_count as nat);
        lemma_match_bound(self.digits(pattern), self.digits(guess), self.color_count as nat);
    }

    /// A pattern guessed against itself is exact in every hole.
    pub proof fn lemma_match_with_itself(&self, pattern: u32)
        ensures
            self.match_spec(pattern, pattern) == self.solved_keys(),
    {
        lemma_numeral_len(pattern as int, self.color_count as int, self.hole_count as nat);
        lemma_match_self(self.digits(pattern), self.color_count as nat);
    }

    /// Only a pattern itself is exact in every hole: two patterns of the
    /// board whose feedback says "solved" are one pattern.
    pub proof fn lemma_solved_means_equal(&self, pattern: u32, guess: u32)
        requires
            self.color_count > 0,
            pattern < self.pattern_count(),
            guess < self.pattern_count(),
            self.match_spec(pattern, guess) == self.solved_keys(),
        ensures
            pattern == guess,
    {
        self.lemma_match_within_holes(pattern, guess);
        lemma_numeral_len(pattern as int, self.color_count as int, self.hole_count as nat);
        lemma_numeral_len(guess as int, self.color_count as int, self.hole_count as nat);
        lemma_exact_everywhere(self.digits(pattern), self.digits(guess));
        lemma_numeral_injective(
            pattern as int,
            guess as int,
            self.color_count as int,
            self.hole_count as nat,
        );
    }

    /// A board with two or more patterns, all numbered in `u32`, has at
    /// least two colours and at most 31 holes.
    pub proof fn lemma_small_board(&self)
        requires
            2 <= self.pattern_count() <= u32::MAX,
        ensures
            self.color_count >= 2,
            self.hole_count <= 31,
    {
        let holes = self.hole_count as nat;
        if self.color_count == 0 {
            if holes == 0 {
                lemma_pow0(0);
            } else {
                lemma0_pow(holes);
            }
        } else if self.color_count == 1 {
            lemma1_pow(holes);
        } else if holes >= 32 {
            lemma_pow_increases(self.color_count as nat, 32, holes);
            lemma_pow_base_increases(2, self.color_count as nat, 32);
            lemma2_to64();
        }
    }
}

/// `base ^ exponent`, or `None` where that does not fit in `u32`.
fn checked_power(base: u32, exponent: u32) -> (power: Option<u32>)
    ensures
        match power {
            Some(p) => p == pow(base as int, exponent as nat),
            None => pow(base as int, exponent as nat) > u32::MAX,
        },
{
    if base == 0 {
        if exponent == 0 {
            proof {
                lemma_pow0(0);
            }
            Some(1)
        } else {
            proof {
                lemma0_pow(exponent as nat);
            }
            Some(0)
        }
    } else if base == 1 {
        proof {
            lemma1_pow(exponent as nat);
        }
        Some(1)
    } else {
        let mut power: u32 = 1;
        let mut done: u32 = 0;
        proof {
            lemma_pow0(base as int);
        }
        while done < exponent
            invariant
                base >= 2,
                done <= exponent,
                power == pow(base as int, done as nat),
            decreases exponent - done,
        {
            proof {
                lemma_pow_step(base as int, done as nat);
            }
            match power.checked_mul(base) {
                Some(next) => {
                    assert(base * power == power * base) by (nonlinear_arith);
                    power = next;
                    done += 1;
                },
                None => {
                    proof {
                        assert(base * power == power * base) by (nonlinear_arith);
                        lemma_pow_increases(base as nat, (done + 1) as nat, exponent as nat);
                    }
                    return None;
                },
            }
        }
        Some(power)
    }
}

/// Peeling the last hole off two numerals of one width: the counts for the
/// whole are the counts for the rest plus what the last hole adds.
proof fn lemma_match_step(pattern: int, guess: int, base: int, width: nat)
    requires
        base > 0,
        width > 0,
    ensures
        exact_matches(numeral(pattern, base, width), numeral(guess, base, width)) == exact_matches(
            numeral(pattern / base, base, (width - 1) as nat),
            numeral(guess / base, base, (width - 1) as nat),
        ) + if pattern % base == guess % base {
            1nat
        } else {
            0nat
        },
        forall|c: int|
            #[trigger] unmatched_count(
                numeral(pattern, base, width),
                numeral(guess, base, width),
                c,
            ) == unmatched_count(
                numeral(pattern / base, base, (width - 1) as nat),
                numeral(guess / base, base, (width - 1) as nat),
                c,
            ) + if pattern % base == c && guess % base != c {
                1nat
            } else {
                0nat
            },
{
    let shorter = (width - 1) as nat;
    let pattern_high = numeral(pattern / base, base, shorter);
    let guess_high = numeral(guess / base, base, shorter);
    assert(pattern_high.push(pattern % base).drop_last() =~= pattern_high);
    assert(guess_high.push(guess % base).drop_last() =~= guess_high);
}

/// A larger base gives a larger power.
proof fn lemma_pow_base_increases(small: nat, large: nat, exponent: nat)
    requires
        small <= large,
    ensures
        0 <= pow(small as int, exponent) <= pow(large as int, exponent),
    decreases exponent,
{
    if exponent == 0 {
        lemma_pow0(small as int);
        lemma_pow0(large as int);
    } else {
        let less = (exponent - 1) as nat;
        lemma_pow_base_increases(small, large, less);
        lemma_pow_step(small as int, less);
        lemma_pow_step(large as int, less);
        let low = pow(small as int, less);
        let high = pow(large as int, less);
        assert(0 <= small * low <= large * high) by (nonlinear_arith)
            requires
                0 <= small <= large,
                0 <= low <= high,
        ;
    }
}

} // verus!
