//! Patterns as text: each colour is written as one symbol of an alphabet,
//! first hole first.

use crate::board::Board;
use crate::error::GameError;
use crate::numeral::{
    digits_in_base, lemma_numeral_digits, lemma_numeral_len, lemma_numeral_of_value,
    lemma_value_of_numeral, numeral, numeral_value,
};
use vstd::arithmetic::power::{lemma_pow0, lemma_pow_increases};
use vstd::prelude::*;

verus! {

/// The symbols that stand for `digits` in `alphabet`.
pub open spec fn symbols_of(digits: Seq<int>, alphabet: Seq<char>) -> Seq<char> {
    Seq::new(digits.len(), |i: int| alphabet[digits[i]])
}

/// Every symbol of `text` occurs in `alphabet`.
pub open spec fn symbols_known(text: Seq<char>, alphabet: Seq<char>) -> bool {
    forall|i: int| 0 <= i < text.len() ==> alphabet.contains(#[trigger] text[i])
}

/// The digits that the symbols of `text` stand for: each symbol's first
/// position in `alphabet`.
pub open spec fn digits_of(text: Seq<char>, alphabet: Seq<char>) -> Seq<int> {
    Seq::new(text.len(), |i: int| alphabet.index_of_first(text[i]).unwrap())
}

impl Board {
    /// The text of `pattern` in `alphabet`, first hole first.
    pub open spec fn text_of(&self, pattern: u32, alphabet: Seq<char>) -> Seq<char> {
        symbols_of(self.digits(pattern), alphabet)
    }

    /// The number that `text` denotes in `alphabet`, if all its symbols are
    /// known: the digits are folded, first hole first, by
    /// `value * color_count + digit`.
    pub open spec fn pattern_of(&self, text: Seq<char>, alphabet: Seq<char>) -> Option<int> {
        if symbols_known(text, alphabet) {
            Some(numeral_value(digits_of(text, alphabet), self.color_count as int))
        } else {
            None
        }
    }

    /// Writes `pattern` with the symbols of `color_chars`, one per hole, first
    /// hole first.
    pub fn pattern_to_string(&self, pattern: u32, color_chars: &[char]) -> (text: String)
        requires
            self.color_count > 0,
            color_chars@.len() == self.color_count,
        ensures
            text@ == self.text_of(pattern, color_chars@),
            text@.len() == self.hole_count,
    {
        let colors = self.color_count;
        let holes = self.hole_count;
        let ghost digits = self.digits(pattern);
        proof {
            lemma_numeral_len(pattern as int, colors as int, holes as nat);
            assert(digits.take(holes as int) =~= digits);
        }
        let mut last_first: Vec<char> = Vec::new();
        let mut rest = pattern;
        let mut hole: u32 = 0;
        while hole < holes
            invariant
                colors == self.color_count,
                holes == self.hole_count,
                colors > 0,
                color_chars@.len() == colors,
                digits == self.digits(pattern),
                digits.len() == holes,
                hole <= holes,
                last_first.len() == hole,
                digits.take(holes - hole) == numeral(
                    rest as int,
                    colors as int,
                    (holes - hole) as nat,
                ),
                forall|j: int|
                    0 <= j < hole ==> #[trigger] last_first[j] == color_chars@[digits[holes - 1
                        - j]],
            decreases holes - hole,
        {
            let digit = rest % colors;
            proof {
                let width = (holes - hole) as nat;
                let high = numeral(rest as int / colors as int, colors as int, (width - 1) as nat);
                assert(high.push(rest as int % colors as int).drop_last() =~= high);
                assert(digits.take(width as int).drop_last() =~= digits.take(width - 1));
                assert(digits.take(width as int).last() == digits[width - 1]);
            }
            rest = rest / colors;
            last_first.push(color_chars[digit as usize]);
            hole += 1;
        }
        let mut text = String::new();
        let mut left: usize = last_first.len();
        while left > 0
            invariant
                holes == self.hole_count,
                digits.len() == holes,
                last_first.len() == holes,
                left <= holes,
                text@ == self.text_of(pattern, color_chars@).take(holes - left),
                digits == self.digits(pattern),
                forall|j: int|
                    0 <= j < holes ==> #[trigger] last_first[j] == color_chars@[digits[holes - 1
                        - j]],
            decreases left,
        {
            left -= 1;
            text.push(last_first[left]);
            proof {
                let whole = self.text_of(pattern, color_chars@);
                assert(whole.take(holes - left) =~= whole.take(holes - left - 1).push(
                    whole[holes - left - 1],
                ));
            }
        }
        proof {
            let whole = self.text_of(pattern, color_chars@);
            assert(whole.take(holes as int) =~= whole);
        }
        text
    }

    /// Reads a pattern from its text: each symbol stands for its first
    /// position in `color_chars`. Fails where a symbol is not in the alphabet.
    pub fn string_to_pattern(&self, s: &str, color_chars: &[char]) -> (pattern: Result<
        u32,
        GameError,
    >)
        requires
            self.color_count > 0,
            self.pattern_count() <= u32::MAX,
            color_chars@.len() == self.color_count,
            s@.len() <= self.hole_count,
        ensures
            match self.pattern_of(s@, color_chars@) {
                Some(value) => pattern == Ok::<u32, GameError>(value as u32) && 0 <= value
                    < self.pattern_count(),
                None => pattern == Err::<u32, GameError>(GameError::UnknownSymbol),
            },
    {
        let colors = self.color_count;
        let mut value: u32 = 0;
        let ghost alphabet = color_chars@;
        proof {
            assert(digits_of(s@.take(0), alphabet) =~= Seq::<int>::empty());
            lemma_pow0(colors as int);
        }
        for symbol in symbols: s.chars()
            invariant
                colors == self.color_count,
                colors > 0,
                self.pattern_count() <= u32::MAX,
                alphabet == color_chars@,
                alphabet.len() == colors,
                symbols.seq() == s@,
                s@.len() <= self.hole_count,
                symbols_known(s@.take(symbols.index() as int), alphabet),
                digits_in_base(digits_of(s@.take(symbols.index() as int), alphabet), colors as int),
                value == numeral_value(
                    digits_of(s@.take(symbols.index() as int), alphabet),
                    colors as int,
                ),
        {
            let ghost read = symbols.index() as int;
            let ghost before = digits_of(s@.take(read), alphabet);
            match find_symbol(color_chars, symbol) {
                Some(digit) => {
                    proof {
                        let after = digits_of(s@.take(read + 1), alphabet);
                        assert(s@.take(read + 1) =~= s@.take(read).push(symbol));
                        assert(after =~= before.push(digit as int));
                        assert(after.drop_last() =~= before);
                        assert(symbols_known(s@.take(read + 1), alphabet)) by {
                            assert(alphabet[digit as int] == symbol);
                        }
                        lemma_numeral_of_value(after, colors as int);
                        lemma_pow_increases(
                            colors as nat,
                            (read + 1) as nat,
                            self.hole_count as nat,
                        );
                    }
                    value = value * colors + digit as u32;
                },
                None => {
                    proof {
                        alphabet.index_of_first_ensures(symbol);
                        assert(s@[read] == symbol);
                    }
                    return Err(GameError::UnknownSymbol);
                },
            }
        }
        proof {
            assert(s@.take(s@.len() as int) =~= s@);
            lemma_numeral_of_value(digits_of(s@, alphabet), colors as int);
            lemma_pow_increases(colors as nat, s@.len(), self.hole_count as nat);
        }
        Ok(value)
    }

    /// Writing a pattern of the board and reading the text back gives the
    /// pattern, for every alphabet of `color_count` distinct symbols.
    pub proof fn lemma_text_round_trip(&self, pattern: u32, alphabet: Seq<char>)
        requires
            self.color_count > 0,
            pattern < self.pattern_count(),
            alphabet.len() == self.color_count,
            alphabet.no_duplicates(),
        ensures
            self.pattern_of(self.text_of(pattern, alphabet), alphabet) == Some(pattern as int),
    {
        let digits = self.digits(pattern);
        let text = self.text_of(pattern, alphabet);
        lemma_numeral_len(pattern as int, self.color_count as int, self.hole_count as nat);
        lemma_numeral_digits(pattern as int, self.color_count as int, self.hole_count as nat);
        assert forall|i: int| 0 <= i < text.len() implies alphabet.contains(#[trigger] text[i])
            && alphabet.index_of_first(text[i]) == Some(digits[i]) by {
            assert(alphabet[digits[i]] == text[i]);
            alphabet.index_of_first_ensures(text[i]);
        }
        assert(digits_of(text, alphabet) =~= digits);
        lemma_value_of_numeral(pattern as int, self.color_count as int, self.hole_count as nat);
    }
}

/// The first position of `symbol` in `alphabet`, if it occurs there.
fn find_symbol(alphabet: &[char], symbol: char) -> (position: Option<usize>)
    ensures
        match position {
            Some(i) => alphabet@.index_of_first(symbol) == Some(i as int) && i < alphabet@.len()
                && alphabet@[i as int] == symbol,
            None => !alphabet@.contains(symbol),
        },
{
    let mut i: usize = 0;
    while i < alphabet.len()
        invariant
            i <= alphabet@.len(),
            forall|j: int| 0 <= j < i ==> alphabet@[j] != symbol,
        decreases alphabet@.len() - i,
    {
        if alphabet[i] == symbol {
            proof {
                alphabet@.index_of_first_ensures(symbol);
            }
            return Some(i);
        }
        i += 1;
    }
    None
}

} // verus!
