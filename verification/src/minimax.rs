//! The choice of the next guess: among all patterns of the board, the first
//! whose worst case is smallest, ties broken by the sum of squared group
//! sizes.

use crate::board::Board;
use crate::scoring::{row_max, total_length};
use vstd::prelude::*;

verus! {

/// The two numbers a guess is judged by: its largest group, then the sum of
/// its squared group sizes.
pub open spec fn score(board: Board, candidates: Seq<u32>, guess: u32) -> (nat, nat) {
    (row_max(board, candidates, guess), total_length(board, candidates, guess))
}

/// `a` is strictly better than `b`: a smaller largest group, or the same
/// largest group and a smaller sum of squares.
pub open spec fn better(a: (nat, nat), b: (nat, nat)) -> bool {
    a.0 < b.0 || (a.0 == b.0 && a.1 < b.1)
}

/// `guess` is the pattern the solver plays: no pattern of the board scores
/// strictly better, and every smaller pattern scores strictly worse.
pub open spec fn is_minimax_guess(board: Board, candidates: Seq<u32>, guess: u32) -> bool {
    &&& guess < board.pattern_count()
    &&& forall|other: u32|
        other < board.pattern_count() ==> !better(
            #[trigger] score(board, candidates, other),
            score(board, candidates, guess),
        )
    &&& forall|other: u32|
        other < guess ==> better(
            score(board, candidates, guess),
            #[trigger] score(board, candidates, other),
        )
}

/// The pattern the solver plays against `candidates`.
pub open spec fn minimax_guess(board: Board, candidates: Seq<u32>) -> u32 {
    choose|guess: u32| is_minimax_guess(board, candidates, guess)
}

/// The best of the patterns `0 .. bound`, the first found winning ties.
pub open spec fn first_best_below(board: Board, candidates: Seq<u32>, bound: nat) -> u32
    decreases bound,
{
    if bound <= 1 {
        0
    } else {
        let last = (bound - 1) as nat;
        let best = first_best_below(board, candidates, last);
        if better(score(board, candidates, last as u32), score(board, candidates, best)) {
            last as u32
        } else {
            best
        }
    }
}

/// The best of the patterns `0 .. bound` is one of them, none of them is
/// strictly better, and those before it are strictly worse.
pub proof fn lemma_first_best_below(board: Board, candidates: Seq<u32>, bound: nat)
    requires
        1 <= bound <= u32::MAX,
    ensures
        first_best_below(board, candidates, bound) < bound,
        forall|other: u32|
            other < bound ==> !better(
                #[trigger] score(board, candidates, other),
                score(board, candidates, first_best_below(board, candidates, bound)),
            ),
        forall|other: u32|
            other < first_best_below(board, candidates, bound) ==> better(
                score(board, candidates, first_best_below(board, candidates, bound)),
                #[trigger] score(board, candidates, other),
            ),
    decreases bound,
{
    if bound > 1 {
        lemma_first_best_below(board, candidates, (bound - 1) as nat);
    }
}

/// On a board with at least one pattern the solver's choice exists.
pub proof fn lemma_minimax_guess_exists(board: Board, candidates: Seq<u32>)
    requires
        1 <= board.pattern_count() <= u32::MAX,
    ensures
        is_minimax_guess(board, candidates, minimax_guess(board, candidates)),
{
    lemma_first_best_below(board, candidates, board.pattern_count() as nat);
    assert(is_minimax_guess(
        board,
        candidates,
        first_best_below(board, candidates, board.pattern_count() as nat),
    ));
}

/// The solver's choice is determined: two patterns that both qualify are one.
pub proof fn lemma_minimax_guess_unique(board: Board, candidates: Seq<u32>, a: u32, b: u32)
    requires
        is_minimax_guess(board, candidates, a),
        is_minimax_guess(board, candidates, b),
    ensures
        a == b,
{
    if a < b {
        assert(better(score(board, candidates, b), score(board, candidates, a)));
        assert(!better(score(board, candidates, b), score(board, candidates, a)));
    } else if b < a {
        assert(better(score(board, candidates, a), score(board, candidates, b)));
        assert(!better(score(board, candidates, a), score(board, candidates, b)));
    }
}

} // verus!
