//! The feedback matrix: the feedback between every two patterns of a board,
//! computed once so that the solver can look it up.

use crate::board::Board;
use crate::feedback::MatchKeys;
use vstd::prelude::*;

verus! {

/// `table` holds, for every two patterns of `board`, their feedback: it is
/// square, with one row and one column per pattern.
pub open spec fn is_match_table(board: Board, table: Seq<Vec<MatchKeys>>) -> bool {
    &&& table.len() == board.pattern_count()
    &&& forall|pattern: int|
        0 <= pattern < table.len() ==> (#[trigger] table[pattern]).len() == table.len()
    &&& forall|pattern: int, guess: int|
        0 <= pattern < table.len() && 0 <= guess < table.len() ==> #[trigger] table[pattern][guess]
            == board.match_spec(pattern as u32, guess as u32)
}

/// Builds the feedback matrix of `board`, one `compute_match` per ordered pair
/// of patterns. The matrix is symmetric.
pub fn compute_all_matches(board: &Board) -> (table: Vec<Vec<MatchKeys>>)
    requires
        board.color_count > 0,
        board.pattern_count() <= u32::MAX,
    ensures
        is_match_table(*board, table@),
        forall|pattern: int, guess: int|
            0 <= pattern < table.len() && 0 <= guess < table.len() ==> #[trigger] table[pattern][guess]
                == table[guess][pattern],
{
    let pattern_count = board.total_pattern_count();
    let mut table: Vec<Vec<MatchKeys>> = Vec::new();
    let mut pattern: u32 = 0;
    while pattern < pattern_count
        invariant
            board.color_count > 0,
            pattern_count == board.pattern_count(),
            pattern <= pattern_count,
            table.len() == pattern,
            forall|p: int| 0 <= p < table.len() ==> (#[trigger] table[p]).len() == pattern_count,
            forall|p: int, g: int|
                0 <= p < table.len() && 0 <= g < pattern_count ==> #[trigger] table[p][g]
                    == board.match_spec(p as u32, g as u32),
        decreases pattern_count - pattern,
    {
        let mut row: Vec<MatchKeys> = Vec::new();
        let mut guess: u32 = 0;
        while guess < pattern_count
            invariant
                board.color_count > 0,
                guess <= pattern_count,
                row.len() == guess,
                forall|g: int|
                    0 <= g < row.len() ==> #[trigger] row[g] == board.match_spec(
                        pattern,
                        g as u32,
                    ),
            decreases pattern_count - guess,
        {
            row.push(board.compute_match(pattern, guess));
            guess += 1;
        }
        table.push(row);
        pattern += 1;
    }
    proof {
        assert forall|p: int, g: int|
            0 <= p < table.len() && 0 <= g < table.len() implies #[trigger] table[p][g]
            == table[g][p] by {
            board.lemma_match_symmetric(p as u32, g as u32);
        }
    }
    table
}

} // verus!
