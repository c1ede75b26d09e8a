//! The solver: a board, its feedback matrix, and the patterns that are still
//! consistent with everything observed.

use crate::board::Board;
use crate::error::GameError;
use crate::feedback::MatchKeys;
use crate::matrix::{compute_all_matches, is_match_table};
use crate::minimax::{
    first_best_below, is_minimax_guess, lemma_first_best_below, lemma_minimax_guess_exists,
    lemma_minimax_guess_unique, minimax_guess,
};
use crate::scoring::{
    all_patterns, candidates_valid, consistent, group_size, key_at, key_slot, key_slots,
    largest_group, lemma_candidates_len, lemma_consistent, lemma_group_size_bound,
    lemma_group_size_push, lemma_key_at_slot, lemma_key_slot, lemma_scores_of_short_list,
    lemma_squared_groups_bound,
    row_max, squared_groups, total_length,
};
use vstd::prelude::*;

verus! {

/// What the codebreaker does next.
#[derive(Clone, Copy, Debug, PartialEq, Eq, Structural)]
pub enum Move {
    /// One candidate is left, and it is the code.
    Answer { pattern: u32 },
    /// This pattern is played; `possibles` candidates are left before it.
    Guess { pattern: u32, possibles: u32 },
}

/// What a game is, seen from outside: its board and its candidates.
pub struct GameView {
    /// The board the game is played on.
    pub board: Board,
    /// The patterns still consistent with all feedback, in ascending order.
    pub candidates: Seq<u32>,
}

/// A game in progress.
pub struct Game {
    board: Board,
    matches: Vec<Vec<MatchKeys>>,
    pattern_list: Vec<u32>,
}

impl View for Game {
    type V = GameView;

    closed spec fn view(&self) -> GameView {
        GameView { board: self.board, candidates: self.pattern_list@ }
    }
}

/// The pattern to play against `candidates`: the only candidate where one is
/// left, else the minimax choice over all patterns of the board.
pub open spec fn next_guess(board: Board, candidates: Seq<u32>) -> u32 {
    if candidates.len() == 1 {
        candidates[0]
    } else {
        minimax_guess(board, candidates)
    }
}

impl Game {
    /// The feedback matrix is that of the board.
    pub closed spec fn table_complete(&self) -> bool {
        is_match_table(self.board, self.matches@)
    }

    /// The board is valid, the matrix complete, and the candidates are
    /// patterns of the board in ascending order.
    pub open spec fn wf(&self) -> bool {
        &&& self@.board.valid()
        &&& self.table_complete()
        &&& candidates_valid(self@.board, self@.candidates)
    }

    /// A new game on a board of `color_count` colours and `hole_count`
    /// holes: every pattern is a candidate.
    pub fn new(color_count: u32, hole_count: u32) -> (game: Game)
        requires
            (Board { color_count, hole_count }).valid(),
        ensures
            game.wf(),
            game@.board == (Board { color_count, hole_count }),
            game@.candidates == all_patterns(game@.board),
    {
        let board = Board::new(color_count, hole_count);
        let matches = compute_all_matches(&board);
        let pattern_count = board.total_pattern_count();
        let mut pattern_list: Vec<u32> = Vec::new();
        let mut pattern: u32 = 0;
        while pattern < pattern_count
            invariant
                pattern <= pattern_count,
                pattern_list.len() == pattern,
                forall|i: int| 0 <= i < pattern_list.len() ==> #[trigger] pattern_list[i] == i,
            decreases pattern_count - pattern,
        {
            pattern_list.push(pattern);
            pattern += 1;
        }
        assert(pattern_list@ =~= all_patterns(board));
        Game { board, matches, pattern_list }
    }

    /// The board the game is played on.
    pub fn board(&self) -> (board: Board)
        ensures
            board == self@.board,
    {
        self.board
    }

    /// The patterns still consistent with all feedback, in ascending order.
    pub fn candidates(&self) -> (candidates: &Vec<u32>)
        ensures
            candidates@ == self@.candidates,
    {
        &self.pattern_list
    }

    /// How `guess` would split the candidates: the size of its largest group
    /// and the sum of its squared group sizes.
    pub fn score_guess(&self, guess: u32) -> (result: (u32, u64))
        requires
            self.wf(),
            guess < self@.board.pattern_count(),
        ensures
            result.0 == row_max(self@.board, self@.candidates, guess),
            result.1 == total_length(self@.board, self@.candidates, guess),
    {
        let ghost board = self.board;
        let ghost candidates = self.pattern_list@;
        let ghost holes = self.board.hole_count as nat;
        proof {
            lemma_candidates_len(board, candidates);
        }
        if self.pattern_list.len() <= 1 {
            proof {
                lemma_scores_of_short_list(board, candidates, guess);
            }
            return (self.pattern_list.len() as u32, self.pattern_list.len() as u64);
        }
        proof {
            board.lemma_small_board();
        }
        let width: usize = self.board.hole_count as usize + 1;
        assert(width * width <= 1024) by (nonlinear_arith)
            requires
                width <= 32,
        ;
        let slots: usize = width * width;
        let mut counts: Vec<u32> = vec![0u32; slots];
        let row = &self.matches[guess as usize];
        let mut seen: usize = 0;
        assert forall|slot: int| 0 <= slot < slots implies #[trigger] counts[slot] == group_size(
            board,
            candidates.take(0),
            guess,
            key_at(holes, slot as nat),
        ) by {
            lemma_group_size_bound(board, candidates.take(0), guess, key_at(holes, slot as nat));
        }
        while seen < self.pattern_list.len()
            invariant
                self.wf(),
                board == self.board,
                candidates == self.pattern_list@,
                holes == self.board.hole_count,
                holes <= 31,
                width == holes + 1,
                slots == key_slots(holes),
                counts.len() == slots,
                guess < board.pattern_count(),
                candidates.len() <= u32::MAX,
                row == self.matches[guess as int],
                seen <= candidates.len(),
                forall|slot: int|
                    0 <= slot < slots ==> #[trigger] counts[slot] == group_size(
                        board,
                        candidates.take(seen as int),
                        guess,
                        key_at(holes, slot as nat),
                    ),
            decreases candidates.len() - seen,
        {
            let pattern = self.pattern_list[seen];
            let keys = row[pattern as usize];
            proof {
                board.lemma_match_within_holes(guess, pattern);
                lemma_key_slot(holes, keys);
                assert(keys.exact_count * width + keys.color_count == key_slot(holes, keys));
                assert(candidates.take(seen + 1) =~= candidates.take(seen as int).push(pattern));
            }
            let slot = keys.exact_count as usize * width + keys.color_count as usize;
            proof {
                lemma_group_size_bound(board, candidates.take(seen as int), guess, keys);
            }
            let count = counts[slot];
            counts.set(slot, count + 1);
            proof {
                assert forall|other: int| 0 <= other < slots implies #[trigger] counts[other]
                    == group_size(
                    board,
                    candidates.take(seen + 1),
                    guess,
                    key_at(holes, other as nat),
                ) by {
                    lemma_group_size_push(
                        board,
                        candidates.take(seen as int),
                        pattern,
                        guess,
                        key_at(holes, other as nat),
                    );
                    lemma_key_at_slot(holes, other as nat);
                }
            }
            seen += 1;
        }
        assert(candidates.take(seen as int) =~= candidates);
        let mut largest: u32 = 0;
        let mut squares: u64 = 0;
        let mut slot: usize = 0;
        while slot < slots
            invariant
                board == self.board,
                holes == self.board.hole_count,
                slots == key_slots(holes),
                counts.len() == slots,
                slot <= slots,
                candidates.len() <= u32::MAX,
                largest == largest_group(board, candidates, guess, slot as nat),
                squares == squared_groups(board, candidates, guess, slot as nat),
                forall|slot: int|
                    0 <= slot < slots ==> #[trigger] counts[slot] == group_size(
                        board,
                        candidates,
                        guess,
                        key_at(holes, slot as nat),
                    ),
            decreases slots - slot,
        {
            let size = counts[slot];
            proof {
                lemma_squared_groups_bound(board, candidates, guess, (slot + 1) as nat);
                let n = candidates.len();
                assert(n * n <= u64::MAX) by (nonlinear_arith)
                    requires
                        n <= u32::MAX,
                ;
            }
            if size > largest {
                largest = size;
            }
            squares = squares + (size as u64) * (size as u64);
            slot += 1;
        }
        (largest, squares)
    }

    /// The next guess, and the number of candidates before it is played.
    ///
    /// With one candidate left that candidate is the answer. With more, every
    /// pattern of the board is scored and the first with the best score is
    /// played. With none, the feedback received was inconsistent.
    pub fn get_guess(&self) -> (result: Result<(u32, u32), GameError>)
        requires
            self.wf(),
        ensures
            match result {
                Ok((guess, possibles)) => {
                    &&& self@.candidates.len() >= 1
                    &&& possibles == self@.candidates.len()
                    &&& guess == next_guess(self@.board, self@.candidates)
                    &&& guess < self@.board.pattern_count()
                    &&& self@.candidates.len() == 1 ==> guess == self@.candidates[0]
                    &&& self@.candidates.len() >= 2 ==> is_minimax_guess(
                        self@.board,
                        self@.candidates,
                        guess,
                    )
                },
                Err(error) => error == GameError::InconsistentFeedback && self@.candidates.len()
                    == 0,
            },
    {
        let ghost board = self.board;
        let ghost candidates = self.pattern_list@;
        proof {
            lemma_candidates_len(board, candidates);
        }
        let possibles = self.pattern_list.len();
        if possibles == 0 {
            return Err(GameError::InconsistentFeedback);
        }
        if possibles == 1 {
            return Ok((self.pattern_list[0], 1));
        }
        let pattern_count = self.board.total_pattern_count();
        let mut best_guess: u32 = 0;
        let mut best = self.score_guess(0);
        let mut guess: u32 = 1;
        while guess < pattern_count
            invariant
                self.wf(),
                board == self.board,
                candidates == self.pattern_list@,
                candidates.len() >= 2,
                pattern_count == board.pattern_count(),
                1 <= guess <= pattern_count,
                best_guess == first_best_below(board, candidates, guess as nat),
                best.0 == row_max(board, candidates, best_guess),
                best.1 == total_length(board, candidates, best_guess),
            decreases pattern_count - guess,
        {
            let found = self.score_guess(guess);
            if found.0 < best.0 || (found.0 == best.0 && found.1 < best.1) {
                best = found;
                best_guess = guess;
            }
            guess += 1;
        }
        proof {
            lemma_first_best_below(board, candidates, pattern_count as nat);
            assert(is_minimax_guess(board, candidates, best_guess));
            lemma_minimax_guess_exists(board, candidates);
            lemma_minimax_guess_unique(
                board,
                candidates,
                best_guess,
                minimax_guess(board, candidates),
            );
        }
        Ok((best_guess, possibles as u32))
    }

    /// Keeps the candidates that would have answered `guess` with
    /// `match_keys` and drops the others.
    pub fn apply_match(&mut self, guess: u32, match_keys: MatchKeys)
        requires
            old(self).wf(),
            guess < old(self)@.board.pattern_count(),
        ensures
            final(self).wf(),
            final(self)@.board == old(self)@.board,
            final(self)@.candidates == consistent(
                old(self)@.board,
                old(self)@.candidates,
                guess,
                match_keys,
            ),
            final(self)@.candidates.len() <= old(self)@.candidates.len(),
            forall|pattern: u32|
                #![trigger final(self)@.candidates.contains(pattern)]
                #![trigger old(self)@.candidates.contains(pattern)]
                final(self)@.candidates.contains(pattern) <==> old(self)@.candidates.contains(
                    pattern,
                ) && old(self)@.board.match_spec(guess, pattern) == match_keys,
    {
        let ghost board = self.board;
        let ghost candidates = self.pattern_list@;
        let ghost pred = |pattern: u32| board.match_spec(guess, pattern) == match_keys;
        let mut kept: Vec<u32> = Vec::new();
        let mut seen: usize = 0;
        proof {
            candidates.take(0).lemma_filter_len(pred);
        }
        while seen < self.pattern_list.len()
            invariant
                self.wf(),
                board == self.board,
                candidates == self.pattern_list@,
                pred == (|pattern: u32| board.match_spec(guess, pattern) == match_keys),
                guess < board.pattern_count(),
                seen <= candidates.len(),
                kept@ == candidates.take(seen as int).filter(pred),
            decreases candidates.len() - seen,
        {
            let pattern = self.pattern_list[seen];
            proof {
                assert(candidates.take(seen + 1) =~= candidates.take(seen as int).push(pattern));
                candidates.take(seen as int).lemma_filter_push(pattern, pred);
            }
            if self.matches[guess as usize][pattern as usize] == match_keys {
                kept.push(pattern);
            }
            seen += 1;
        }
        proof {
            assert(candidates.take(seen as int) =~= candidates);
            lemma_consistent(board, candidates, guess, match_keys);
        }
        self.pattern_list = kept;
    }

    /// The next move: the answer where one candidate is left, else the guess
    /// that `get_guess` chooses.
    pub fn next_move(&self) -> (result: Result<Move, GameError>)
        requires
            self.wf(),
        ensures
            match result {
                Ok(Move::Answer { pattern }) => self@.candidates.len() == 1 && pattern
                    == self@.candidates[0],
                Ok(Move::Guess { pattern, possibles }) => {
                    &&& self@.candidates.len() >= 2
                    &&& possibles == self@.candidates.len()
                    &&& pattern == next_guess(self@.board, self@.candidates)
                    &&& is_minimax_guess(self@.board, self@.candidates, pattern)
                },
                Err(error) => error == GameError::InconsistentFeedback && self@.candidates.len()
                    == 0,
            },
    {
        match self.get_guess() {
            Ok((pattern, possibles)) => {
                if possibles == 1 {
                    Ok(Move::Answer { pattern })
                } else {
                    Ok(Move::Guess { pattern, possibles })
                }
            },
            Err(error) => Err(error),
        }
    }

    /// Takes the feedback that `guess` received. Feedback that is exact in
    /// every hole ends the game and leaves the candidates as they are; any
    /// other feedback filters them. Returns whether the game has ended.
    pub fn take_feedback(&mut self, guess: u32, match_keys: MatchKeys) -> (finished: bool)
        requires
            old(self).wf(),
            guess < old(self)@.board.pattern_count(),
        ensures
            final(self).wf(),
            final(self)@.board == old(self)@.board,
            finished == (match_keys == old(self)@.board.solved_keys()),
            finished ==> final(self)@.candidates == old(self)@.candidates,
            !finished ==> final(self)@.candidates == consistent(
                old(self)@.board,
                old(self)@.candidates,
                guess,
                match_keys,
            ),
    {
        if self.board.is_solved(match_keys) {
            true
        } else {
            self.apply_match(guess, match_keys);
            false
        }
    }
}

} // verus!
