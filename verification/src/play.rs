//! Whole games against a known code: how the candidates shrink turn by turn,
//! that they always close in on the code, and how many guesses that takes.

use crate::board::Board;
use crate::feedback::MatchKeys;
use crate::game::{next_guess, Game, Move};
use crate::minimax::{better, is_minimax_guess, lemma_minimax_guess_exists, minimax_guess, score};
use crate::scoring::{
    all_patterns, candidates_valid, consistent, group_size, lemma_all_patterns_valid,
    lemma_candidates_len, lemma_consistent, lemma_group_leaves_out, lemma_group_within_row_max,
    lemma_row_max_attained, row_max,
};
use vstd::arithmetic::power::lemma_pow_positive;
use vstd::prelude::*;

verus! {

/// The candidates after one turn against `code`: the solver's guess is
/// answered with its feedback against `code`, and the candidates are filtered
/// by that answer.
pub open spec fn after_turn(board: Board, candidates: Seq<u32>, code: u32) -> Seq<u32> {
    let guess = next_guess(board, candidates);
    consistent(board, candidates, guess, board.match_spec(guess, code))
}

/// The candidates after up to `turns` turns against `code`; play stops once
/// at most one candidate is left.
pub open spec fn after_turns(board: Board, candidates: Seq<u32>, code: u32, turns: nat) -> Seq<u32>
    decreases turns,
{
    if turns == 0 || candidates.len() <= 1 {
        candidates
    } else {
        after_turns(board, after_turn(board, candidates, code), code, (turns - 1) as nat)
    }
}

/// Guessing a candidate always tells it apart from some other candidate: its
/// largest group is smaller than the candidate list.
pub proof fn lemma_candidate_splits(board: Board, candidates: Seq<u32>, i: int)
    requires
        board.valid(),
        candidates_valid(board, candidates),
        candidates.len() >= 2,
        0 <= i < candidates.len(),
    ensures
        row_max(board, candidates, candidates[i]) < candidates.len(),
{
    let guess = candidates[i];
    lemma_row_max_attained(board, candidates, guess);
    let keys = choose|keys: MatchKeys| #[trigger]
        group_size(board, candidates, guess, keys) == row_max(board, candidates, guess);
    if keys == board.solved_keys() {
        let j = if i == 0 {
            1int
        } else {
            0int
        };
        assert(candidates[j] != candidates[i]);
        if board.match_spec(guess, candidates[j]) == keys {
            board.lemma_solved_means_equal(guess, candidates[j]);
        }
        lemma_group_leaves_out(board, candidates, guess, keys, j);
    } else {
        board.lemma_match_with_itself(guess);
        lemma_group_leaves_out(board, candidates, guess, keys, i);
    }
}

/// While two or more candidates are left, a turn removes at least one of
/// them, keeps the list valid, and keeps the code if it was a candidate.
pub proof fn lemma_turn_shrinks(board: Board, candidates: Seq<u32>, code: u32)
    requires
        board.valid(),
        candidates_valid(board, candidates),
        candidates.len() >= 2,
    ensures
        after_turn(board, candidates, code).len() < candidates.len(),
        candidates_valid(board, after_turn(board, candidates, code)),
        candidates.contains(code) ==> after_turn(board, candidates, code).contains(code),
        is_minimax_guess(board, candidates, next_guess(board, candidates)),
{
    lemma_pow_positive(board.color_count as int, board.hole_count as nat);
    lemma_minimax_guess_exists(board, candidates);
    let guess = minimax_guess(board, candidates);
    let keys = board.match_spec(guess, code);
    lemma_candidate_splits(board, candidates, 0);
    assert(!better(score(board, candidates, candidates[0]), score(board, candidates, guess)));
    lemma_group_within_row_max(board, candidates, guess, keys);
    lemma_consistent(board, candidates, guess, keys);
}

/// Once at most one candidate is left, further turns change nothing.
pub proof fn lemma_after_turns_settled(
    board: Board,
    candidates: Seq<u32>,
    code: u32,
    turns: nat,
    more: nat,
)
    requires
        after_turns(board, candidates, code, turns).len() <= 1,
        turns <= more,
    ensures
        after_turns(board, candidates, code, more) == after_turns(board, candidates, code, turns),
    decreases turns,
{
    if turns > 0 && candidates.len() > 1 {
        lemma_after_turns_settled(
            board,
            after_turn(board, candidates, code),
            code,
            (turns - 1) as nat,
            (more - 1) as nat,
        );
    }
}

/// Play against any code among the candidates ends with that code as the
/// only candidate, after fewer turns than there were candidates.
pub proof fn lemma_convergence(board: Board, candidates: Seq<u32>, code: u32)
    requires
        board.valid(),
        candidates_valid(board, candidates),
        candidates.contains(code),
    ensures
        after_turns(board, candidates, code, (candidates.len() - 1) as nat) == seq![code],
    decreases candidates.len(),
{
    if candidates.len() == 1 {
        assert(candidates =~= seq![code]);
    } else {
        let next = after_turn(board, candidates, code);
        lemma_turn_shrinks(board, candidates, code);
        lemma_convergence(board, next, code);
        lemma_after_turns_settled(
            board,
            next,
            code,
            (next.len() - 1) as nat,
            (candidates.len() - 2) as nat,
        );
    }
}

/// A game that starts with every pattern of the board as a candidate ends,
/// for every code of the board, with that code as the only candidate, after
/// fewer turns than the board has patterns.
pub proof fn lemma_convergence_from_start(board: Board, code: u32)
    requires
        board.valid(),
        code < board.pattern_count(),
    ensures
        after_turns(
            board,
            all_patterns(board),
            code,
            (board.pattern_count() - 1) as nat,
        ) == seq![code],
{
    lemma_all_patterns_valid(board);
    assert(all_patterns(board)[code as int] == code);
    lemma_convergence(board, all_patterns(board), code);
}

/// One round of a game against a known code.
#[derive(Clone, Copy, Debug, PartialEq, Eq)]
pub struct Round {
    /// The pattern the solver named.
    pub guess: u32,
    /// The number of candidates before the round.
    pub possibles: u32,
    /// The feedback the guess received; `None` where the solver named the
    /// only candidate left as its answer.
    pub keys: Option<MatchKeys>,
}

/// The rounds of a game against `code` that starts from `candidates`. The
/// game ends with the round in which one candidate is left, or in which the
/// guess is exact in every hole.
pub open spec fn rounds_of(board: Board, candidates: Seq<u32>, code: u32) -> Seq<Round>
    decreases candidates.len(),
    when board.valid() && candidates_valid(board, candidates)
    via rounds_of_decreases
{
    let guess = next_guess(board, candidates);
    if candidates.len() <= 1 {
        seq![Round { guess, possibles: candidates.len() as u32, keys: None }]
    } else {
        let keys = board.match_spec(guess, code);
        let round = Round { guess, possibles: candidates.len() as u32, keys: Some(keys) };
        if keys == board.solved_keys() {
            seq![round]
        } else {
            seq![round] + rounds_of(board, after_turn(board, candidates, code), code)
        }
    }
}

#[via_fn]
proof fn rounds_of_decreases(board: Board, candidates: Seq<u32>, code: u32) {
    if candidates.len() >= 2 {
        lemma_turn_shrinks(board, candidates, code);
    }
}

/// A game takes at least one round and at most as many as there are
/// candidates at its start.
pub proof fn lemma_rounds_bound(board: Board, candidates: Seq<u32>, code: u32)
    requires
        board.valid(),
        candidates_valid(board, candidates),
        candidates.len() >= 1,
        candidates.contains(code),
    ensures
        1 <= rounds_of(board, candidates, code).len() <= candidates.len(),
    decreases candidates.len(),
{
    if candidates.len() >= 2 {
        let guess = next_guess(board, candidates);
        if board.match_spec(guess, code) != board.solved_keys() {
            lemma_turn_shrinks(board, candidates, code);
            lemma_rounds_bound(board, after_turn(board, candidates, code), code);
        }
    }
}

/// The number of guesses the solver needs to find `code` on a board of
/// `hole_count` holes and as many colours as `color_chars` has symbols,
/// counting the final answer.
pub fn count_guesses(hole_count: u32, color_chars: &[char], code: u32) -> (count: u32)
    requires
        color_chars@.len() <= u32::MAX,
        (Board { color_count: color_chars@.len() as u32, hole_count }).valid(),
        code < (Board { color_count: color_chars@.len() as u32, hole_count }).pattern_count(),
    ensures
        ({
            let board = Board { color_count: color_chars@.len() as u32, hole_count };
            &&& count == rounds_of(board, all_patterns(board), code).len()
            &&& 1 <= count <= board.pattern_count()
        }),
{
    let mut game = Game::new(color_chars.len() as u32, hole_count);
    let ghost board = game@.board;
    let ghost start = game@.candidates;
    let mut count: u32 = 0;
    proof {
        lemma_all_patterns_valid(board);
        assert(start[code as int] == code);
    }
    loop
        invariant_except_break
            game.wf(),
            game@.board == board,
            board.valid(),
            board.hole_count == hole_count,
            game@.candidates.contains(code),
            count + game@.candidates.len() <= board.pattern_count(),
            count + rounds_of(board, game@.candidates, code).len() == rounds_of(
                board,
                start,
                code,
            ).len(),
        ensures
            count == rounds_of(board, start, code).len(),
            1 <= count <= board.pattern_count(),
        decreases game@.candidates.len(),
    {
        let ghost candidates = game@.candidates;
        proof {
            lemma_candidates_len(board, candidates);
        }
        count += 1;
        match game.get_guess() {
            Ok((guess, possibles)) => {
                if possibles == 1 {
                    assert(rounds_of(board, candidates, code).len() == 1);
                    break ;
                }
                let keys = game.board().compute_match(guess, code);
                if game.board().is_solved(keys) {
                    assert(rounds_of(board, candidates, code).len() == 1);
                    break ;
                }
                proof {
                    lemma_turn_shrinks(board, candidates, code);
                }
                game.apply_match(guess, keys);
                assert(rounds_of(board, candidates, code).len() == 1 + rounds_of(
                    board,
                    game@.candidates,
                    code,
                ).len());
            },
            Err(_) => {
                break ;
            },
        }
    }
    count
}

/// Plays a whole game against `code` and returns its rounds in order.
pub fn play_code(hole_count: u32, color_chars: &[char], code: u32) -> (rounds: Vec<Round>)
    requires
        color_chars@.len() <= u32::MAX,
        (Board { color_count: color_chars@.len() as u32, hole_count }).valid(),
        code < (Board { color_count: color_chars@.len() as u32, hole_count }).pattern_count(),
    ensures
        ({
            let board = Board { color_count: color_chars@.len() as u32, hole_count };
            rounds@ == rounds_of(board, all_patterns(board), code)
        }),
{
    let mut game = Game::new(color_chars.len() as u32, hole_count);
    let ghost board = game@.board;
    let ghost start = game@.candidates;
    let mut rounds: Vec<Round> = Vec::new();
    proof {
        lemma_all_patterns_valid(board);
        assert(start[code as int] == code);
    }
    loop
        invariant_except_break
            game.wf(),
            game@.board == board,
            board.valid(),
            game@.candidates.contains(code),
            rounds@ + rounds_of(board, game@.candidates, code) == rounds_of(board, start, code),
        ensures
            rounds@ == rounds_of(board, start, code),
        decreases game@.candidates.len(),
    {
        let ghost candidates = game@.candidates;
        let ghost before = rounds@;
        proof {
            lemma_candidates_len(board, candidates);
        }
        match game.next_move() {
            Ok(Move::Answer { pattern }) => {
                rounds.push(Round { guess: pattern, possibles: 1, keys: None });
                assert(rounds@ =~= before + rounds_of(board, candidates, code));
                break ;
            },
            Ok(Move::Guess { pattern, possibles }) => {
                let keys = game.board().compute_match(pattern, code);
                rounds.push(Round { guess: pattern, possibles, keys: Some(keys) });
                proof {
                    lemma_turn_shrinks(board, candidates, code);
                }
                if game.take_feedback(pattern, keys) {
                    assert(rounds@ =~= before + rounds_of(board, candidates, code));
                    break ;
                }
                assert(rounds@ + rounds_of(board, game@.candidates, code) =~= before + rounds_of(
                    board,
                    candidates,
                    code,
                ));
            },
            Err(_) => {
                break ;
            },
        }
    }
    rounds
}

/// The guesses the solver needs for each code of the board: entry `code`
/// is what `count_guesses` returns for it.
pub fn count_all_guesses(hole_count: u32, color_chars: &[char]) -> (counts: Vec<u32>)
    requires
        color_chars@.len() <= u32::MAX,
        (Board { color_count: color_chars@.len() as u32, hole_count }).valid(),
    ensures
        ({
            let board = Board { color_count: color_chars@.len() as u32, hole_count };
            &&& counts@.len() == board.pattern_count()
            &&& forall|code: int|
                0 <= code < counts@.len() ==> #[trigger] counts@[code] == rounds_of(
                    board,
                    all_patterns(board),
                    code as u32,
                ).len()
        }),
{
    let board = Board::new(color_chars.len() as u32, hole_count);
    let pattern_count = board.total_pattern_count();
    let mut counts: Vec<u32> = Vec::new();
    let mut code: u32 = 0;
    while code < pattern_count
        invariant
            color_chars@.len() <= u32::MAX,
            board == (Board { color_count: color_chars@.len() as u32, hole_count }),
            board.valid(),
            pattern_count == board.pattern_count(),
            code <= pattern_count,
            counts@.len() == code,
            forall|done: int|
                0 <= done < counts@.len() ==> #[trigger] counts@[done] == rounds_of(
                    board,
                    all_patterns(board),
                    done as u32,
                ).len(),
        decreases pattern_count - code,
    {
        counts.push(count_guesses(hole_count, color_chars, code));
        code += 1;
    }
    counts
}

/// The largest and the sum of a list of guess counts.
#[derive(Clone, Copy, Debug, PartialEq, Eq, Structural)]
pub struct GuessStatistics {
    /// The largest count; 0 for an empty list.
    pub max_guesses: u32,
    /// The sum of the counts.
    pub total_guesses: u64,
}

/// The sum of `counts`.
pub open spec fn sum_of(counts: Seq<u32>) -> nat
    decreases counts.len(),
{
    if counts.len() == 0 {
        0
    } else {
        sum_of(counts.drop_last()) + counts.last() as nat
    }
}

/// The sum of `counts` is at most `u32::MAX` for each of them.
proof fn lemma_sum_bound(counts: Seq<u32>)
    ensures
        sum_of(counts) <= counts.len() * u32::MAX,
    decreases counts.len(),
{
    if counts.len() > 0 {
        lemma_sum_bound(counts.drop_last());
        assert((counts.len() - 1) * u32::MAX + u32::MAX == counts.len() * u32::MAX)
            by (nonlinear_arith);
    }
}

/// The largest count and the sum of the counts, for reporting the worst and
/// the average game.
pub fn summarize_guesses(counts: &[u32]) -> (statistics: GuessStatistics)
    requires
        counts@.len() <= u32::MAX,
    ensures
        statistics.total_guesses == sum_of(counts@),
        forall|i: int| 0 <= i < counts@.len() ==> #[trigger] counts@[i] <= statistics.max_guesses,
        counts@.len() == 0 ==> statistics.max_guesses == 0,
        counts@.len() > 0 ==> exists|i: int|
            0 <= i < counts@.len() && #[trigger] counts@[i] == statistics.max_guesses,
{
    let mut max_guesses: u32 = 0;
    let mut total_guesses: u64 = 0;
    let mut seen: usize = 0;
    let ghost mut at: int = 0;
    while seen < counts.len()
        invariant
            counts@.len() <= u32::MAX,
            seen <= counts@.len(),
            total_guesses == sum_of(counts@.take(seen as int)),
            forall|i: int| 0 <= i < seen ==> #[trigger] counts@[i] <= max_guesses,
            seen == 0 ==> max_guesses == 0,
            seen > 0 ==> 0 <= at < seen && counts@[at] == max_guesses,
        decreases counts@.len() - seen,
    {
        let guesses = counts[seen];
        proof {
            let longer = counts@.take(seen + 1);
            assert(longer.drop_last() =~= counts@.take(seen as int));
            lemma_sum_bound(longer);
            assert(longer.len() * u32::MAX <= u32::MAX * u32::MAX) by (nonlinear_arith)
                requires
                    longer.len() <= u32::MAX,
            ;
        }
        if seen == 0 || guesses > max_guesses {
            max_guesses = guesses;
            proof {
                at = seen as int;
            }
        }
        total_guesses = total_guesses + guesses as u64;
        seen += 1;
    }
    assert(counts@.take(seen as int) =~= counts@);
    GuessStatistics { max_guesses, total_guesses }
}

} // verus!
