use mastermind::board::Board;
use mastermind::error::GameError;
use mastermind::feedback::MatchKeys;
use mastermind::game::{Game, Move};
use mastermind::play::{
    count_all_guesses, count_guesses, play_code, summarize_guesses, GuessStatistics, Round,
};

const ABC: &[char] = &['A', 'B', 'C'];

fn worst_case(board: &Board, candidates: &[u32], guess: u32) -> (u32, u64) {
    let mut keys: Vec<MatchKeys> =
        candidates.iter().map(|&pattern| board.compute_match(guess, pattern)).collect();
    keys.sort();
    let mut largest = 0u32;
    let mut squares = 0u64;
    let mut start = 0;
    while start < keys.len() {
        let mut end = start;
        while end < keys.len() && keys[end] == keys[start] {
            end += 1;
        }
        let size = (end - start) as u32;
        largest = largest.max(size);
        squares += (size as u64) * (size as u64);
        start = end;
    }
    (largest, squares)
}

#[test]
fn new_game_lists_every_pattern() {
    let game = Game::new(3, 2);
    assert_eq!(game.board(), Board::new(3, 2));
    assert_eq!(game.candidates(), &vec![0, 1, 2, 3, 4, 5, 6, 7, 8]);
}

#[test]
fn score_guess_three_colors_two_holes() {
    let game = Game::new(3, 2);
    assert_eq!(game.score_guess(0), (4, 33));
    assert_eq!(game.score_guess(1), (4, 23));
    assert_eq!(game.score_guess(4), (4, 33));
    assert_eq!(game.score_guess(5), (4, 23));
}

#[test]
fn score_guess_agrees_with_sorting_into_runs() {
    let mut game = Game::new(4, 3);
    let board = game.board();
    for guess in 0..64 {
        assert_eq!(game.score_guess(guess), worst_case(&board, game.candidates(), guess));
    }
    game.apply_match(5, board.compute_match(5, 27));
    assert!(game.candidates().len() >= 2);
    for guess in 0..64 {
        assert_eq!(game.score_guess(guess), worst_case(&board, game.candidates(), guess));
    }
}

#[test]
fn first_guess_is_minimax_three_colors_two_holes() {
    let game = Game::new(3, 2);
    let board = game.board();
    let (guess, possibles) = game.get_guess().unwrap();
    assert_eq!(possibles, 9);
    assert_eq!(guess, 1);
    let chosen = worst_case(&board, game.candidates(), guess);
    for other in 0..9 {
        let score = worst_case(&board, game.candidates(), other);
        assert!(chosen.0 <= score.0);
        assert!(chosen <= score);
        if other < guess {
            assert!(chosen < score);
        }
    }
}

#[test]
fn get_guess_searches_all_patterns_not_only_candidates() {
    let mut game = Game::new(3, 2);
    game.apply_match(1, MatchKeys::new(1, 0));
    assert_eq!(game.candidates(), &vec![0, 2, 4, 7]);
    assert_eq!(game.score_guess(0), (2, 6));
    assert_eq!(game.score_guess(1), (4, 16));
    assert_eq!(game.score_guess(2), (1, 4));
    assert_eq!(game.get_guess(), Ok((2, 4)));
}

#[test]
fn get_guess_with_two_candidates_still_scores_every_pattern() {
    let mut game = Game::new(3, 2);
    game.apply_match(0, MatchKeys::new(0, 0));
    assert_eq!(game.candidates(), &vec![4, 5, 7, 8]);
    game.apply_match(4, MatchKeys::new(1, 0));
    assert_eq!(game.candidates(), &vec![5, 7]);
    let board = game.board();
    let (guess, possibles) = game.get_guess().unwrap();
    assert_eq!(possibles, 2);
    let mut expected = 0;
    for other in 0..9 {
        if worst_case(&board, game.candidates(), other)
            < worst_case(&board, game.candidates(), expected)
        {
            expected = other;
        }
    }
    assert_eq!(guess, expected);
    assert_eq!(worst_case(&board, game.candidates(), guess), (1, 2));
}

#[test]
fn get_guess_returns_the_last_candidate() {
    let mut game = Game::new(3, 2);
    game.apply_match(1, MatchKeys::new(1, 0));
    game.apply_match(2, MatchKeys::new(0, 1));
    assert_eq!(game.candidates(), &vec![7]);
    assert_eq!(game.get_guess(), Ok((7, 1)));
    assert_eq!(game.next_move(), Ok(Move::Answer { pattern: 7 }));
}

#[test]
fn get_guess_fails_without_candidates() {
    let mut game = Game::new(3, 2);
    game.apply_match(0, MatchKeys::new(0, 2));
    assert!(game.candidates().is_empty());
    assert_eq!(game.get_guess(), Err(GameError::InconsistentFeedback));
    assert_eq!(game.next_move(), Err(GameError::InconsistentFeedback));
}

#[test]
fn apply_match_keeps_exactly_the_consistent_candidates() {
    let board = Board::new(4, 3);
    for guess in [0u32, 5, 27, 63] {
        for code in [0u32, 9, 40, 63] {
            let mut game = Game::new(4, 3);
            let before = game.candidates().clone();
            let keys = board.compute_match(guess, code);
            game.apply_match(guess, keys);
            let after = game.candidates().clone();
            assert!(after.len() <= before.len());
            assert!(after.contains(&code));
            let expected: Vec<u32> = before
                .iter()
                .copied()
                .filter(|&pattern| board.compute_match(guess, pattern) == keys)
                .collect();
            assert_eq!(after, expected);
        }
    }
}

#[test]
fn apply_match_twice_with_same_feedback_changes_nothing_more() {
    let mut game = Game::new(3, 2);
    game.apply_match(1, MatchKeys::new(0, 1));
    let once = game.candidates().clone();
    assert_eq!(once, vec![5, 6]);
    game.apply_match(1, MatchKeys::new(0, 1));
    assert_eq!(game.candidates(), &once);
}

#[test]
fn next_move_proposes_the_guess_of_get_guess() {
    let game = Game::new(3, 2);
    assert_eq!(game.next_move(), Ok(Move::Guess { pattern: 1, possibles: 9 }));
}

#[test]
fn take_feedback_stops_on_solved_keys() {
    let mut game = Game::new(3, 2);
    assert!(game.take_feedback(1, MatchKeys::new(2, 0)));
    assert_eq!(game.candidates().len(), 9);
    assert!(!game.take_feedback(1, MatchKeys::new(1, 0)));
    assert_eq!(game.candidates(), &vec![0, 2, 4, 7]);
}

#[test]
fn count_guesses_three_colors_two_holes() {
    assert_eq!(count_guesses(2, ABC, 1), 1);
    assert_eq!(count_guesses(2, ABC, 2), 2);
    assert_eq!(count_guesses(2, ABC, 0), 3);
    assert_eq!(count_guesses(2, ABC, 7), 3);
}

#[test]
fn play_code_lists_the_rounds() {
    assert_eq!(
        play_code(2, ABC, 7),
        vec![
            Round { guess: 1, possibles: 9, keys: Some(MatchKeys::new(1, 0)) },
            Round { guess: 2, possibles: 4, keys: Some(MatchKeys::new(0, 1)) },
            Round { guess: 7, possibles: 1, keys: None },
        ]
    );
    assert_eq!(
        play_code(2, ABC, 1),
        vec![Round { guess: 1, possibles: 9, keys: Some(MatchKeys::new(2, 0)) }]
    );
}

#[test]
fn play_code_agrees_with_count_guesses() {
    let alphabet = ['a', 'b', 'c', 'd'];
    for code in 0..64 {
        let rounds = play_code(3, &alphabet, code);
        assert_eq!(rounds.len() as u32, count_guesses(3, &alphabet, code));
        let last = rounds.last().unwrap();
        assert_eq!(last.guess, code);
    }
}

#[test]
fn every_code_is_found_three_colors_two_holes() {
    let board = Board::new(3, 2);
    for code in 0..9 {
        let mut game = Game::new(3, 2);
        let mut turns = 0;
        while game.candidates().len() > 1 {
            let before = game.candidates().len();
            let (guess, _) = game.get_guess().unwrap();
            game.apply_match(guess, board.compute_match(guess, code));
            assert!(game.candidates().len() < before);
            turns += 1;
            assert!(turns <= 9);
        }
        assert_eq!(game.candidates(), &vec![code]);
    }
}

#[test]
fn every_code_is_found_four_colors_three_holes() {
    let board = Board::new(4, 3);
    for code in 0..64 {
        let mut game = Game::new(4, 3);
        let mut turns = 0;
        while game.candidates().len() > 1 {
            let (guess, _) = game.get_guess().unwrap();
            game.apply_match(guess, board.compute_match(guess, code));
            turns += 1;
            assert!(turns <= 64);
        }
        assert_eq!(game.candidates(), &vec![code]);
    }
}

#[test]
fn six_colors_four_holes_needs_few_turns() {
    let board = Board::new(6, 4);
    for code in [0u32, 310, 777, 1295] {
        let mut game = Game::new(6, 4);
        let mut turns = 0;
        while game.candidates().len() > 1 {
            let (guess, _) = game.get_guess().unwrap();
            game.apply_match(guess, board.compute_match(guess, code));
            turns += 1;
        }
        assert_eq!(game.candidates(), &vec![code]);
        assert!(turns <= 5);
    }
}

#[test]
fn single_pattern_board_is_solved_at_once() {
    let game = Game::new(1, 3);
    assert_eq!(game.candidates(), &vec![0]);
    assert_eq!(game.get_guess(), Ok((0, 1)));
    assert_eq!(count_guesses(3, &['x'], 0), 1);
}

#[test]
fn count_all_guesses_three_colors_two_holes() {
    let counts = count_all_guesses(2, ABC);
    assert_eq!(counts.len(), 9);
    for code in 0..9u32 {
        assert_eq!(counts[code as usize], count_guesses(2, ABC, code));
    }
    assert_eq!(counts[1], 1);
    assert_eq!(counts[7], 3);
}

#[test]
fn summarize_guesses_gives_largest_and_sum() {
    assert_eq!(
        summarize_guesses(&[3, 1, 4, 1, 5]),
        GuessStatistics { max_guesses: 5, total_guesses: 14 }
    );
    assert_eq!(summarize_guesses(&[]), GuessStatistics { max_guesses: 0, total_guesses: 0 });
    assert_eq!(
        summarize_guesses(&[u32::MAX, u32::MAX]),
        GuessStatistics { max_guesses: u32::MAX, total_guesses: 8589934590 }
    );
    let counts = count_all_guesses(2, ABC);
    let statistics = summarize_guesses(&counts);
    assert_eq!(statistics.max_guesses, *counts.iter().max().unwrap());
    assert_eq!(statistics.total_guesses, counts.iter().map(|&c| c as u64).sum::<u64>());
}

#[test]
fn score_guess_with_one_or_no_candidate() {
    let mut game = Game::new(3, 2);
    game.apply_match(1, MatchKeys::new(1, 0));
    game.apply_match(2, MatchKeys::new(0, 1));
    assert_eq!(game.candidates(), &vec![7]);
    for guess in 0..9 {
        assert_eq!(game.score_guess(guess), (1, 1));
    }
    game.apply_match(0, MatchKeys::new(2, 0));
    assert!(game.candidates().is_empty());
    for guess in 0..9 {
        assert_eq!(game.score_guess(guess), (0, 0));
    }
}

#[test]
fn score_guess_six_colors_four_holes_first_turn() {
    let game = Game::new(6, 4);
    let board = game.board();
    // "1122" is the classic opening: its largest group holds 256 codes.
    assert_eq!(game.score_guess(7).0, 256);
    assert_eq!(game.score_guess(7), worst_case(&board, game.candidates(), 7));
    assert_eq!(game.score_guess(0), worst_case(&board, game.candidates(), 0));
    assert_eq!(game.score_guess(0).0, 625);
}
