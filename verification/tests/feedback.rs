use mastermind::board::Board;
use mastermind::feedback::MatchKeys;
use mastermind::matrix::compute_all_matches;

#[test]
fn match_keys_new_sets_both_counts() {
    let keys = MatchKeys::new(3, 1);
    assert_eq!(keys.exact_count, 3);
    assert_eq!(keys.color_count, 1);
    assert_eq!(keys, MatchKeys { exact_count: 3, color_count: 1 });
    assert_ne!(keys, MatchKeys::new(1, 3));
}

#[test]
fn match_keys_order_clusters_equal_keys() {
    let mut keys = vec![
        MatchKeys::new(1, 0),
        MatchKeys::new(0, 2),
        MatchKeys::new(1, 0),
        MatchKeys::new(0, 0),
    ];
    keys.sort();
    assert_eq!(
        keys,
        vec![
            MatchKeys::new(0, 0),
            MatchKeys::new(0, 2),
            MatchKeys::new(1, 0),
            MatchKeys::new(1, 0),
        ]
    );
}

#[test]
fn compute_match_examples_three_colors_two_holes() {
    let board = Board::new(3, 2);
    assert_eq!(board.compute_match(0, 1), MatchKeys { exact_count: 1, color_count: 0 });
    assert_eq!(board.compute_match(1, 3), MatchKeys { exact_count: 0, color_count: 2 });
}

#[test]
fn compute_match_six_colors_four_holes() {
    let alphabet = ['1', '2', '3', '4', '5', '6'];
    let board = Board::new(6, 4);
    let code = |text: &str| board.string_to_pattern(text, &alphabet).unwrap();
    assert_eq!(board.compute_match(code("1234"), code("1125")), MatchKeys::new(1, 1));
    assert_eq!(board.compute_match(code("1212"), code("1122")), MatchKeys::new(2, 2));
    assert_eq!(board.compute_match(code("1234"), code("4321")), MatchKeys::new(0, 4));
    assert_eq!(board.compute_match(code("1111"), code("2222")), MatchKeys::new(0, 0));
    assert_eq!(board.compute_match(code("1123"), code("2111")), MatchKeys::new(1, 2));
    assert_eq!(board.compute_match(code("6543"), code("6543")), MatchKeys::new(4, 0));
}

#[test]
fn compute_match_is_symmetric_four_colors_three_holes() {
    let board = Board::new(4, 3);
    let count = board.total_pattern_count();
    assert_eq!(count, 64);
    for pattern in 0..count {
        for guess in 0..count {
            assert_eq!(board.compute_match(pattern, guess), board.compute_match(guess, pattern));
        }
    }
}

#[test]
fn compute_match_counts_stay_within_holes() {
    let board = Board::new(5, 3);
    let count = board.total_pattern_count();
    for pattern in 0..count {
        for guess in 0..count {
            let keys = board.compute_match(pattern, guess);
            assert!(keys.exact_count + keys.color_count <= 3);
        }
    }
}

#[test]
fn compute_match_is_solved_only_for_the_pattern_itself() {
    let board = Board::new(4, 3);
    let count = board.total_pattern_count();
    for pattern in 0..count {
        for guess in 0..count {
            let solved = board.compute_match(pattern, guess) == MatchKeys::new(3, 0);
            assert_eq!(solved, pattern == guess);
        }
    }
}

#[test]
fn compute_match_reads_low_digits_only() {
    let board = Board::new(3, 2);
    assert_eq!(board.compute_match(13, 4), MatchKeys::new(2, 0));
    assert_eq!(board.compute_match(9, 1), board.compute_match(0, 1));
}

#[test]
fn compute_match_single_color() {
    let board = Board::new(1, 4);
    assert_eq!(board.total_pattern_count(), 1);
    assert_eq!(board.compute_match(0, 0), MatchKeys::new(4, 0));
}

#[test]
fn total_pattern_count_examples() {
    assert_eq!(Board::new(6, 4).total_pattern_count(), 1296);
    assert_eq!(Board::new(1, 7).total_pattern_count(), 1);
    assert_eq!(Board::new(2, 31).total_pattern_count(), 2147483648);
    assert_eq!(Board::new(65535, 2).total_pattern_count(), 4294836225);
    assert_eq!(Board::new(10, 1).total_pattern_count(), 10);
}

#[test]
fn is_valid_accepts_playable_boards() {
    assert!(Board::new(3, 2).is_valid());
    assert!(Board::new(6, 4).is_valid());
    assert!(Board::new(1, 1).is_valid());
    assert!(Board::new(1, u32::MAX).is_valid());
    assert!(Board::new(2, 31).is_valid());
    assert!(Board::new(65535, 2).is_valid());
    assert!(Board::new(u32::MAX, 1).is_valid());
}

#[test]
fn is_valid_rejects_bad_configurations() {
    assert!(!Board::new(0, 2).is_valid());
    assert!(!Board::new(3, 0).is_valid());
    assert!(!Board::new(0, 0).is_valid());
    assert!(!Board::new(2, 32).is_valid());
    assert!(!Board::new(65536, 2).is_valid());
    assert!(!Board::new(10, 10).is_valid());
}

#[test]
fn board_new_keeps_its_arguments() {
    let board = Board::new(6, 4);
    assert_eq!(board.color_count, 6);
    assert_eq!(board.hole_count, 4);
    assert_eq!(board, Board { color_count: 6, hole_count: 4 });
}

#[test]
fn matrix_holds_every_feedback() {
    let board = Board::new(3, 2);
    let table = compute_all_matches(&board);
    assert_eq!(table.len(), 9);
    for pattern in 0..9u32 {
        assert_eq!(table[pattern as usize].len(), 9);
        for guess in 0..9u32 {
            assert_eq!(
                table[pattern as usize][guess as usize],
                board.compute_match(pattern, guess)
            );
            assert_eq!(
                table[pattern as usize][guess as usize],
                table[guess as usize][pattern as usize]
            );
        }
    }
    assert_eq!(table[1][3], MatchKeys::new(0, 2));
    assert_eq!(table[0][1], MatchKeys::new(1, 0));
}
