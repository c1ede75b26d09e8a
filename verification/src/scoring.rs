//! How a guess splits the candidates: the groups of candidates that would
//! give one and the same feedback, the largest such group, and the sum of the
//! squared group sizes.

use crate::board::Board;
use crate::feedback::MatchKeys;
use vstd::prelude::*;

verus! {

/// The candidates are patterns of the board, in ascending order and each
/// listed once.
pub open spec fn candidates_valid(board: Board, candidates: Seq<u32>) -> bool {
    &&& forall|i: int|
        0 <= i < candidates.len() ==> (#[trigger] candidates[i]) < board.pattern_count()
    &&& forall|i: int, j: int|
        0 <= i < j < candidates.len() ==> (#[trigger] candidates[i]) < (#[trigger] candidates[j])
}

/// Every pattern of the board, in ascending order.
pub open spec fn all_patterns(board: Board) -> Seq<u32> {
    Seq::new(board.pattern_count() as nat, |i: int| i as u32)
}

/// The candidates that would answer `guess` with the feedback `keys`, in
/// the order they had.
pub open spec fn consistent(
    board: Board,
    candidates: Seq<u32>,
    guess: u32,
    keys: MatchKeys,
) -> Seq<u32> {
    candidates.filter(|pattern: u32| board.match_spec(guess, pattern) == keys)
}

/// The number of candidates that would answer `guess` with `keys`.
pub open spec fn group_size(
    board: Board,
    candidates: Seq<u32>,
    guess: u32,
    keys: MatchKeys,
) -> nat {
    consistent(board, candidates, guess, keys).len()
}

/// The number of feedback values with both counts at most `holes`.
pub open spec fn key_slots(holes: nat) -> nat {
    (holes + 1) * (holes + 1)
}

/// The feedback values with both counts at most `holes`, numbered from 0.
pub open spec fn key_at(holes: nat, slot: nat) -> MatchKeys {
    MatchKeys {
        exact_count: (slot / (holes + 1)) as u32,
        color_count: (slot % (holes + 1)) as u32,
    }
}

/// The number of a feedback value among those with counts at most `holes`.
pub open spec fn key_slot(holes: nat, keys: MatchKeys) -> nat {
    keys.exact_count as nat * (holes + 1) + keys.color_count as nat
}

/// The size of the largest group among the first `slots` feedback values.
pub open spec fn largest_group(
    board: Board,
    candidates: Seq<u32>,
    guess: u32,
    slots: nat,
) -> nat
    decreases slots,
{
    if slots == 0 {
        0
    } else {
        let rest = largest_group(board, candidates, guess, (slots - 1) as nat);
        let size = group_size(
            board,
            candidates,
            guess,
            key_at(board.hole_count as nat, (slots - 1) as nat),
        );
        if size > rest {
            size
        } else {
            rest
        }
    }
}

/// The sum of the squared group sizes over the first `slots` feedback values.
pub open spec fn squared_groups(
    board: Board,
    candidates: Seq<u32>,
    guess: u32,
    slots: nat,
) -> nat
    decreases slots,
{
    if slots == 0 {
        0
    } else {
        let size = group_size(
            board,
            candidates,
            guess,
            key_at(board.hole_count as nat, (slots - 1) as nat),
        );
        squared_groups(board, candidates, guess, (slots - 1) as nat) + size * size
    }
}

/// The most candidates that can remain after `guess` is played, whatever the
/// feedback: the size of the largest group.
pub open spec fn row_max(board: Board, candidates: Seq<u32>, guess: u32) -> nat {
    largest_group(board, candidates, guess, key_slots(board.hole_count as nat))
}

/// The sum, over the groups that `guess` splits the candidates into, of the
/// squared group size.
pub open spec fn total_length(board: Board, candidates: Seq<u32>, guess: u32) -> nat {
    squared_groups(board, candidates, guess, key_slots(board.hole_count as nat))
}

/// A feedback value with counts at most `holes` has a slot, and the slot
/// leads back to it.
pub proof fn lemma_key_slot(holes: nat, keys: MatchKeys)
    requires
        keys.exact_count <= holes,
        keys.color_count <= holes,
    ensures
        key_slot(holes, keys) < key_slots(holes),
        key_at(holes, key_slot(holes, keys)) == keys,
{
    let width = holes + 1;
    let e = keys.exact_count as nat;
    let c = keys.color_count as nat;
    assert(e * width + c < width * width && (e * width + c) / width == e && (e * width + c) % width
        == c) by (nonlinear_arith)
        requires
            e < width,
            c < width,
    ;
}

/// Different slots hold different feedback values.
pub proof fn lemma_key_at_slot(holes: nat, slot: nat)
    requires
        holes <= u32::MAX,
        slot < key_slots(holes),
    ensures
        key_at(holes, slot).exact_count <= holes,
        key_at(holes, slot).color_count <= holes,
        key_slot(holes, key_at(holes, slot)) == slot,
{
    let width = holes + 1;
    assert(slot / width < width && slot % width < width && slot == (slot / width) * width + slot
        % width) by (nonlinear_arith)
        requires
            width > 0,
            slot < width * width,
    ;
}

/// Adding one candidate adds one to the group of its feedback and leaves the
/// other groups as they were.
pub proof fn lemma_group_size_push(
    board: Board,
    candidates: Seq<u32>,
    pattern: u32,
    guess: u32,
    keys: MatchKeys,
)
    ensures
        group_size(board, candidates.push(pattern), guess, keys) == group_size(
            board,
            candidates,
            guess,
            keys,
        ) + if board.match_spec(guess, pattern) == keys {
            1nat
        } else {
            0nat
        },
{
    candidates.lemma_filter_len_push(
        |pattern: u32| board.match_spec(guess, pattern) == keys,
        pattern,
    );
}

/// No group is larger than the candidate list.
pub proof fn lemma_group_size_bound(
    board: Board,
    candidates: Seq<u32>,
    guess: u32,
    keys: MatchKeys,
)
    ensures
        group_size(board, candidates, guess, keys) <= candidates.len(),
{
    candidates.lemma_filter_len(|pattern: u32| board.match_spec(guess, pattern) == keys);
}

/// The sum of the group sizes over the first `slots` feedback values.
pub open spec fn summed_groups(
    board: Board,
    candidates: Seq<u32>,
    guess: u32,
    slots: nat,
) -> nat
    decreases slots,
{
    if slots == 0 {
        0
    } else {
        summed_groups(board, candidates, guess, (slots - 1) as nat) + group_size(
            board,
            candidates,
            guess,
            key_at(board.hole_count as nat, (slots - 1) as nat),
        )
    }
}

/// Adding one candidate adds one to the summed group sizes exactly when the
/// slot of its feedback is among those summed.
proof fn lemma_summed_groups_push(
    board: Board,
    candidates: Seq<u32>,
    pattern: u32,
    guess: u32,
    slots: nat,
)
    requires
        slots <= key_slots(board.hole_count as nat),
    ensures
        summed_groups(board, candidates.push(pattern), guess, slots) == summed_groups(
            board,
            candidates,
            guess,
            slots,
        ) + if key_slot(board.hole_count as nat, board.match_spec(guess, pattern)) < slots {
            1nat
        } else {
            0nat
        },
    decreases slots,
{
    if slots > 0 {
        let holes = board.hole_count as nat;
        let last = (slots - 1) as nat;
        let keys = board.match_spec(guess, pattern);
        lemma_summed_groups_push(board, candidates, pattern, guess, last);
        lemma_group_size_push(board, candidates, pattern, guess, key_at(holes, last));
        board.lemma_match_within_holes(guess, pattern);
        lemma_key_slot(holes, keys);
        lemma_key_at_slot(holes, last);
    }
}

/// The groups are disjoint parts of the candidate list: their sizes sum to
/// at most its length.
pub proof fn lemma_summed_groups_bound(
    board: Board,
    candidates: Seq<u32>,
    guess: u32,
    slots: nat,
)
    requires
        slots <= key_slots(board.hole_count as nat),
    ensures
        summed_groups(board, candidates, guess, slots) <= candidates.len(),
    decreases candidates.len(), slots,
{
    if candidates.len() == 0 {
        if slots > 0 {
            lemma_summed_groups_bound(board, candidates, guess, (slots - 1) as nat);
            lemma_group_size_bound(
                board,
                candidates,
                guess,
                key_at(board.hole_count as nat, (slots - 1) as nat),
            );
        }
    } else {
        let shorter = candidates.drop_last();
        assert(candidates =~= shorter.push(candidates.last()));
        lemma_summed_groups_bound(board, shorter, guess, slots);
        lemma_summed_groups_push(board, shorter, candidates.last(), guess, slots);
    }
}

/// The sum of the squares is at most the square of the sum.
proof fn lemma_squared_below_summed(board: Board, candidates: Seq<u32>, guess: u32, slots: nat)
    ensures
        squared_groups(board, candidates, guess, slots) <= summed_groups(
            board,
            candidates,
            guess,
            slots,
        ) * summed_groups(board, candidates, guess, slots),
    decreases slots,
{
    if slots > 0 {
        let last = (slots - 1) as nat;
        lemma_squared_below_summed(board, candidates, guess, last);
        let squares = squared_groups(board, candidates, guess, last);
        let sum = summed_groups(board, candidates, guess, last);
        let size = group_size(board, candidates, guess, key_at(board.hole_count as nat, last));
        assert(squares + size * size <= (sum + size) * (sum + size)) by (nonlinear_arith)
            requires
                squares <= sum * sum,
        ;
    }
}

/// The sum of the squared group sizes is at most the squared number of
/// candidates, for any number of slots summed.
pub proof fn lemma_squared_groups_bound(
    board: Board,
    candidates: Seq<u32>,
    guess: u32,
    slots: nat,
)
    requires
        slots <= key_slots(board.hole_count as nat),
    ensures
        squared_groups(board, candidates, guess, slots) <= candidates.len() * candidates.len(),
{
    lemma_squared_below_summed(board, candidates, guess, slots);
    lemma_summed_groups_bound(board, candidates, guess, slots);
    let sum = summed_groups(board, candidates, guess, slots);
    let n = candidates.len();
    assert(sum * sum <= n * n) by (nonlinear_arith)
        requires
            sum <= n,
    ;
}

/// The largest group is at least as large as each group it was taken over,
/// and no larger than the candidate list.
proof fn lemma_largest_group(board: Board, candidates: Seq<u32>, guess: u32, slots: nat)
    ensures
        largest_group(board, candidates, guess, slots) <= candidates.len(),
        forall|slot: nat|
            slot < slots ==> #[trigger] group_size(
                board,
                candidates,
                guess,
                key_at(board.hole_count as nat, slot),
            ) <= largest_group(board, candidates, guess, slots),
        slots > 0 ==> exists|slot: nat|
            slot < slots && #[trigger] group_size(
                board,
                candidates,
                guess,
                key_at(board.hole_count as nat, slot),
            ) == largest_group(board, candidates, guess, slots),
    decreases slots,
{
    if slots > 0 {
        let last = (slots - 1) as nat;
        let holes = board.hole_count as nat;
        lemma_largest_group(board, candidates, guess, last);
        lemma_group_size_bound(board, candidates, guess, key_at(holes, last));
        let size = group_size(board, candidates, guess, key_at(holes, last));
        if last == 0 || size > largest_group(board, candidates, guess, last) {
            assert(group_size(board, candidates, guess, key_at(holes, last)) == largest_group(
                board,
                candidates,
                guess,
                slots,
            ));
        } else {
            let slot = choose|slot: nat|
                slot < last && #[trigger] group_size(
                    board,
                    candidates,
                    guess,
                    key_at(holes, slot),
                ) == largest_group(board, candidates, guess, last);
            assert(group_size(board, candidates, guess, key_at(holes, slot)) == largest_group(
                board,
                candidates,
                guess,
                slots,
            ));
        }
    }
}

/// Whatever feedback a guess receives, the candidates consistent with it are
/// at most `row_max` many.
pub proof fn lemma_group_within_row_max(
    board: Board,
    candidates: Seq<u32>,
    guess: u32,
    keys: MatchKeys,
)
    ensures
        group_size(board, candidates, guess, keys) <= row_max(board, candidates, guess),
{
    let group = consistent(board, candidates, guess, keys);
    if group.len() > 0 {
        let holes = board.hole_count as nat;
        candidates.lemma_filter_pred(|pattern: u32| board.match_spec(guess, pattern) == keys, 0);
        assert(board.match_spec(guess, group[0]) == keys);
        board.lemma_match_within_holes(guess, group[0]);
        lemma_key_slot(holes, keys);
        lemma_largest_group(board, candidates, guess, key_slots(holes));
        assert(group_size(board, candidates, guess, key_at(holes, key_slot(holes, keys)))
            <= row_max(board, candidates, guess));
    }
}

/// Some feedback leaves exactly `row_max` candidates, and `row_max` is at
/// most the number of candidates.
pub proof fn lemma_row_max_attained(board: Board, candidates: Seq<u32>, guess: u32)
    ensures
        row_max(board, candidates, guess) <= candidates.len(),
        exists|keys: MatchKeys| #[trigger]
            group_size(board, candidates, guess, keys) == row_max(board, candidates, guess),
{
    let holes = board.hole_count as nat;
    assert(key_slots(holes) > 0) by (nonlinear_arith);
    lemma_largest_group(board, candidates, guess, key_slots(holes));
    let slot = choose|slot: nat|
        slot < key_slots(holes) && #[trigger] group_size(
            board,
            candidates,
            guess,
            key_at(holes, slot),
        ) == row_max(board, candidates, guess);
    assert(group_size(board, candidates, guess, key_at(holes, slot)) == row_max(
        board,
        candidates,
        guess,
    ));
}

/// The sum of the squared group sizes is at most the squared number of
/// candidates.
pub proof fn lemma_total_length_bound(board: Board, candidates: Seq<u32>, guess: u32)
    ensures
        total_length(board, candidates, guess) <= candidates.len() * candidates.len(),
{
    lemma_squared_groups_bound(board, candidates, guess, key_slots(board.hole_count as nat));
}

/// Each group's squared size is part of the sum of the squares.
proof fn lemma_squared_groups_hold(
    board: Board,
    candidates: Seq<u32>,
    guess: u32,
    slot: nat,
    slots: nat,
)
    requires
        slot < slots,
    ensures
        group_size(board, candidates, guess, key_at(board.hole_count as nat, slot)) * group_size(
            board,
            candidates,
            guess,
            key_at(board.hole_count as nat, slot),
        ) <= squared_groups(board, candidates, guess, slots),
    decreases slots,
{
    if slot < slots - 1 {
        lemma_squared_groups_hold(board, candidates, guess, slot, (slots - 1) as nat);
    }
}

/// With no candidate there is no group, and a single candidate is a single
/// group of one: both scores equal the number of candidates.
pub proof fn lemma_scores_of_short_list(board: Board, candidates: Seq<u32>, guess: u32)
    requires
        candidates.len() <= 1,
    ensures
        row_max(board, candidates, guess) == candidates.len(),
        total_length(board, candidates, guess) == candidates.len(),
{
    lemma_row_max_attained(board, candidates, guess);
    lemma_total_length_bound(board, candidates, guess);
    if candidates.len() == 1 {
        let holes = board.hole_count as nat;
        let keys = board.match_spec(guess, candidates[0]);
        let none = Seq::<u32>::empty();
        assert(candidates =~= none.push(candidates[0]));
        lemma_group_size_push(board, none, candidates[0], guess, keys);
        lemma_group_size_bound(board, none, guess, keys);
        lemma_group_within_row_max(board, candidates, guess, keys);
        board.lemma_match_within_holes(guess, candidates[0]);
        lemma_key_slot(holes, keys);
        lemma_squared_groups_hold(
            board,
            candidates,
            guess,
            key_slot(holes, keys),
            key_slots(holes),
        );
    }
}

/// Filtering by feedback only removes candidates: the list does not grow, a
/// candidate stays exactly if it would answer `guess` with `keys`, and what
/// stays is still a valid candidate list.
pub proof fn lemma_consistent(board: Board, candidates: Seq<u32>, guess: u32, keys: MatchKeys)
    ensures
        consistent(board, candidates, guess, keys).len() <= candidates.len(),
        forall|pattern: u32|
            #![trigger consistent(board, candidates, guess, keys).contains(pattern)]
            #![trigger candidates.contains(pattern)]
            consistent(board, candidates, guess, keys).contains(pattern) <==> candidates.contains(
                pattern,
            ) && board.match_spec(guess, pattern) == keys,
        candidates_valid(board, candidates) ==> candidates_valid(
            board,
            consistent(board, candidates, guess, keys),
        ),
    decreases candidates.len(),
{
    let kept = consistent(board, candidates, guess, keys);
    let pred = |pattern: u32| board.match_spec(guess, pattern) == keys;
    if candidates.len() == 0 {
        candidates.lemma_filter_len(pred);
    } else {
        let shorter = candidates.drop_last();
        let last = candidates.last();
        let kept_shorter = consistent(board, shorter, guess, keys);
        assert(candidates =~= shorter.push(last));
        lemma_consistent(board, shorter, guess, keys);
        shorter.lemma_filter_push(last, pred);
        assert forall|pattern: u32|
            #![trigger kept.contains(pattern)]
            #![trigger candidates.contains(pattern)]
            kept.contains(pattern) <==> candidates.contains(pattern) && board.match_spec(
                guess,
                pattern,
            ) == keys by {
            if kept.contains(pattern) {
                let i = choose|i: int| 0 <= i < kept.len() && kept[i] == pattern;
                if i < kept_shorter.len() {
                    assert(kept_shorter[i] == pattern);
                    assert(kept_shorter.contains(pattern));
                    let j = choose|j: int| 0 <= j < shorter.len() && shorter[j] == pattern;
                    assert(candidates[j] == pattern);
                } else {
                    assert(candidates[candidates.len() - 1] == pattern);
                }
            }
            if candidates.contains(pattern) && board.match_spec(guess, pattern) == keys {
                let j = choose|j: int| 0 <= j < candidates.len() && candidates[j] == pattern;
                if j < shorter.len() {
                    assert(shorter[j] == pattern);
                    assert(shorter.contains(pattern));
                    let i = choose|i: int| 0 <= i < kept_shorter.len() && kept_shorter[i] == pattern;
                    assert(kept[i] == pattern);
                } else {
                    assert(kept[kept.len() - 1] == pattern);
                }
            }
        }
        if candidates_valid(board, candidates) {
            assert(candidates_valid(board, shorter));
            assert forall|i: int| 0 <= i < kept.len() implies (#[trigger] kept[i])
                < board.pattern_count() by {
                assert(kept.contains(kept[i]));
                let j = choose|j: int| 0 <= j < candidates.len() && candidates[j] == kept[i];
            }
            assert forall|i: int, j: int| 0 <= i < j < kept.len() implies (#[trigger] kept[i]) < (
            #[trigger] kept[j]) by {
                if j == kept_shorter.len() {
                    assert(kept_shorter.contains(kept_shorter[i]));
                    let k = choose|k: int| 0 <= k < shorter.len() && shorter[k] == kept_shorter[i];
                    assert(candidates[k] < candidates[candidates.len() - 1]);
                } else {
                    assert(kept_shorter[i] < kept_shorter[j]);
                }
            }
        }
    }
}

/// A valid candidate list holds its `i`-th entry no earlier than pattern `i`,
/// so it is no longer than the board has patterns.
pub proof fn lemma_candidates_len(board: Board, candidates: Seq<u32>)
    requires
        candidates_valid(board, candidates),
    ensures
        candidates.len() > 0 ==> candidates.len() <= board.pattern_count(),
        forall|i: int| 0 <= i < candidates.len() ==> i <= #[trigger] candidates[i],
    decreases candidates.len(),
{
    if candidates.len() > 0 {
        let shorter = candidates.drop_last();
        lemma_candidates_len(board, shorter);
        assert forall|i: int| 0 <= i < candidates.len() implies i <= #[trigger] candidates[i] by {
            if i > 0 {
                assert(shorter[i - 1] == candidates[i - 1]);
                assert(candidates[i - 1] < candidates[i]);
            }
        }
        assert(candidates.len() - 1 <= candidates[candidates.len() - 1]);
    }
}

/// A group that leaves some candidate out is shorter than the list.
pub proof fn lemma_group_leaves_out(
    board: Board,
    candidates: Seq<u32>,
    guess: u32,
    keys: MatchKeys,
    i: int,
)
    requires
        0 <= i < candidates.len(),
        board.match_spec(guess, candidates[i]) != keys,
    ensures
        group_size(board, candidates, guess, keys) < candidates.len(),
    decreases candidates.len(),
{
    let shorter = candidates.drop_last();
    let last = candidates.last();
    assert(candidates =~= shorter.push(last));
    lemma_group_size_push(board, shorter, last, guess, keys);
    if i == candidates.len() - 1 {
        lemma_group_size_bound(board, shorter, guess, keys);
    } else {
        lemma_group_leaves_out(board, shorter, guess, keys, i);
    }
}

/// The list of all patterns is a valid candidate list.
pub proof fn lemma_all_patterns_valid(board: Board)
    requires
        0 <= board.pattern_count() <= u32::MAX,
    ensures
        candidates_valid(board, all_patterns(board)),
        all_patterns(board).len() == board.pattern_count(),
{
}

} // verus!
