//! The searcher: negamax with alpha-beta pruning and move ordering.
//!
//! One evaluation serves every player: a player's value of a board is the
//! opposite of the next player's value of it.

use crate::board::{Board, Grid, Player};
use crate::eval::{lemma_times_direction, SCORE_LIMIT};
use crate::moves::grids;
use crate::sorting::{
    key_values, lemma_stable_sort_item, lemma_stable_sort_len, lemma_stable_sort_map,
    sort_iter_by_cached_key, stable_sort, stable_sort_by,
};
use vstd::prelude::*;

verus! {

/// The value of the board for `player` as the evaluator sees it.
pub open spec fn leaf_value(player: Player, grid: Grid) -> int {
    player.spec_direction() * grid.heuristic()
}

/// The key by which the moves of `player` are ordered: the smaller, the
/// better the board looks for the player.
pub open spec fn order_key(player: Player, grid: Grid) -> int {
    -player.spec_direction() * grid.heuristic()
}

/// The moves of `player` with the best-looking first.
pub open spec fn sorted_moves(player: Player, grid: Grid) -> Seq<Grid> {
    stable_sort_by(grid.moves(player), |next: Grid| order_key(player, next))
}

/// The moves in the order in which a search of the given depth tries them.
/// Moves that only the evaluator will look at are not sorted.
pub open spec fn ordered_moves(player: Player, grid: Grid, depth: nat) -> Seq<Grid> {
    if depth > 1 {
        sorted_moves(player, grid)
    } else {
        grid.moves(player)
    }
}

pub open spec fn larger(a: int, b: int) -> int {
    if a >= b {
        a
    } else {
        b
    }
}

/// A number of boards as a `u64` holds it: the counter stops at its limit.
pub open spec fn saturated(count: nat) -> u64 {
    if count <= u64::MAX {
        count as u64
    } else {
        u64::MAX
    }
}

/// What trying the moves from the `i`-th on gives: the largest value for
/// `player` and the number of boards evaluated, where `best` and `visited`
/// are those of the moves before. A move is searched by the next player
/// with the bounds negated and swapped, and its value is the opposite of
/// what that player finds. The scan stops at the first value that reaches
/// `beta`; a value above `alpha` raises `alpha`.
pub open spec fn scan(
    player: Player,
    moves: Seq<Grid>,
    depth: nat,
    i: int,
    best: int,
    visited: nat,
    alpha: int,
    beta: int,
) -> (int, nat)
    decreases depth, 0int, moves.len() - i,
{
    if depth == 0 || i < 0 || i >= moves.len() {
        (best, visited)
    } else {
        let found = search(player.spec_next(), moves[i], (depth - 1) as nat, -beta, -alpha);
        let value = -found.0;
        let total = visited + found.1;
        if value > best {
            if value >= beta {
                (value, total)
            } else {
                scan(player, moves, depth, i + 1, value, total, larger(alpha, value), beta)
            }
        } else {
            scan(player, moves, depth, i + 1, best, total, alpha, beta)
        }
    }
}

/// The value of the board for `player` and the number of boards evaluated:
/// at depth 0, or where the player has no move, the evaluator's value;
/// else the result of trying the moves in order.
pub open spec fn search(player: Player, grid: Grid, depth: nat, alpha: int, beta: int) -> (
    int,
    nat,
)
    decreases depth, 1int, 0int,
{
    if depth == 0 || ordered_moves(player, grid, depth).len() == 0 {
        (leaf_value(player, grid), 1)
    } else {
        scan(
            player,
            ordered_moves(player, grid, depth),
            depth,
            0,
            i32::MIN as int,
            0,
            alpha,
            beta,
        )
    }
}

/// What trying the moves from the `i`-th on gives at the top of the
/// search: the index of the first move with the largest value, or
/// `chosen` if none is larger than `best`; that value; and the number of
/// boards evaluated. All moves are tried.
pub open spec fn choose_scan(
    player: Player,
    moves: Seq<Grid>,
    depth: nat,
    i: int,
    chosen: int,
    best: int,
    visited: nat,
    alpha: int,
    beta: int,
) -> (int, int, nat)
    decreases moves.len() - i,
{
    if depth == 0 || i < 0 || i >= moves.len() {
        (chosen, best, visited)
    } else {
        let found = search(player.spec_next(), moves[i], (depth - 1) as nat, -beta, -alpha);
        let value = -found.0;
        let total = visited + found.1;
        if value > best {
            choose_scan(player, moves, depth, i + 1, i, value, total, larger(alpha, value), beta)
        } else {
            choose_scan(player, moves, depth, i + 1, chosen, best, total, alpha, beta)
        }
    }
}

/// The move that `player` chooses, its value and the number of boards
/// evaluated. Without a move, the value is the evaluator's.
pub open spec fn choice(player: Player, grid: Grid, depth: nat, alpha: int, beta: int) -> (
    Option<Grid>,
    int,
    nat,
) {
    let moves = sorted_moves(player, grid);
    if moves.len() == 0 {
        (None, leaf_value(player, grid), 1)
    } else {
        let found = choose_scan(player, moves, depth, 0, -1, i32::MIN as int, 0, alpha, beta);
        (Some(moves[found.0]), found.1, found.2)
    }
}

/// A score in the direction of the player.
fn times_direction(player: Player, value: i32) -> (product: i32)
    requires
        player.valid(),
        -SCORE_LIMIT <= value <= SCORE_LIMIT,
    ensures
        product == player.spec_direction() * value,
        -SCORE_LIMIT <= product <= SCORE_LIMIT,
{
    proof {
        lemma_times_direction(player, value as int);
    }
    if player.0 == 0 {
        -value
    } else {
        value
    }
}

/// The moves of the player with the best-looking first.
fn possible_moves_sorted(player: Player, board: &Board) -> (moves: Vec<Board>)
    requires
        board.wf(),
        board@.has_board_tile(),
        player.valid(),
    ensures
        grids(moves@) == sorted_moves(player, board@),
        forall|i: int|
            0 <= i < moves.len() ==> (#[trigger] moves[i]).wf() && moves[i]@.has_board_tile(),
{
    let moves = board.possible_moves(player);
    let ghost unsorted = moves@;
    /* Min's moves are sorted smallest heuristic first and Max's by largest first. */
    let by_key = |next_board: &Board| -> (key: i32)
        requires
            next_board.wf(),
        ensures
            key == order_key(player, next_board@),
        {
            let value = next_board.heuristic_evaluate();
            proof {
                lemma_times_direction(player, value as int);
                assert(-player.spec_direction() * value == -(player.spec_direction() * value))
                    by (nonlinear_arith);
            }
            -times_direction(player, value)
        };
    let sorted = sort_iter_by_cached_key(moves, by_key);
    proof {
        let keys = choose|keys: Seq<i32>|
            {
                &&& keys.len() == unsorted.len()
                &&& forall|i: int|
                    0 <= i < unsorted.len() ==> #[trigger] keys[i] == order_key(
                        player,
                        unsorted[i]@,
                    )
                &&& sorted@ == stable_sort(unsorted, key_values(keys))
            };
        let by_key = |next: Grid| order_key(player, next);
        assert(key_values(keys) =~= grids(unsorted).map_values(by_key));
        lemma_stable_sort_map(unsorted, key_values(keys), |board: Board| board@);
        lemma_stable_sort_len(unsorted, key_values(keys));
        assert forall|i: int| 0 <= i < sorted.len() implies (#[trigger] sorted[i]).wf()
            && sorted[i]@.has_board_tile() by {
            let j = lemma_stable_sort_item(unsorted, key_values(keys), i);
        }
    }
    sorted
}

/// Evaluates a board either by heuristic or minimax: returns the value of
/// the board for the player and the number of boards evaluated.
pub fn evaluate(player: Player, board: &Board, heuristic_depth: u32, alpha: i32, beta: i32) -> (result:
    (i32, u64))
    requires
        board.wf(),
        board@.has_board_tile(),
        player.valid(),
        alpha > i32::MIN,
        beta > i32::MIN,
    ensures
        result.0 == search(player, board@, heuristic_depth as nat, alpha as int, beta as int).0,
        result.1 == saturated(
            search(player, board@, heuristic_depth as nat, alpha as int, beta as int).1,
        ),
        -SCORE_LIMIT <= result.0 <= SCORE_LIMIT,
    decreases heuristic_depth, 1int,
{
    /* At depth 0 use heuristic evaluation. */
    if heuristic_depth == 0 {
        return (times_direction(player, board.heuristic_evaluate()), 1);
    }
    /* At other depths use minimax evaluation. Moves generated at depth 1 will only be
     * evaluated by the heuristic, so they don't need to be sorted. */
    let moves = if heuristic_depth > 1 {
        possible_moves_sorted(player, board)
    } else {
        board.possible_moves(player)
    };
    let result = minimax_evaluate(player, moves, heuristic_depth, alpha, beta);
    /* If there were no possible moves, fall back to heuristic evaluation. */
    if result.0 == i32::MIN {
        return (times_direction(player, board.heuristic_evaluate()), 1);
    }
    result
}

/// Evaluates a list of moves by finding the move with the highest value:
/// returns that value and the number of boards evaluated, or the smallest
/// `i32` and 0 for an empty list.
pub fn minimax_evaluate(
    player: Player,
    moves: Vec<Board>,
    heuristic_depth: u32,
    alpha: i32,
    beta: i32,
) -> (result: (i32, u64))
    requires
        forall|i: int|
            0 <= i < moves.len() ==> (#[trigger] moves[i]).wf() && moves[i]@.has_board_tile(),
        player.valid(),
        heuristic_depth > 0,
        alpha > i32::MIN,
        beta > i32::MIN,
    ensures
        result.0 == scan(
            player,
            grids(moves@),
            heuristic_depth as nat,
            0,
            i32::MIN as int,
            0,
            alpha as int,
            beta as int,
        ).0,
        result.1 == saturated(
            scan(
                player,
                grids(moves@),
                heuristic_depth as nat,
                0,
                i32::MIN as int,
                0,
                alpha as int,
                beta as int,
            ).1,
        ),
        moves.len() == 0 <==> result.0 == i32::MIN,
        moves.len() > 0 ==> -SCORE_LIMIT <= result.0 <= SCORE_LIMIT,
    decreases heuristic_depth, 0int,
{
    let ghost all = grids(moves@);
    let ghost depth = heuristic_depth as nat;
    let ghost whole = scan(player, all, depth, 0, i32::MIN as int, 0, alpha as int, beta as int);
    let ghost mut counted: nat = 0;
    let mut max_value = i32::MIN;
    let mut total_visited: u64 = 0;
    let mut lower_bound = alpha;
    let mut i: usize = 0;
    /* Finding the move with the largest value. */
    while i < moves.len()
        invariant
            whole == scan(player, all, depth, 0, i32::MIN as int, 0, alpha as int, beta as int),
            forall|j: int|
                0 <= j < moves.len() ==> (#[trigger] moves[j]).wf() && moves[j]@.has_board_tile(),
            player.valid(),
            all == grids(moves@),
            depth == heuristic_depth,
            heuristic_depth > 0,
            i <= moves.len(),
            lower_bound > i32::MIN,
            beta > i32::MIN,
            whole == scan(
                player,
                all,
                depth,
                i as int,
                max_value as int,
                counted,
                lower_bound as int,
                beta as int,
            ),
            total_visited == saturated(counted),
            i == 0 <==> max_value == i32::MIN,
            i > 0 ==> -SCORE_LIMIT <= max_value <= SCORE_LIMIT,
        decreases moves.len() - i,
    {
        /* This move is evaluated by the opposite player. For that reason both the alpha and
         * beta bounds and the resulting value are negated. This allows us to use the same
         * function for both players. */
        let found = evaluate(player.next(), &moves[i], heuristic_depth - 1, -beta, -lower_bound);
        let value = -found.0;
        assert(all[i as int] == moves[i as int]@);
        proof {
            counted = counted + search(
                player.spec_next(),
                all[i as int],
                (depth - 1) as nat,
                -beta,
                -lower_bound,
            ).1;
        }
        total_visited = total_visited.saturating_add(found.1);
        if value > max_value {
            max_value = value;
            /* Alpha-beta pruning: If the value goes higher than beta, it means that the caller
             * of this function is not interested in this branch, so we can return early. */
            if max_value >= beta {
                return (max_value, total_visited);
            }
            /* Now that we have a value of at least max_value, we can increase alpha to signal
             * that we are not interested in child branches that produce a lower value. */
            if max_value > lower_bound {
                lower_bound = max_value;
            }
        }
        i += 1;
    }
    (max_value, total_visited)
}

/// Chooses the best next move for a player. Returns the next board, its
/// value, and how many boards have been evaluated. Without a move, the
/// value is the evaluator's.
///
/// The move that looks best is searched first, so that the others start
/// with a good lower bound; they are searched one after the other, in
/// their order. Among moves of equal value the first is chosen.
pub fn choose_move(player: Player, board: &Board, heuristic_depth: u32, alpha: i32, beta: i32) -> (result:
    (Option<Board>, i32, u64))
    requires
        board.wf(),
        board@.has_board_tile(),
        player.valid(),
        heuristic_depth > 0,
        alpha > i32::MIN,
        beta > i32::MIN,
    ensures
        match result.0 {
            Some(next_board) => choice(
                player,
                board@,
                heuristic_depth as nat,
                alpha as int,
                beta as int,
            ).0 == Some(next_board@) && next_board.wf() && next_board@.has_board_tile(),
            None => choice(
                player,
                board@,
                heuristic_depth as nat,
                alpha as int,
                beta as int,
            ).0.is_none(),
        },
        result.1 == choice(player, board@, heuristic_depth as nat, alpha as int, beta as int).1,
        result.2 == saturated(
            choice(player, board@, heuristic_depth as nat, alpha as int, beta as int).2,
        ),
        -SCORE_LIMIT <= result.1 <= SCORE_LIMIT,
{
    /* Sort all moves before iterating them, so that moves with a better heuristic value are
     * processed first. This will cause alpha-beta pruning to take effect sooner. */
    let moves = possible_moves_sorted(player, board);
    /* If there are no possible moves, fall back to heuristic evaluation. */
    if moves.len() == 0 {
        return (None, times_direction(player, board.heuristic_evaluate()), 1);
    }
    let ghost all = grids(moves@);
    let ghost depth = heuristic_depth as nat;
    let ghost whole = choose_scan(
        player,
        all,
        depth,
        0,
        -1,
        i32::MIN as int,
        0,
        alpha as int,
        beta as int,
    );
    let ghost mut counted: nat = 0;
    let mut chosen: usize = 0;
    let mut max_value = i32::MIN;
    let mut total_visited: u64 = 0;
    let mut lower_bound = alpha;
    let mut i: usize = 0;
    while i < moves.len()
        invariant
            forall|j: int|
                0 <= j < moves.len() ==> (#[trigger] moves[j]).wf() && moves[j]@.has_board_tile(),
            player.valid(),
            all == grids(moves@),
            depth == heuristic_depth,
            heuristic_depth > 0,
            i <= moves.len(),
            lower_bound > i32::MIN,
            beta > i32::MIN,
            whole == choose_scan(
                player,
                all,
                depth,
                i as int,
                if i == 0 {
                    -1
                } else {
                    chosen as int
                },
                max_value as int,
                counted,
                lower_bound as int,
                beta as int,
            ),
            total_visited == saturated(counted),
            i == 0 <==> max_value == i32::MIN,
            i > 0 ==> -SCORE_LIMIT <= max_value <= SCORE_LIMIT,
            i > 0 ==> chosen < i,
        decreases moves.len() - i,
    {
        let found = evaluate(player.next(), &moves[i], heuristic_depth - 1, -beta, -lower_bound);
        let value = -found.0;
        assert(all[i as int] == moves[i as int]@);
        proof {
            counted = counted + search(
                player.spec_next(),
                all[i as int],
                (depth - 1) as nat,
                -beta,
                -lower_bound,
            ).1;
        }
        total_visited = total_visited.saturating_add(found.1);
        if value > max_value {
            max_value = value;
            chosen = i;
            /* Now that we have a value of at least max_value, we can increase alpha to signal
             * that we are not interested in child branches that produce a lower value. */
            if max_value > lower_bound {
                lower_bound = max_value;
            }
        }
        i += 1;
    }
    assert(all[chosen as int] == moves[chosen as int]@);
    (Some(moves[chosen].duplicate()), max_value, total_visited)
}


/// Takes the result of searching one move into the best result so far: the
/// chosen move, its value and the number of boards evaluated. `found` is
/// what the next player finds on `next_board`. Returns the new best result
/// and whether the move is the new choice, in which case its value is a
/// lower bound for the moves still to be searched.
///
/// Whoever searches the moves of one board side by side folds each result
/// with this function, one at a time.
pub fn fold_result(best: (Option<Board>, i32, u64), next_board: Board, found: (i32, u64)) -> (folded:
    ((Option<Board>, i32, u64), bool))
    requires
        found.0 > i32::MIN,
    ensures
        (folded.0).2 == saturated((best.2 + found.1) as nat),
        folded.1 == (-found.0 > best.1),
        folded.1 ==> (folded.0).0 == Some(next_board) && (folded.0).1 == -found.0,
        !folded.1 ==> (folded.0).0 == best.0 && (folded.0).1 == best.1,
{
    let value = -found.0;
    let total_visited = best.2.saturating_add(found.1);
    if value > best.1 {
        ((Some(next_board), value, total_visited), true)
    } else {
        ((best.0, best.1, total_visited), false)
    }
}

} // verus!
