//! The exhaustive minimax value of a board, and the proof that alpha-beta
//! pruning finds it.

use crate::board::{Grid, Player};
use crate::eval::{lemma_times_direction, SCORE_LIMIT};
use crate::moves::lemma_moves_are_legal;
use crate::search::{
    choice, choose_scan, larger, leaf_value, order_key, ordered_moves, scan, search, sorted_moves,
};
use crate::sorting::{
    lemma_stable_sort_item, lemma_stable_sort_len, lemma_stable_sort_map, lemma_stable_sort_max,
    seq_max, stable_sort,
};
use vstd::prelude::*;

verus! {

/// The value for `player` of the `i`-th of the moves: the opposite of what
/// the board after it is worth to the next player.
pub open spec fn reply(player: Player, moves: Seq<Grid>, depth: nat, i: int) -> int
    decreases depth, 0int, 0int,
{
    if depth == 0 {
        0
    } else {
        -minimax(player.spec_next(), moves[i], (depth - 1) as nat)
    }
}

/// The largest value for `player` among the first `n` of the moves.
pub open spec fn best_reply(player: Player, moves: Seq<Grid>, depth: nat, n: int) -> int
    decreases depth, 1int, n,
{
    if depth == 0 {
        0
    } else if n <= 1 {
        reply(player, moves, depth, 0)
    } else {
        larger(best_reply(player, moves, depth, n - 1), reply(player, moves, depth, n - 1))
    }
}

/// The value of the board for `player` when every line of play is
/// followed `depth` moves deep: at depth 0, or where the player has no
/// move, the evaluator's value; else the value of the best move.
pub open spec fn minimax(player: Player, grid: Grid, depth: nat) -> int
    decreases depth, 2int, 0int,
{
    if depth == 0 || grid.moves(player).len() == 0 {
        leaf_value(player, grid)
    } else {
        best_reply(player, grid.moves(player), depth, grid.moves(player).len() as int)
    }
}

/// The values of all the moves.
pub open spec fn replies(player: Player, moves: Seq<Grid>, depth: nat) -> Seq<int> {
    Seq::new(moves.len(), |i: int| reply(player, moves, depth, i))
}

/// A move leads from a well-formed board to a well-formed board.
pub proof fn lemma_move_wf(grid: Grid, player: Player, i: int)
    requires
        grid.wf(),
        player.valid(),
        0 <= i < grid.moves(player).len(),
    ensures
        grid.moves(player)[i].wf(),
{
    lemma_moves_are_legal(grid, player, i);
    let after = grid.moves(player)[i];
    if grid.has_stack_of(player) {
        let (origin, target, split) = choose|origin: int, target: int, split: int|
            grid.is_split(after, player, origin, target, split);
        assert(grid.is_split(after, player, origin, target, split));
    } else {
        let target = choose|target: int| grid.is_placement(after, player, target);
        assert(grid.is_placement(after, player, target));
    }
}

pub proof fn lemma_best_reply_is_max(player: Player, moves: Seq<Grid>, depth: nat, n: int)
    requires
        depth >= 1,
        1 <= n <= moves.len(),
    ensures
        best_reply(player, moves, depth, n) == seq_max(replies(player, moves, depth).take(n)),
    decreases n,
{
    let values = replies(player, moves, depth);
    if n > 1 {
        lemma_best_reply_is_max(player, moves, depth, n - 1);
        assert(values.take(n).drop_last() =~= values.take(n - 1));
    }
}

pub proof fn lemma_best_reply_grows(player: Player, moves: Seq<Grid>, depth: nat, i: int, n: int)
    requires
        depth >= 1,
        1 <= i <= n,
    ensures
        best_reply(player, moves, depth, i) <= best_reply(player, moves, depth, n),
    decreases n - i,
{
    if i < n {
        lemma_best_reply_grows(player, moves, depth, i, n - 1);
    }
}

/// The moves in the order of the search are the moves of the player, all
/// of them well-formed, and the best of them is worth the same.
pub proof fn lemma_ordered_moves(player: Player, grid: Grid, depth: nat)
    requires
        grid.wf(),
        player.valid(),
        depth >= 1,
    ensures
        ordered_moves(player, grid, depth).len() == grid.moves(player).len(),
        sorted_moves(player, grid).len() == grid.moves(player).len(),
        forall|j: int|
            0 <= j < grid.moves(player).len() ==> (#[trigger] ordered_moves(
                player,
                grid,
                depth,
            )[j]).wf(),
        forall|j: int|
            0 <= j < grid.moves(player).len() ==> (#[trigger] sorted_moves(player, grid)[j]).wf(),
        grid.moves(player).len() >= 1 ==> best_reply(
            player,
            ordered_moves(player, grid, depth),
            depth,
            grid.moves(player).len() as int,
        ) == minimax(player, grid, depth),
        grid.moves(player).len() >= 1 ==> best_reply(
            player,
            sorted_moves(player, grid),
            depth,
            grid.moves(player).len() as int,
        ) == minimax(player, grid, depth),
{
    let moves = grid.moves(player);
    let keys = moves.map_values(|next: Grid| order_key(player, next));
    let sorted = sorted_moves(player, grid);
    let len = moves.len() as int;
    assert(sorted == stable_sort(moves, keys));
    lemma_stable_sort_len(moves, keys);
    assert forall|j: int| 0 <= j < len implies (#[trigger] sorted[j]).wf() by {
        let k = lemma_stable_sort_item(moves, keys, j);
        lemma_move_wf(grid, player, k);
    }
    assert forall|j: int| 0 <= j < len implies (#[trigger] ordered_moves(
        player,
        grid,
        depth,
    )[j]).wf() by {
        if depth > 1 {
            assert(sorted[j].wf());
        } else {
            lemma_move_wf(grid, player, j);
        }
    }
    if len >= 1 {
        let value = |next: Grid| -minimax(player.spec_next(), next, (depth - 1) as nat);
        lemma_stable_sort_map(moves, keys, value);
        assert(moves.map_values(value) =~= replies(player, moves, depth));
        assert(sorted.map_values(value) =~= replies(player, sorted, depth));
        lemma_stable_sort_max(replies(player, moves, depth), keys);
        lemma_best_reply_is_max(player, moves, depth, len);
        lemma_best_reply_is_max(player, sorted, depth, len);
        assert(replies(player, moves, depth).take(len) =~= replies(player, moves, depth));
        assert(replies(player, sorted, depth).take(len) =~= replies(player, sorted, depth));
    }
}

/// What a scan returns, held against the best value among all the moves.
pub proof fn lemma_scan_bounds(
    player: Player,
    moves: Seq<Grid>,
    depth: nat,
    i: int,
    best: int,
    visited: nat,
    lower: int,
    alpha: int,
    beta: int,
)
    requires
        player.valid(),
        depth >= 1,
        moves.len() >= 1,
        forall|j: int| 0 <= j < moves.len() ==> (#[trigger] moves[j]).wf(),
        0 <= i <= moves.len(),
        alpha < beta,
        i == 0 ==> best == i32::MIN && lower == alpha,
        i > 0 ==> {
            &&& lower == larger(alpha, best)
            &&& best < beta
            &&& -SCORE_LIMIT <= best <= SCORE_LIMIT
            &&& best_reply(player, moves, depth, i) <= best
            &&& best > alpha ==> best == best_reply(player, moves, depth, i)
        },
    ensures
        ({
            let value = scan(player, moves, depth, i, best, visited, lower, beta).0;
            let exact = best_reply(player, moves, depth, moves.len() as int);
            &&& -SCORE_LIMIT <= value <= SCORE_LIMIT
            &&& value <= alpha ==> exact <= value
            &&& value >= beta ==> value <= exact
            &&& alpha < value < beta ==> value == exact
        }),
    decreases depth, 0int, moves.len() - i,
{
    if i < moves.len() {
        let next = player.spec_next();
        lemma_search_bounds(next, moves[i], (depth - 1) as nat, -beta, -lower);
        let found = search(next, moves[i], (depth - 1) as nat, -beta, -lower);
        let value = -found.0;
        let total = visited + found.1;
        lemma_best_reply_grows(player, moves, depth, i + 1, moves.len() as int);
        assert(reply(player, moves, depth, i) == -minimax(next, moves[i], (depth - 1) as nat));
        if value > best {
            if value < beta {
                lemma_scan_bounds(
                    player,
                    moves,
                    depth,
                    i + 1,
                    value,
                    total,
                    larger(lower, value),
                    alpha,
                    beta,
                );
            }
        } else {
            lemma_scan_bounds(player, moves, depth, i + 1, best, total, lower, alpha, beta);
        }
    }
}

/// What the pruning search returns, held against the exhaustive value: a
/// value inside the bounds is exact; one at or below `alpha` is no less
/// than the exact value; one at or above `beta` is no more than it.
pub proof fn lemma_search_bounds(player: Player, grid: Grid, depth: nat, alpha: int, beta: int)
    requires
        player.valid(),
        grid.wf(),
        alpha < beta,
    ensures
        ({
            let value = search(player, grid, depth, alpha, beta).0;
            let exact = minimax(player, grid, depth);
            &&& -SCORE_LIMIT <= value <= SCORE_LIMIT
            &&& -SCORE_LIMIT <= exact <= SCORE_LIMIT
            &&& value <= alpha ==> exact <= value
            &&& value >= beta ==> value <= exact
            &&& alpha < value < beta ==> value == exact
        }),
    decreases depth, 1int, 0int,
{
    grid.lemma_heuristic_bound();
    lemma_times_direction(player, grid.heuristic());
    assert(leaf_value(player, grid) == grid.heuristic() * player.spec_direction());
    if depth > 0 {
        lemma_ordered_moves(player, grid, depth);
        let ordered = ordered_moves(player, grid, depth);
        if ordered.len() > 0 {
            lemma_scan_bounds(player, ordered, depth, 0, i32::MIN as int, 0, alpha, alpha, beta);
            lemma_minimax_bound(player, grid, depth);
        }
    }
}

/// The exhaustive value is a score of the evaluator, or the opposite of one.
pub proof fn lemma_minimax_bound(player: Player, grid: Grid, depth: nat)
    requires
        player.valid(),
        grid.wf(),
    ensures
        -SCORE_LIMIT <= minimax(player, grid, depth) <= SCORE_LIMIT,
    decreases depth, 1int, 0int,
{
    grid.lemma_heuristic_bound();
    lemma_times_direction(player, grid.heuristic());
    assert(leaf_value(player, grid) == grid.heuristic() * player.spec_direction());
    if depth > 0 && grid.moves(player).len() > 0 {
        lemma_best_reply_bound(player, grid, depth, grid.moves(player).len() as int);
    }
}

pub proof fn lemma_best_reply_bound(player: Player, grid: Grid, depth: nat, n: int)
    requires
        player.valid(),
        grid.wf(),
        depth >= 1,
        1 <= n <= grid.moves(player).len(),
    ensures
        -SCORE_LIMIT <= best_reply(player, grid.moves(player), depth, n) <= SCORE_LIMIT,
    decreases depth, 0int, n,
{
    let moves = grid.moves(player);
    lemma_move_wf(grid, player, n - 1);
    lemma_minimax_bound(player.spec_next(), moves[n - 1], (depth - 1) as nat);
    assert(reply(player, moves, depth, n - 1) == -minimax(
        player.spec_next(),
        moves[n - 1],
        (depth - 1) as nat,
    ));
    if n > 1 {
        lemma_best_reply_bound(player, grid, depth, n - 1);
    }
}

/// Alpha-beta equivalence: with bounds that no score reaches, the pruning
/// search returns the value of the exhaustive minimax search. Pruning and
/// move ordering change the number of boards evaluated, never the value.
pub proof fn lemma_search_is_minimax(player: Player, grid: Grid, depth: nat, alpha: int, beta: int)
    requires
        player.valid(),
        grid.wf(),
        alpha < -SCORE_LIMIT,
        SCORE_LIMIT < beta,
    ensures
        search(player, grid, depth, alpha, beta).0 == minimax(player, grid, depth),
{
    lemma_search_bounds(player, grid, depth, alpha, beta);
}

/// Negamax symmetry: at a board where neither the player nor the next
/// player looks ahead, because the depth is 0 or neither has a move, the
/// next player's value under the negated and swapped bounds is the
/// opposite of the player's.
pub proof fn lemma_negamax_symmetry(player: Player, grid: Grid, depth: nat, alpha: int, beta: int)
    requires
        player.valid(),
        depth == 0 || (grid.moves(player).len() == 0 && grid.moves(player.spec_next()).len() == 0),
    ensures
        search(player, grid, depth, alpha, beta).0 == -search(
            player.spec_next(),
            grid,
            depth,
            -beta,
            -alpha,
        ).0,
{
    lemma_times_direction(player, grid.heuristic());
    lemma_times_direction(player.spec_next(), grid.heuristic());
    assert(leaf_value(player, grid) == grid.heuristic() * player.spec_direction()) by (nonlinear_arith)
        requires
            leaf_value(player, grid) == player.spec_direction() * grid.heuristic(),
    ;
    assert(leaf_value(player.spec_next(), grid) == grid.heuristic()
        * player.spec_next().spec_direction()) by (nonlinear_arith)
        requires
            leaf_value(player.spec_next(), grid) == player.spec_next().spec_direction()
                * grid.heuristic(),
    ;
    if depth > 0 {
        let next = player.spec_next();
        let keys = grid.moves(player).map_values(|after: Grid| order_key(player, after));
        let next_keys = grid.moves(next).map_values(|after: Grid| order_key(next, after));
        lemma_stable_sort_len(grid.moves(player), keys);
        lemma_stable_sort_len(grid.moves(next), next_keys);
    }
}


/// The `k`-th move is the first one that is worth as much as the best.
pub open spec fn is_first_best(player: Player, moves: Seq<Grid>, depth: nat, k: int) -> bool {
    &&& 0 <= k < moves.len()
    &&& reply(player, moves, depth, k) == best_reply(player, moves, depth, moves.len() as int)
    &&& forall|j: int| 0 <= j < k ==> reply(player, moves, depth, j) < reply(player, moves, depth, k)
}

pub proof fn lemma_reply_below_best(player: Player, moves: Seq<Grid>, depth: nat, j: int, n: int)
    requires
        depth >= 1,
        0 <= j < n,
    ensures
        reply(player, moves, depth, j) <= best_reply(player, moves, depth, n),
    decreases n,
{
    if j < n - 1 {
        lemma_reply_below_best(player, moves, depth, j, n - 1);
    }
}

/// With bounds that no score reaches, the scan at the top of the search
/// ends at the first move that is worth as much as the best.
pub proof fn lemma_choose_scan(
    player: Player,
    moves: Seq<Grid>,
    depth: nat,
    i: int,
    chosen: int,
    best: int,
    visited: nat,
    lower: int,
    alpha: int,
    beta: int,
)
    requires
        player.valid(),
        depth >= 1,
        moves.len() >= 1,
        forall|j: int| 0 <= j < moves.len() ==> (#[trigger] moves[j]).wf(),
        0 <= i <= moves.len(),
        alpha < -SCORE_LIMIT,
        SCORE_LIMIT < beta,
        i == 0 ==> chosen == -1 && best == i32::MIN && lower == alpha,
        i > 0 ==> {
            &&& 0 <= chosen < i
            &&& lower == best
            &&& -SCORE_LIMIT <= best <= SCORE_LIMIT
            &&& best == best_reply(player, moves, depth, i)
            &&& reply(player, moves, depth, chosen) == best
            &&& forall|j: int| 0 <= j < chosen ==> reply(player, moves, depth, j) < best
        },
    ensures
        ({
            let found = choose_scan(player, moves, depth, i, chosen, best, visited, lower, beta);
            &&& is_first_best(player, moves, depth, found.0)
            &&& found.1 == best_reply(player, moves, depth, moves.len() as int)
        }),
    decreases moves.len() - i,
{
    if i < moves.len() {
        let next = player.spec_next();
        lemma_search_bounds(next, moves[i], (depth - 1) as nat, -beta, -lower);
        let found = search(next, moves[i], (depth - 1) as nat, -beta, -lower);
        let value = -found.0;
        let total = visited + found.1;
        assert(reply(player, moves, depth, i) == -minimax(next, moves[i], (depth - 1) as nat));
        if value > best {
            assert forall|j: int| 0 <= j < i implies reply(player, moves, depth, j) < value by {
                lemma_reply_below_best(player, moves, depth, j, i);
            }
            lemma_choose_scan(
                player,
                moves,
                depth,
                i + 1,
                i,
                value,
                total,
                larger(lower, value),
                alpha,
                beta,
            );
        } else {
            lemma_choose_scan(player, moves, depth, i + 1, chosen, best, total, lower, alpha, beta);
        }
    }
}

/// Alpha-beta equivalence for the chosen move: with bounds that no score
/// reaches, the value that comes with the chosen move is the exhaustive
/// minimax value of the board, and the chosen move is the one that an
/// exhaustive search of the sorted moves chooses: the first that is worth
/// as much as the best. Without a move the value is the evaluator's.
pub proof fn lemma_choice_is_minimax(player: Player, grid: Grid, depth: nat, alpha: int, beta: int)
    requires
        player.valid(),
        grid.wf(),
        depth >= 1,
        alpha < -SCORE_LIMIT,
        SCORE_LIMIT < beta,
    ensures
        choice(player, grid, depth, alpha, beta).1 == minimax(player, grid, depth),
        choice(player, grid, depth, alpha, beta).0.is_none() <==> grid.moves(player).len() == 0,
        grid.moves(player).len() > 0 ==> exists|k: int|
            #[trigger] is_first_best(player, sorted_moves(player, grid), depth, k) && choice(
                player,
                grid,
                depth,
                alpha,
                beta,
            ).0 == Some(sorted_moves(player, grid)[k]),
{
    lemma_ordered_moves(player, grid, depth);
    let sorted = sorted_moves(player, grid);
    if sorted.len() > 0 {
        lemma_choose_scan(player, sorted, depth, 0, -1, i32::MIN as int, 0, alpha, alpha, beta);
        let found = choose_scan(player, sorted, depth, 0, -1, i32::MIN as int, 0, alpha, beta);
        assert(is_first_best(player, sorted, depth, found.0));
    }
}

} // verus!
