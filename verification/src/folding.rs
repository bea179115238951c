//! Searching the moves of one board side by side.
//!
//! Every move has a task that searches it. A task reads the lower bound at
//! some moment, searches, and folds its result into the best result so far,
//! which raises the lower bound for the tasks that read it later. Whatever
//! the order of the tasks and however old the bounds that they have read,
//! the best value is the exhaustive minimax value.

use crate::board::{Grid, Player};
use crate::eval::SCORE_LIMIT;
use crate::minimax::{
    best_reply, lemma_ordered_moves, lemma_reply_below_best, lemma_search_bounds, minimax, reply,
};
use crate::search::{larger, search, sorted_moves};
use vstd::prelude::*;

verus! {

/// The value that the task for the `i`-th move finds for `player`, after it
/// has read `bound` as the lower bound.
pub open spec fn task_value(
    player: Player,
    moves: Seq<Grid>,
    depth: nat,
    beta: int,
    i: int,
    bound: int,
) -> int {
    -search(player.spec_next(), moves[i], (depth - 1) as nat, -beta, -bound).0
}

/// The best value after the results of the first `n` tasks have been
/// folded: `order` holds the moves of the tasks in the order in which their
/// results were folded, and `bounds` the lower bounds that the tasks had read.
pub open spec fn folded(
    player: Player,
    moves: Seq<Grid>,
    depth: nat,
    beta: int,
    order: Seq<int>,
    bounds: Seq<int>,
    n: int,
) -> int
    decreases n,
{
    if n <= 0 {
        i32::MIN as int
    } else {
        larger(
            folded(player, moves, depth, beta, order, bounds, n - 1),
            task_value(player, moves, depth, beta, order[n - 1], bounds[n - 1]),
        )
    }
}

/// The lower bound after the results of the first `n` tasks have been folded.
pub open spec fn raised(
    player: Player,
    moves: Seq<Grid>,
    depth: nat,
    alpha: int,
    beta: int,
    order: Seq<int>,
    bounds: Seq<int>,
    n: int,
) -> int {
    larger(alpha, folded(player, moves, depth, beta, order, bounds, n))
}

/// The tasks make up a search of the moves: every move has a task, and
/// every task has read the lower bound as it was after some of the results
/// before its own had been folded, or before any.
pub open spec fn is_run(
    player: Player,
    moves: Seq<Grid>,
    depth: nat,
    alpha: int,
    beta: int,
    order: Seq<int>,
    bounds: Seq<int>,
) -> bool {
    &&& order.len() == bounds.len()
    &&& forall|n: int| 0 <= n < order.len() ==> 0 <= #[trigger] order[n] < moves.len()
    &&& forall|i: int| 0 <= i < moves.len() ==> #[trigger] order.contains(i)
    &&& forall|n: int|
        0 <= n < order.len() ==> exists|k: int|
            0 <= k <= n && #[trigger] bounds[n] == raised(
                player,
                moves,
                depth,
                alpha,
                beta,
                order,
                bounds,
                k,
            )
}

/// One of the moves is worth as much as the best.
pub proof fn lemma_best_reply_attained(player: Player, moves: Seq<Grid>, depth: nat, n: int) -> (i:
    int)
    requires
        depth >= 1,
        1 <= n,
    ensures
        0 <= i < n,
        reply(player, moves, depth, i) == best_reply(player, moves, depth, n),
    decreases n,
{
    if n == 1 {
        0
    } else if best_reply(player, moves, depth, n - 1) >= reply(player, moves, depth, n - 1) {
        lemma_best_reply_attained(player, moves, depth, n - 1)
    } else {
        n - 1
    }
}

/// While results are folded, the best value never falls, never rises above
/// the value of the best move, and is no less than the value of any move
/// whose result has been folded.
pub proof fn lemma_folded(
    player: Player,
    moves: Seq<Grid>,
    depth: nat,
    alpha: int,
    beta: int,
    order: Seq<int>,
    bounds: Seq<int>,
    n: int,
)
    requires
        player.valid(),
        depth >= 1,
        moves.len() >= 1,
        forall|j: int| 0 <= j < moves.len() ==> (#[trigger] moves[j]).wf(),
        alpha < -SCORE_LIMIT,
        SCORE_LIMIT < beta,
        is_run(player, moves, depth, alpha, beta, order, bounds),
        0 <= n <= order.len(),
    ensures
        n >= 1 ==> -SCORE_LIMIT <= folded(player, moves, depth, beta, order, bounds, n),
        folded(player, moves, depth, beta, order, bounds, n) <= best_reply(
            player,
            moves,
            depth,
            moves.len() as int,
        ),
        forall|k: int|
            0 <= k <= n ==> #[trigger] folded(player, moves, depth, beta, order, bounds, k)
                <= folded(player, moves, depth, beta, order, bounds, n),
        forall|j: int|
            0 <= j < n ==> reply(player, moves, depth, #[trigger] order[j]) <= folded(
                player,
                moves,
                depth,
                beta,
                order,
                bounds,
                n,
            ),
    decreases n,
{
    let best = best_reply(player, moves, depth, moves.len() as int);
    let first = lemma_best_reply_attained(player, moves, depth, moves.len() as int);
    lemma_search_bounds(
        player.spec_next(),
        moves[first],
        (depth - 1) as nat,
        -beta,
        beta,
    );
    assert(reply(player, moves, depth, first) == -minimax(
        player.spec_next(),
        moves[first],
        (depth - 1) as nat,
    ));
    if n > 0 {
        lemma_folded(player, moves, depth, alpha, beta, order, bounds, n - 1);
        let before = folded(player, moves, depth, beta, order, bounds, n - 1);
        let i = order[n - 1];
        let bound = bounds[n - 1];
        let k = choose|k: int|
            0 <= k <= n - 1 && bounds[n - 1] == raised(
                player,
                moves,
                depth,
                alpha,
                beta,
                order,
                bounds,
                k,
            );
        assert(folded(player, moves, depth, beta, order, bounds, k) <= before);
        assert(bound <= larger(alpha, before));
        lemma_search_bounds(player.spec_next(), moves[i], (depth - 1) as nat, -beta, -bound);
        lemma_reply_below_best(player, moves, depth, i, moves.len() as int);
        assert(reply(player, moves, depth, i) == -minimax(
            player.spec_next(),
            moves[i],
            (depth - 1) as nat,
        ));
    }
}

/// Whatever the order in which the moves of a board are searched side by
/// side, and whatever lower bounds the tasks have read, with bounds of the
/// search that no score reaches the best value is the exhaustive minimax
/// value of the board: a bound that is out of date costs work, not truth.
pub proof fn lemma_any_run_is_minimax(
    player: Player,
    grid: Grid,
    depth: nat,
    alpha: int,
    beta: int,
    order: Seq<int>,
    bounds: Seq<int>,
)
    requires
        player.valid(),
        grid.wf(),
        depth >= 1,
        grid.moves(player).len() >= 1,
        alpha < -SCORE_LIMIT,
        SCORE_LIMIT < beta,
        is_run(player, sorted_moves(player, grid), depth, alpha, beta, order, bounds),
    ensures
        folded(
            player,
            sorted_moves(player, grid),
            depth,
            beta,
            order,
            bounds,
            order.len() as int,
        ) == minimax(player, grid, depth),
{
    let moves = sorted_moves(player, grid);
    lemma_ordered_moves(player, grid, depth);
    let count = moves.len() as int;
    lemma_folded(player, moves, depth, alpha, beta, order, bounds, order.len() as int);
    let i = lemma_best_reply_attained(player, moves, depth, count);
    assert(order.contains(i));
    let j = choose|j: int| 0 <= j < order.len() && order[j] == i;
    assert(reply(player, moves, depth, order[j]) <= folded(
        player,
        moves,
        depth,
        beta,
        order,
        bounds,
        order.len() as int,
    ));
}

} // verus!
