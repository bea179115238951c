use battle_sheep_solver::board::{Board, Player};
use battle_sheep_solver::{choose_move, evaluate, minimax_evaluate, sort_iter_by_cached_key};

/// The value of the board when every line of play is followed to the depth.
fn exhaustive(player: Player, board: &Board, depth: u32) -> i32 {
    let moves = if depth == 0 {
        vec![]
    } else {
        board.possible_moves(player)
    };
    if moves.is_empty() {
        return player.direction() * board.heuristic_evaluate();
    }
    moves
        .iter()
        .map(|next| -exhaustive(player.next(), next, depth - 1))
        .max()
        .unwrap()
}

#[test]
fn ai_chooses_only_option_and_loses() {
    let max_can_move = "
     0
   0   0   0
     0   0
  -2
+2   0   0   0   0   0   0   0   0   0
"
    .trim_matches('\n');
    /* Min gets larger connected field and wins on next turn. */
    let max_moved = "
     0
   0   0   0
     0   0
  -2
+1   0   0   0   0   0   0   0   0  +1
"
    .trim_matches('\n');
    let (next_board, val, visited) = choose_move(
        Player(1),
        &Board::parse(max_can_move).unwrap(),
        5,
        i32::MIN + 1,
        i32::MAX,
    );
    let value = Player(1).direction() * val;
    assert_eq!(next_board, Some(Board::parse(max_moved).unwrap()));
    assert_eq!(value, -1000000);
    assert!(visited > 0);
}

#[test]
fn ai_chooses_immediate_win() {
    let min_will_win = "
     0
   0   0   0
     0   0
  -2
+2   0   0   0   0   0   0   0   0   0
"
    .trim_matches('\n');
    let min_wins = "
     0
   0   0   0
     0   0
  -1
+2  -1   0   0   0   0   0   0   0   0
"
    .trim_matches('\n');
    let (next_board, val, visited) = choose_move(
        Player(0),
        &Board::parse(min_will_win).unwrap(),
        5,
        i32::MIN + 1,
        i32::MAX,
    );
    let value = Player(0).direction() * val;
    assert_eq!(next_board, Some(Board::parse(min_wins).unwrap()));
    assert_eq!(value, -1000000);
    assert!(visited > 0);
}

#[test]
fn sort_is_stable_and_ascending() {
    let items = vec![(3, 'a'), (1, 'b'), (3, 'c'), (1, 'd'), (2, 'e'), (-7, 'f')];
    assert_eq!(
        sort_iter_by_cached_key(items, |item: &(i32, char)| item.0),
        vec![(-7, 'f'), (1, 'b'), (1, 'd'), (2, 'e'), (3, 'a'), (3, 'c')]
    );
    assert_eq!(
        sort_iter_by_cached_key(Vec::<(i32, char)>::new(), |item: &(i32, char)| item.0),
        vec![]
    );
}

#[test]
fn sort_calls_the_key_function_once_per_item_in_order() {
    let seen = std::cell::RefCell::new(Vec::new());
    let sorted = sort_iter_by_cached_key(vec![5, 3, 4], |item: &i32| {
        seen.borrow_mut().push(*item);
        -*item
    });
    assert_eq!(sorted, vec![5, 4, 3]);
    assert_eq!(seen.into_inner(), vec![5, 3, 4]);
}

#[test]
fn evaluation_at_depth_zero_is_the_heuristic_in_the_players_direction() {
    let input = "
   0  +2
-2   0  -3  +3
   0           0
"
    .trim_matches('\n');
    let board = Board::parse(input).unwrap();
    assert_eq!(evaluate(Player(1), &board, 0, -50, 50), (-1, 1));
    assert_eq!(evaluate(Player(0), &board, 0, -50, 50), (1, 1));
}

#[test]
fn swapping_the_player_and_negating_the_bounds_negates_the_leaf_value() {
    let input = "
     0      -8  -8
   0  +8   0   0
 0  +8       0
"
    .trim_matches('\n');
    let board = Board::parse(input).unwrap();
    for (alpha, beta) in [(i32::MIN + 1, i32::MAX), (-5, 7), (30, 31)] {
        let value = evaluate(Player(0), &board, 0, alpha, beta).0;
        assert_eq!(value, -evaluate(Player(1), &board, 0, -beta, -alpha).0);
    }
}

#[test]
fn evaluation_without_moves_falls_back_to_the_heuristic() {
    let draw = "
  +1   0  -1  +14
-14 +1   0  -1
"
    .trim_matches('\n');
    let board = Board::parse(draw).unwrap();
    assert_eq!(evaluate(Player(0), &board, 3, i32::MIN + 1, i32::MAX), (0, 1));
    assert_eq!(
        choose_move(Player(1), &board, 3, i32::MIN + 1, i32::MAX),
        (None, 0, 1)
    );
    assert_eq!(minimax_evaluate(Player(0), vec![], 3, -10, 10), (i32::MIN, 0));
}

#[test]
fn evaluation_at_depth_one_takes_the_best_reply() {
    let input = "
   0  +2
-2   0  -3  +3
   0           0
"
    .trim_matches('\n');
    let board = Board::parse(input).unwrap();
    let moves = board.possible_moves(Player(1));
    let best = moves
        .iter()
        .map(|next| next.heuristic_evaluate())
        .max()
        .unwrap();
    assert_eq!(
        evaluate(Player(1), &board, 1, i32::MIN + 1, i32::MAX),
        (best, 4)
    );
    assert_eq!(
        minimax_evaluate(Player(1), moves, 1, i32::MIN + 1, i32::MAX),
        (best, 4)
    );
}

#[test]
fn pruning_search_agrees_with_exhaustive_search() {
    let inputs = [
        "
   0  +2
-2   0  -3  +3
   0           0
",
        "
     0      -8  -8
   0  +8   0   0
 0  +8       0
",
        "
  -4   0   0  +8
-12  0   0  +8
",
    ];
    for input in inputs {
        let board = Board::parse(input.trim_matches('\n')).unwrap();
        for player in [Player(0), Player(1)] {
            for depth in 0..4 {
                let value = exhaustive(player, &board, depth);
                assert_eq!(
                    evaluate(player, &board, depth, i32::MIN + 1, i32::MAX).0,
                    value
                );
                if depth > 0 {
                    let (chosen, chosen_value, _) =
                        choose_move(player, &board, depth, i32::MIN + 1, i32::MAX);
                    assert_eq!(chosen_value, value);
                    let next = chosen.unwrap();
                    assert_eq!(-exhaustive(player.next(), &next, depth - 1), value);
                }
            }
        }
    }
}

#[test]
fn pruning_visits_no_more_boards_than_the_full_window() {
    let input = "
     0      -8  -8
   0  +8   0   0
 0  +8       0
"
    .trim_matches('\n');
    let board = Board::parse(input).unwrap();
    let (value, visited) = evaluate(Player(1), &board, 3, i32::MIN + 1, i32::MAX);
    let (bound, pruned) = evaluate(Player(1), &board, 3, value, value + 1);
    assert!(bound <= value);
    assert!(pruned <= visited);
    let (cut, _) = evaluate(Player(1), &board, 3, value - 2, value - 1);
    assert!(cut >= value - 1 && cut <= value);
}

#[test]
fn chosen_move_is_a_possible_move() {
    let input = "
   0  +2
-2   0  -3  +3
   0           0
"
    .trim_matches('\n');
    let board = Board::parse(input).unwrap();
    let (chosen, value, visited) = choose_move(Player(0), &board, 2, i32::MIN + 1, i32::MAX);
    assert!(board.possible_moves(Player(0)).contains(&chosen.unwrap()));
    assert_eq!(value, exhaustive(Player(0), &board, 2));
    assert!(visited >= board.possible_moves(Player(0)).len() as u64);
}

#[test]
fn folding_keeps_the_first_of_the_best_results() {
    let first = Board::parse("-1   0").unwrap();
    let second = Board::parse(" 0  -1").unwrap();
    let (best, raised) = battle_sheep_solver::fold_result((None, i32::MIN, 0), first.duplicate(), (-3, 5));
    assert!(raised);
    assert_eq!(best, (Some(first.duplicate()), 3, 5));
    let (best, raised) = battle_sheep_solver::fold_result(best, second.duplicate(), (-3, 7));
    assert!(!raised);
    assert_eq!(best, (Some(first.duplicate()), 3, 12));
    let (best, raised) = battle_sheep_solver::fold_result(best, second.duplicate(), (-4, u64::MAX));
    assert!(raised);
    assert_eq!(best, (Some(second), 4, u64::MAX));
}

#[test]
fn players_with_moves_need_not_see_opposite_values() {
    let input = "
   0  +2
-2   0  -3  +3
   0           0
"
    .trim_matches('\n');
    let board = Board::parse(input).unwrap();
    let value = evaluate(Player(1), &board, 1, i32::MIN + 1, i32::MAX).0;
    let other = evaluate(Player(0), &board, 1, -i32::MAX, i32::MAX).0;
    assert_eq!(value, exhaustive(Player(1), &board, 1));
    assert_eq!(other, exhaustive(Player(0), &board, 1));
    assert_ne!(value, -other);
}

#[test]
fn folding_in_any_order_with_old_bounds_gives_the_same_value() {
    let input = "
     0      -8  -8
   0  +8   0   0
 0  +8       0
"
    .trim_matches('\n');
    let board = Board::parse(input).unwrap();
    let player = Player(0);
    let depth = 3;
    let (_, value, _) = choose_move(player, &board, depth, i32::MIN + 1, i32::MAX);
    let moves = sort_iter_by_cached_key(board.possible_moves(player), |next: &Board| {
        -player.direction() * next.heuristic_evaluate()
    });
    /* Last move first, and every task with the bound that the task before it has left. */
    let mut best = (None, i32::MIN, 0);
    let mut bound = i32::MIN + 1;
    for next in moves.iter().rev() {
        let found = evaluate(player.next(), next, depth - 1, -i32::MAX, -bound);
        let old_bound = best.1.max(i32::MIN + 1);
        best = battle_sheep_solver::fold_result(best, next.duplicate(), found).0;
        bound = old_bound;
    }
    assert_eq!(best.1, value);
    assert_eq!(-exhaustive(player.next(), &best.0.unwrap(), depth - 1), value);
}
