use battle_sheep_solver::board::{Board, Player, Tile};
use std::collections::HashSet;

fn sheep(board: &Board, player: Player) -> u32 {
    board
        .tiles
        .iter()
        .filter(|tile| tile.is_stack() && tile.player() == player)
        .map(|tile| tile.stack_size() as u32)
        .sum()
}

#[test]
fn possible_moves_are_found() {
    let input = "
   0  +2
-2   0  -3  +3
   0           0
"
    .trim_matches('\n');
    let max_moves = [
        "
  +1  +1
-2   0  -3  +3
   0           0
"
        .trim_matches('\n'),
        "
   0  +1
-2   0  -3  +3
  +1           0
"
        .trim_matches('\n'),
        "
   0  +2
-2   0  -3  +2
   0          +1
"
        .trim_matches('\n'),
        "
   0  +2
-2   0  -3  +1
   0          +2
"
        .trim_matches('\n'),
    ];
    assert_eq!(
        Board::parse(input)
            .unwrap()
            .possible_moves(Player(1))
            .into_iter()
            .collect::<HashSet<Board>>(),
        max_moves
            .iter()
            .map(|s| Board::parse(s).unwrap())
            .collect::<HashSet<Board>>()
    );
}

#[test]
fn possible_moves_come_in_the_order_of_stacks_directions_and_splits() {
    let input = "
   0  +2
-2   0  -3  +3
   0           0
"
    .trim_matches('\n');
    let board = Board::parse(input).unwrap();
    let moves = board.possible_moves(Player(1));
    let expected = [
        ((2, 1), 1, (0, 1), 1),
        ((0, 0), 1, (0, 1), 1),
        ((2, 4), 1, (1, 3), 2),
        ((2, 4), 2, (1, 3), 1),
    ];
    assert_eq!(moves.len(), 4);
    for (next, (target, moved, origin, kept)) in moves.iter().zip(expected) {
        let mut after = board.duplicate();
        after.set(target, Tile::stack(Player(1), moved));
        after.set(origin, Tile::stack(Player(1), kept));
        assert_eq!(next, &after);
    }
    assert_eq!(moves, board.possible_regular_moves(Player(1)));
}

#[test]
fn a_move_changes_two_tiles_and_keeps_the_sheep() {
    let input = "
     0      -8  -8
   0  +8   0   0
 0  +8       0
"
    .trim_matches('\n');
    let board = Board::parse(input).unwrap();
    for player in [Player(0), Player(1)] {
        let moves = board.possible_moves(player);
        assert!(!moves.is_empty());
        for next in moves {
            assert_eq!(next.row_length, board.row_length);
            let changed: Vec<usize> = (0..board.tiles.len())
                .filter(|&i| next.tiles[i] != board.tiles[i])
                .collect();
            assert_eq!(changed.len(), 2);
            assert!(changed.iter().any(|&i| board.tiles[i].is_empty()));
            assert_eq!(sheep(&next, Player(0)), sheep(&board, Player(0)));
            assert_eq!(sheep(&next, Player(1)), sheep(&board, Player(1)));
        }
    }
}

#[test]
fn every_split_of_a_stack_is_a_move() {
    let board = Board::parse("-5   0   0").unwrap();
    let moves = board.possible_moves(Player(0));
    let texts: Vec<String> = moves.iter().map(|next| next.write(false)).collect();
    assert_eq!(
        texts,
        vec!["-4   0  -1", "-3   0  -2", "-2   0  -3", "-1   0  -4"]
    );
}

#[test]
fn starting_moves_place_a_stack_of_sixteen_on_the_outer_edge() {
    let input = "
   0   0
 0   0   0
   0   0
"
    .trim_matches('\n');
    let board = Board::parse(input).unwrap();
    assert!(!board.has_stack_of(Player(0)));
    let moves = board.possible_moves(Player(0));
    assert_eq!(moves, board.possible_starting_moves(Player(0)));
    let edge = board.iter_empty_outer_edge();
    assert_eq!(moves.len(), 6);
    for (next, target) in moves.iter().zip(edge) {
        let mut after = board.duplicate();
        after.set(target, Tile::stack(Player(0), 16));
        assert_eq!(next, &after);
        assert_eq!(sheep(next, Player(0)), 16);
        assert_eq!(sheep(next, Player(1)), 0);
    }
}

#[test]
fn a_player_with_stacks_of_one_or_boxed_in_has_no_move() {
    let input = "
  +14 +1   0   0
-15 +1  -1   0
"
    .trim_matches('\n');
    let board = Board::parse(input).unwrap();
    assert!(board.has_stack_of(Player(0)) && board.has_stack_of(Player(1)));
    assert_eq!(board.possible_moves(Player(0)), vec![]);
    assert_eq!(board.possible_moves(Player(1)), vec![]);
}

#[test]
fn a_player_without_stacks_and_without_empty_tiles_has_no_move() {
    let board = Board::parse("-2  -3").unwrap();
    assert_eq!(board.possible_moves(Player(1)), vec![]);
}
