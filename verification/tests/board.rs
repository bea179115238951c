use battle_sheep_solver::board::{add_offset, Board, Player, Tile, TileType, DIRECTION_OFFSETS};

fn sample() -> Board {
    let input = "
   0  +2
-2   0  -3  +3
   0           0
"
    .trim_matches('\n');
    Board::parse(input).unwrap()
}

#[test]
fn players_take_turns() {
    assert_eq!(Player::iter(), vec![Player(0), Player(1)]);
    assert_eq!(Player(0).next(), Player(1));
    assert_eq!(Player(1).next(), Player(0));
    assert_eq!(Player(0).direction(), -1);
    assert_eq!(Player(1).direction(), 1);
    assert_eq!(Player(1).id(), 1);
    assert_eq!(Player::PLAYER_COUNT, 2);
}

#[test]
fn tiles_pack_into_a_byte() {
    assert_eq!(Tile::new(TileType::Stack, Player(0), 1), Tile(0));
    assert_eq!(Tile::new(TileType::Stack, Player(1), 32), Tile(63));
    assert_eq!(Tile::new(TileType::NoTile, Player(0), 1), Tile(64));
    assert_eq!(Tile::new(TileType::Empty, Player(0), 1), Tile(128));
    assert_eq!(Tile::no_tile(), Tile(64));
    assert_eq!(Tile::empty(), Tile(128));
    assert_eq!(Tile::stack(Player(1), 16), Tile(47));
}

#[test]
fn tiles_unpack_from_a_byte() {
    let stack = Tile::stack(Player(1), 16);
    assert_eq!(stack.tile_type(), TileType::Stack);
    assert_eq!(stack.player(), Player(1));
    assert_eq!(stack.stack_size(), 16);
    assert!(stack.is_stack() && !stack.is_empty() && stack.is_board_tile());
    assert_eq!(Tile::empty().tile_type(), TileType::Empty);
    assert!(Tile::empty().is_empty() && Tile::empty().is_board_tile());
    assert_eq!(Tile::no_tile().tile_type(), TileType::NoTile);
    assert!(!Tile::no_tile().is_board_tile());
    assert_eq!(Tile(127).tile_type(), TileType::NoTile);
    assert_eq!(Tile(255).tile_type(), TileType::Empty);
    assert_eq!(Tile::MAX_STACK_SIZE, 32);
}

#[test]
fn offsets_add_up() {
    assert_eq!(add_offset((2, 3), (-1, -1)), (1, 2));
    assert_eq!(
        DIRECTION_OFFSETS,
        [(0, 1), (1, 1), (1, 0), (0, -1), (-1, -1), (-1, 0)]
    );
}

#[test]
fn index_is_total() {
    let board = sample();
    assert_eq!(board.num_rows(), 3);
    assert_eq!(board.index((0, 1)), Tile::stack(Player(1), 2));
    assert_eq!(board.index((1, 2)), Tile::stack(Player(0), 3));
    assert_eq!(board.index((2, 4)), Tile::empty());
    assert_eq!(board.index((2, 0)), Tile::no_tile());
    assert_eq!(board.index((-1, 0)), Tile::no_tile());
    assert_eq!(board.index((0, -1)), Tile::no_tile());
    assert_eq!(board.index((3, 0)), Tile::no_tile());
    assert_eq!(board.index((0, 5)), Tile::no_tile());
    assert_eq!(board.index((isize::MIN, isize::MAX)), Tile::no_tile());
}

#[test]
fn coordinates_and_indices_correspond() {
    let board = sample();
    assert_eq!(board.coords_to_index((1, 3)), 8);
    assert_eq!(board.index_to_coords(8), (1, 3));
    assert!(board.coords_in_range((2, 4)));
    assert!(!board.coords_in_range((2, 5)));
    assert!(!board.coords_in_range((-1, 0)));
}

#[test]
fn set_replaces_one_tile() {
    let mut board = sample();
    let before = board.duplicate();
    board.set((2, 1), Tile::stack(Player(0), 5));
    assert_eq!(board.index((2, 1)), Tile::stack(Player(0), 5));
    let changed = (0..15).filter(|&i| board.tiles[i] != before.tiles[i]).count();
    assert_eq!(changed, 1);
    assert_eq!(board.row_length, 5);
}

#[test]
fn rows_and_cells_come_in_row_major_order() {
    let board = sample();
    let cells = board.iter_row_major();
    assert_eq!(cells.len(), 15);
    assert_eq!(cells[0], ((0, 0), Tile::empty()));
    assert_eq!(cells[8], ((1, 3), Tile::stack(Player(1), 3)));
    assert_eq!(cells[14], ((2, 4), Tile::empty()));
    let rows = board.iter_rows();
    assert_eq!(rows.len(), 3);
    assert_eq!(rows[1].0, 1);
    assert_eq!(rows[1].1, board.tiles[5..10].to_vec());
}

#[test]
fn neighbors_come_clockwise() {
    let board = sample();
    assert_eq!(
        board.iter_neighbors((1, 1)),
        vec![
            ((1, 2), Tile::stack(Player(0), 3)),
            ((2, 2), Tile::no_tile()),
            ((2, 1), Tile::empty()),
            ((1, 0), Tile::stack(Player(0), 2)),
            ((0, 0), Tile::empty()),
            ((0, 1), Tile::stack(Player(1), 2)),
        ]
    );
}

#[test]
fn straight_line_stops_at_the_first_tile_that_is_not_empty() {
    let board = Board::parse(" 0   0   0  -1   0").unwrap();
    assert_eq!(
        board.iter_empty_straight_line((0, 0), (0, 1)),
        vec![(0, 1), (0, 2)]
    );
    assert_eq!(
        board.iter_empty_straight_line((0, 3), (0, -1)),
        vec![(0, 2), (0, 1), (0, 0)]
    );
    assert_eq!(board.iter_empty_straight_line((0, 3), (1, 0)), vec![]);
    assert_eq!(board.iter_empty_straight_line((0, 4), (0, 1)), vec![]);
}

#[test]
fn straight_line_ends_are_the_farthest_empty_tiles() {
    let board = sample();
    assert_eq!(
        board.iter_empty_straight_line_ends((0, 1)),
        vec![(2, 1), (0, 0)]
    );
    assert_eq!(board.iter_empty_straight_line_ends((1, 3)), vec![(2, 4)]);
    assert_eq!(board.iter_empty_straight_line_ends((1, 2)), vec![(1, 1)]);
}

#[test]
fn outer_edge_walks_around_the_board() {
    let board = sample();
    assert_eq!(
        board.iter_empty_outer_edge(),
        vec![(2, 4), (1, 1), (2, 1), (0, 0)]
    );
}

#[test]
fn outer_edge_of_a_single_tile() {
    let board = Board {
        tiles: vec![Tile::empty()],
        row_length: 1,
    };
    assert_eq!(board.iter_empty_outer_edge(), vec![(0, 0)]);
}

#[test]
fn outer_edge_leaves_out_the_inner_tile() {
    let input = "
   0   0
 0   0   0
   0   0
"
    .trim_matches('\n');
    let board = Board::parse(input).unwrap();
    let edge = board.iter_empty_outer_edge();
    assert_eq!(edge.len(), 6);
    assert!(!edge.contains(&(1, 1)));
    assert_eq!(
        edge,
        vec![(0, 1), (1, 2), (2, 2), (2, 1), (1, 0), (0, 0)]
    );
}

#[test]
fn extending_before_the_first_row_shifts_the_rows() {
    let mut board = Board {
        tiles: vec![Tile::empty()],
        row_length: 1,
    };
    assert_eq!(board.extend_to_contain((-1, 0)), (1, 0));
    assert_eq!(board.tiles, vec![Tile::no_tile(), Tile::empty()]);
    assert_eq!(board.row_length, 1);
    assert_eq!(board.extend_to_contain((0, -1)), (0, 1));
    assert_eq!(
        board.tiles,
        vec![Tile::no_tile(), Tile::no_tile(), Tile::no_tile(), Tile::empty()]
    );
    assert_eq!(board.row_length, 2);
}

#[test]
fn extending_behind_the_last_row_and_column_keeps_the_coordinates() {
    let mut board = sample();
    let before = board.duplicate();
    assert_eq!(board.extend_to_contain((3, 5)), (0, 0));
    assert_eq!(board.num_rows(), 4);
    assert_eq!(board.row_length, 6);
    for r in -1..5 {
        for q in -1..7 {
            assert_eq!(board.index((r, q)), before.index((r, q)));
        }
    }
}

#[test]
fn extending_inside_the_board_changes_nothing() {
    let mut board = sample();
    let before = board.duplicate();
    assert_eq!(board.extend_to_contain((1, 1)), (0, 0));
    assert_eq!(board, before);
    assert_eq!(board.extend_to_contain((7, 9)), (0, 0));
    assert_eq!(board, before);
}

#[test]
fn boards_tell_whether_the_functions_can_take_them() {
    let board = sample();
    assert!(board.is_well_formed());
    assert!(board.has_board_tile());
    let ragged = Board {
        tiles: vec![Tile::empty(); 5],
        row_length: 2,
    };
    assert!(!ragged.is_well_formed());
    let no_columns = Board {
        tiles: vec![],
        row_length: 0,
    };
    assert!(!no_columns.is_well_formed());
    let no_tiles = Board {
        tiles: vec![Tile::no_tile(); 4],
        row_length: 2,
    };
    assert!(no_tiles.is_well_formed());
    assert!(!no_tiles.has_board_tile());
}
