use battle_sheep_solver::board::{Board, Player, Tile};
use battle_sheep_solver::editor::{Editor, HoverStack};

fn editor_with(text: &str) -> Editor {
    let mut editor = Editor::new();
    editor.board = Board::parse(text).unwrap();
    editor
}

#[test]
fn editor_starts_with_one_empty_tile_and_full_homes() {
    let editor = Editor::new();
    assert!(editor.is_well_formed());
    assert_eq!(editor.board.tiles, vec![Tile::empty()]);
    assert_eq!(editor.board.row_length, 1);
    assert_eq!(editor.hover_stack, None);
    assert_eq!(
        editor.home_stacks,
        [
            Some(Tile::stack(Player(0), 16)),
            Some(Tile::stack(Player(1), 16))
        ]
    );
}

#[test]
fn stack_goes_from_home_to_hand_and_back() {
    let mut editor = Editor::new();
    editor.release_on_home(Player(1));
    assert_eq!(
        editor.hover_stack,
        Some(HoverStack {
            stack: Tile::stack(Player(1), 16),
            origin: None
        })
    );
    assert_eq!(editor.home_stacks, [Some(Tile::stack(Player(0), 16)), None]);
    /* A full home does not take the stack. */
    editor.release_on_home(Player(0));
    assert_eq!(editor.home_stacks, [Some(Tile::stack(Player(0), 16)), None]);
    assert!(editor.hover_stack.is_some());
    editor.release_on_home(Player(1));
    assert_eq!(editor.hover_stack, None);
    assert_eq!(
        editor.home_stacks,
        [
            Some(Tile::stack(Player(0), 16)),
            Some(Tile::stack(Player(1), 16))
        ]
    );
}

#[test]
fn board_grows_by_a_tile_next_to_a_board_tile() {
    let mut editor = Editor::new();
    assert_eq!(editor.release_on_tile((0, 1)), (0, 0));
    assert_eq!(editor.board.tiles, vec![Tile::empty(), Tile::empty()]);
    assert_eq!(editor.release_on_tile((-1, -1)), (1, 1));
    assert_eq!(editor.board.row_length, 3);
    assert_eq!(
        editor.board.tiles,
        vec![
            Tile::empty(),
            Tile::no_tile(),
            Tile::no_tile(),
            Tile::no_tile(),
            Tile::empty(),
            Tile::empty()
        ]
    );
    /* A tile inside the rectangle that is no board tile yet. */
    assert_eq!(editor.release_on_tile((0, 1)), (0, 0));
    assert_eq!(editor.board.index((0, 1)), Tile::empty());
    /* Nothing next to it. */
    let before = editor.board.duplicate();
    assert_eq!(editor.release_on_tile((5, 5)), (0, 0));
    assert_eq!(editor.release_on_tile((3, 1)), (0, 0));
    assert_eq!(editor.release_on_tile((isize::MAX, isize::MIN)), (0, 0));
    assert_eq!(editor.board, before);
    assert!(editor.is_well_formed());
}

#[test]
fn board_does_not_grow_once_a_stack_stands_on_it() {
    let mut editor = editor_with("-2   0");
    let before = editor.board.duplicate();
    assert_eq!(editor.release_on_tile((0, 2)), (0, 0));
    assert_eq!(editor.release_on_tile((-1, 0)), (0, 0));
    assert_eq!(editor.board, before);
}

#[test]
fn starting_stack_is_put_down_on_the_outer_edge_only() {
    let input = "
   0   0
 0   0   0
   0   0
"
    .trim_matches('\n');
    let mut editor = editor_with(input);
    editor.release_on_home(Player(0));
    editor.release_on_tile((1, 1));
    assert!(editor.hover_stack.is_some());
    assert_eq!(editor.board.index((1, 1)), Tile::empty());
    editor.release_on_tile((1, 2));
    assert_eq!(editor.hover_stack, None);
    assert_eq!(editor.board.index((1, 2)), Tile::stack(Player(0), 16));
    assert!(editor.is_well_formed());
}

#[test]
fn half_a_stack_is_taken_moved_along_a_line_and_put_down() {
    let mut editor = editor_with("-5   0   0  +1");
    editor.release_on_tile((0, 0));
    assert_eq!(
        editor.hover_stack,
        Some(HoverStack {
            stack: Tile::stack(Player(0), 2),
            origin: Some((0, 0))
        })
    );
    assert_eq!(editor.board.index((0, 0)), Tile::stack(Player(0), 3));
    /* Not the end of the line. */
    editor.release_on_tile((0, 1));
    assert!(editor.hover_stack.is_some());
    /* Another stack. */
    editor.release_on_tile((0, 3));
    assert!(editor.hover_stack.is_some());
    editor.release_on_tile((0, 2));
    assert_eq!(editor.hover_stack, None);
    assert_eq!(editor.board.write(false), "-3   0  -2  +1");
    /* A single sheep is not taken. */
    editor.release_on_tile((0, 3));
    assert_eq!(editor.hover_stack, None);
    assert!(editor.is_well_formed());
}

#[test]
fn stack_in_the_hand_goes_back_onto_its_origin() {
    let mut editor = editor_with("-5   0");
    editor.release_on_tile((0, 0));
    editor.release_on_tile((0, 0));
    assert_eq!(editor.hover_stack, None);
    assert_eq!(editor.board.write(false), "-5   0");
}

#[test]
fn wheel_moves_sheep_between_the_hand_and_the_origin() {
    let mut editor = editor_with("+4   0");
    editor.release_on_tile((0, 0));
    editor.scroll(true);
    assert_eq!(editor.board.index((0, 0)), Tile::stack(Player(1), 1));
    assert_eq!(
        editor.hover_stack,
        Some(HoverStack {
            stack: Tile::stack(Player(1), 3),
            origin: Some((0, 0))
        })
    );
    /* The origin keeps its last sheep. */
    editor.scroll(true);
    assert_eq!(editor.board.index((0, 0)), Tile::stack(Player(1), 1));
    editor.scroll(false);
    editor.scroll(false);
    assert_eq!(editor.board.index((0, 0)), Tile::stack(Player(1), 3));
    /* The hand keeps its last sheep. */
    editor.scroll(false);
    assert_eq!(editor.board.index((0, 0)), Tile::stack(Player(1), 3));
    assert_eq!(editor.hover_stack.unwrap().stack, Tile::stack(Player(1), 1));
    assert!(editor.is_well_formed());
}

#[test]
fn wheel_changes_the_size_of_a_stack_from_a_home() {
    let mut editor = Editor::new();
    editor.scroll(true);
    assert_eq!(editor.hover_stack, None);
    editor.release_on_home(Player(0));
    for _ in 0..20 {
        editor.scroll(true);
    }
    assert_eq!(editor.hover_stack.unwrap().stack, Tile::stack(Player(0), 32));
    for _ in 0..40 {
        editor.scroll(false);
    }
    assert_eq!(editor.hover_stack.unwrap().stack, Tile::stack(Player(0), 1));
}

#[test]
fn editor_tells_whether_it_is_in_shape() {
    let mut editor = editor_with("-5   0");
    assert!(editor.is_well_formed());
    editor.hover_stack = Some(HoverStack {
        stack: Tile::stack(Player(1), 2),
        origin: Some((0, 0)),
    });
    assert!(!editor.is_well_formed());
    editor.hover_stack = Some(HoverStack {
        stack: Tile::stack(Player(0), 28),
        origin: Some((0, 0)),
    });
    assert!(!editor.is_well_formed());
    editor.hover_stack = Some(HoverStack {
        stack: Tile::stack(Player(0), 27),
        origin: Some((0, 0)),
    });
    assert!(editor.is_well_formed());
    editor.hover_stack = Some(HoverStack {
        stack: Tile::stack(Player(0), 2),
        origin: Some((0, 1)),
    });
    assert!(!editor.is_well_formed());
    editor.hover_stack = None;
    editor.home_stacks = [Some(Tile::empty()), None];
    assert!(!editor.is_well_formed());
}
