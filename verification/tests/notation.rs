use battle_sheep_solver::board::{Board, Player, Tile};
use battle_sheep_solver::notation::ParseError;

#[test]
fn output_equals_input() {
    /* Multiline strings are not indented correctly because the indentation would change the
     * string content. */
    let input = "
   0  +2
-2   0  -3  +3
   0           0
"
    .trim_matches('\n');
    assert_eq!(input, Board::parse(input).unwrap().write(false));
}

#[test]
fn parse_fails_on_invalid_board() {
    assert!(Board::parse("abcdefg").is_err());
}

#[test]
fn parse_reads_every_cell() {
    let input = "
   0  +2
-2   0  -3  +3
   0           0
"
    .trim_matches('\n');
    let board = Board::parse(input).unwrap();
    let n = Tile::no_tile();
    let e = Tile::empty();
    assert_eq!(board.row_length, 5);
    assert_eq!(
        board.tiles,
        vec![
            e,
            Tile::stack(Player(1), 2),
            n,
            n,
            n,
            Tile::stack(Player(0), 2),
            e,
            Tile::stack(Player(0), 3),
            Tile::stack(Player(1), 3),
            n,
            n,
            e,
            n,
            n,
            e,
        ]
    );
}

#[test]
fn parse_skips_blank_lines_and_shared_indentation() {
    let plain = Board::parse("-2   0\n  +3").unwrap();
    let padded = Board::parse("\n   \n    -2   0  \n\n      +3\t\n\n").unwrap();
    assert_eq!(plain, padded);
    assert_eq!(plain.row_length, 2);
    assert_eq!(
        plain.tiles,
        vec![
            Tile::stack(Player(0), 2),
            Tile::empty(),
            Tile::no_tile(),
            Tile::stack(Player(1), 3),
        ]
    );
}

#[test]
fn parse_accepts_the_largest_stack_and_a_plus_sign_before_the_size() {
    let board = Board::parse("-32 ++7").unwrap();
    assert_eq!(
        board.tiles,
        vec![Tile::stack(Player(0), 32), Tile::stack(Player(1), 7)]
    );
}

#[test]
fn parse_reports_an_empty_board() {
    assert_eq!(Board::parse(""), Err(ParseError::EmptyBoard));
    assert_eq!(Board::parse("  \n\t\n   "), Err(ParseError::EmptyBoard));
}

#[test]
fn parse_reports_an_invalid_tile() {
    assert_eq!(Board::parse("abcdefg"), Err(ParseError::InvalidTile));
    assert_eq!(Board::parse(" 0   1"), Err(ParseError::InvalidTile));
    assert_eq!(Board::parse(" 00"), Err(ParseError::InvalidTile));
}

#[test]
fn parse_reports_a_missing_stack_size() {
    assert_eq!(Board::parse("-"), Err(ParseError::StackSizeMissing));
    assert_eq!(Board::parse(" 0  +"), Err(ParseError::StackSizeMissing));
}

#[test]
fn parse_reports_a_stack_size_that_is_no_number() {
    assert_eq!(Board::parse("-x"), Err(ParseError::StackSizeInvalid));
    assert_eq!(Board::parse("-1 2"), Err(ParseError::StackSizeInvalid));
    assert_eq!(Board::parse("+-1"), Err(ParseError::StackSizeInvalid));
    assert_eq!(Board::parse("-+"), Err(ParseError::StackSizeInvalid));
}

#[test]
fn parse_reports_a_stack_size_beyond_a_byte() {
    assert_eq!(Board::parse("-256"), Err(ParseError::StackSizeOverflow));
    assert_eq!(Board::parse("+999"), Err(ParseError::StackSizeOverflow));
}

#[test]
fn parse_reports_a_stack_size_over_the_maximum() {
    assert_eq!(Board::parse("-33"), Err(ParseError::StackSizeOver));
    assert_eq!(Board::parse("+255"), Err(ParseError::StackSizeOver));
}

#[test]
fn parse_reports_a_stack_size_of_zero() {
    assert_eq!(Board::parse("-0"), Err(ParseError::StackSizeZero));
    assert_eq!(Board::parse("+000"), Err(ParseError::StackSizeZero));
}

#[test]
fn parse_reports_the_first_error_in_row_major_order() {
    assert_eq!(Board::parse("-0  -33\nabcd"), Err(ParseError::StackSizeZero));
    assert_eq!(Board::parse("-1  -33\nabcd"), Err(ParseError::StackSizeOver));
}

#[test]
fn parse_reports_a_board_that_is_too_large() {
    let mut text = String::new();
    for _ in 0..1000 {
        text.push_str(" 0\n");
    }
    for _ in 0..10_001 {
        text.push_str(" 0  ");
    }
    assert_eq!(Board::parse(&text), Err(ParseError::BoardTooLarge));
}

#[test]
fn error_messages_describe_the_error() {
    assert_eq!(ParseError::EmptyBoard.message(), "Empty board");
    assert_eq!(ParseError::BoardTooLarge.message(), "Board too large");
    assert_eq!(ParseError::InvalidTile.message(), "Invalid tile");
    assert_eq!(
        ParseError::StackSizeMissing.message(),
        "cannot parse integer from empty string"
    );
    assert_eq!(
        ParseError::StackSizeInvalid.message(),
        "invalid digit found in string"
    );
    assert_eq!(
        ParseError::StackSizeOverflow.message(),
        "number too large to fit in target type"
    );
    assert_eq!(ParseError::StackSizeOver.message(), "Stack size over 32");
    assert_eq!(ParseError::StackSizeZero.message(), "Stack size is 0");
}

#[test]
fn write_pads_stack_sizes_and_trims_rows() {
    let board = Board {
        tiles: vec![
            Tile::no_tile(),
            Tile::stack(Player(0), 16),
            Tile::stack(Player(1), 1),
            Tile::empty(),
            Tile::no_tile(),
            Tile::no_tile(),
        ],
        row_length: 3,
    };
    assert_eq!(board.write(false), "      -16 +1\n 0");
}

#[test]
fn write_colors_the_tiles() {
    let board = Board {
        tiles: vec![
            Tile::stack(Player(0), 2),
            Tile::empty(),
            Tile::stack(Player(1), 32),
            Tile::no_tile(),
        ],
        row_length: 4,
    };
    assert_eq!(
        board.write(true),
        "\u{1b}[31;1m-2  \u{1b}[0m\u{1b}[32m 0  \u{1b}[0m\u{1b}[34;1m+32 \u{1b}[0m"
    );
}

#[test]
fn write_of_a_board_without_rows_is_empty() {
    let board = Board {
        tiles: vec![],
        row_length: 3,
    };
    assert_eq!(board.write(false), "");
}

#[test]
fn written_board_parses_back() {
    let input = "
     0      -8  -8
   0  +8   0   0
 0  +8       0
"
    .trim_matches('\n');
    let board = Board::parse(input).unwrap();
    let text = board.write(false);
    assert_eq!(text, input);
    assert_eq!(Board::parse(&text), Ok(board));
}

#[test]
fn a_tab_can_stand_where_the_written_board_has_no_column() {
    let board = Board::parse("\t   -5").unwrap();
    assert_eq!(board.tiles, vec![Tile::no_tile(), Tile::stack(Player(0), 5)]);
    let text = board.write(false);
    assert_eq!(text, "-5");
    assert_eq!(
        Board::parse(&text).unwrap().tiles,
        vec![Tile::stack(Player(0), 5)]
    );
}
