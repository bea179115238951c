//! The text notation of boards: a grid of cells of four characters, where
//! every row stands two characters further to the left than the row above.
//!
//! A cell of spaces is no tile, the cell ` 0` is an empty tile, and a sign
//! with a number is a stack: `-` for the first player, `+` for the second.

use crate::board::{Board, Grid, Player, Tile, MAX_TILES};
use crate::text::{
    char_is_whitespace, char_or_space, chars_of, first_line_len, is_whitespace, leading_spaces,
    lemma_first_line_len_at, lemma_leading_spaces, lemma_leading_spaces_at, lemma_trim_end_at,
    spaces, trim_end,
};
use vstd::prelude::*;

verus! {

/// Why a text is not a board.
#[derive(Debug, PartialEq, Eq, Clone, Copy, Structural)]
pub enum ParseError {
    /// The text has no line with anything but white space in it.
    EmptyBoard,
    /// The board would have more tiles than a board can store.
    BoardTooLarge,
    /// A cell begins with neither `-` nor `+` and is no empty tile.
    InvalidTile,
    /// A sign without a stack size.
    StackSizeMissing,
    /// A stack size that is no number.
    StackSizeInvalid,
    /// A stack size of more than 255.
    StackSizeOverflow,
    /// A stack size of more than 32.
    StackSizeOver,
    /// A stack size of 0.
    StackSizeZero,
}

impl ParseError {
    pub open spec fn spec_message(self) -> Seq<char> {
        match self {
            ParseError::EmptyBoard => "Empty board"@,
            ParseError::BoardTooLarge => "Board too large"@,
            ParseError::InvalidTile => "Invalid tile"@,
            ParseError::StackSizeMissing => "cannot parse integer from empty string"@,
            ParseError::StackSizeInvalid => "invalid digit found in string"@,
            ParseError::StackSizeOverflow => "number too large to fit in target type"@,
            ParseError::StackSizeOver => "Stack size over 32"@,
            ParseError::StackSizeZero => "Stack size is 0"@,
        }
    }

    /// A description of the error.
    pub fn message(&self) -> (message: String)
        ensures
            message@ == self.spec_message(),
    {
        match self {
            ParseError::EmptyBoard => String::from_str("Empty board"),
            ParseError::BoardTooLarge => String::from_str("Board too large"),
            ParseError::InvalidTile => String::from_str("Invalid tile"),
            ParseError::StackSizeMissing => String::from_str(
                "cannot parse integer from empty string",
            ),
            ParseError::StackSizeInvalid => String::from_str("invalid digit found in string"),
            ParseError::StackSizeOverflow => String::from_str(
                "number too large to fit in target type",
            ),
            ParseError::StackSizeOver => String::from_str("Stack size over 32"),
            ParseError::StackSizeZero => String::from_str("Stack size is 0"),
        }
    }
}

pub open spec fn is_digit(c: char) -> bool {
    '0' <= c <= '9'
}

pub open spec fn digit_value(c: char) -> int {
    c as u32 - '0' as u32
}

/// The number that the digits continue, where `value` is the number of
/// the digits before them. It is to fit into a byte.
pub open spec fn parse_digits(digits: Seq<char>, value: int) -> Result<int, ParseError>
    decreases digits.len(),
{
    if digits.len() == 0 {
        Ok(value)
    } else if !is_digit(digits[0]) {
        Err(ParseError::StackSizeInvalid)
    } else if value * 10 + digit_value(digits[0]) > 255 {
        Err(ParseError::StackSizeOverflow)
    } else {
        parse_digits(digits.drop_first(), value * 10 + digit_value(digits[0]))
    }
}

/// The number that the text is: decimal digits, which `+` may precede.
pub open spec fn parse_number(text: Seq<char>) -> Result<int, ParseError> {
    if text.len() == 0 {
        Err(ParseError::StackSizeMissing)
    } else {
        let digits = if text[0] == '+' {
            text.drop_first()
        } else {
            text
        };
        if digits.len() == 0 {
            Err(ParseError::StackSizeInvalid)
        } else {
            parse_digits(digits, 0)
        }
    }
}

/// The tile that a cell without the white space at its end stands for.
pub open spec fn parse_tile(cell: Seq<char>) -> Result<Tile, ParseError> {
    if cell.len() == 0 {
        Ok(Tile::spec_no_tile())
    } else if cell == seq![' ', '0'] {
        Ok(Tile::spec_empty())
    } else if cell[0] != '-' && cell[0] != '+' {
        Err(ParseError::InvalidTile)
    } else {
        let player = if cell[0] == '-' {
            Player(0)
        } else {
            Player(1)
        };
        match parse_number(cell.drop_first()) {
            Err(error) => Err(error),
            Ok(size) => if size > Tile::MAX_STACK_SIZE {
                Err(ParseError::StackSizeOver)
            } else if size == 0 {
                Err(ParseError::StackSizeZero)
            } else {
                Ok(Tile::spec_stack(player, size as u8))
            },
        }
    }
}

/// The number that the characters from `from` on are.
fn number_of(cell: &Vec<char>, from: usize) -> (number: Result<u8, ParseError>)
    requires
        from <= cell.len(),
    ensures
        match number {
            Ok(value) => parse_number(cell@.skip(from as int)) == Ok::<int, ParseError>(
                value as int,
            ),
            Err(error) => parse_number(cell@.skip(from as int)) == Err::<int, ParseError>(error),
        },
{
    let ghost text = cell@.skip(from as int);
    if from == cell.len() {
        return Err(ParseError::StackSizeMissing);
    }
    let start: usize = if cell[from] == '+' {
        from + 1
    } else {
        from
    };
    let ghost digits = cell@.skip(start as int);
    assert(text[0] == cell[from as int]);
    assert(digits == if text[0] == '+' {
        text.drop_first()
    } else {
        text
    }) by {
        assert(text.drop_first() =~= cell@.skip(from + 1));
    }
    if start == cell.len() {
        return Err(ParseError::StackSizeInvalid);
    }
    let mut value: u8 = 0;
    let mut i: usize = start;
    while i < cell.len()
        invariant
            start <= i <= cell.len(),
            parse_number(cell@.skip(from as int)) == parse_digits(
                cell@.skip(i as int),
                value as int,
            ),
        decreases cell.len() - i,
    {
        let c = cell[i];
        let ghost rest = cell@.skip(i as int);
        assert(rest[0] == c);
        assert(rest.drop_first() =~= cell@.skip(i + 1));
        if !('0' <= c && c <= '9') {
            return Err(ParseError::StackSizeInvalid);
        }
        let digit: u32 = c as u32 - '0' as u32;
        if value as u32 * 10 + digit > 255 {
            return Err(ParseError::StackSizeOverflow);
        }
        value = (value as u32 * 10 + digit) as u8;
        i += 1;
    }
    Ok(value)
}

/// The tile that a cell stands for.
fn tile_of(cell: &Vec<char>) -> (tile: Result<Tile, ParseError>)
    requires
        cell.len() < usize::MAX,
    ensures
        match tile {
            Ok(value) => parse_tile(trim_end(cell@)) == Ok::<Tile, ParseError>(value),
            Err(error) => parse_tile(trim_end(cell@)) == Err::<Tile, ParseError>(error),
        },
{
    let mut end: usize = cell.len();
    while end > 0 && char_is_whitespace(cell[end - 1])
        invariant
            end <= cell.len(),
            forall|i: int| end <= i < cell.len() ==> is_whitespace(cell[i]),
        decreases end,
    {
        end -= 1;
    }
    proof {
        lemma_trim_end_at(cell@, end as int);
    }
    let ghost content = cell@.take(end as int);
    if end == 0 {
        return Ok(Tile::no_tile());
    }
    if end == 2 && cell[0] == ' ' && cell[1] == '0' {
        assert(content =~= seq![' ', '0']);
        return Ok(Tile::empty());
    }
    assert(content != seq![' ', '0']) by {
        if content == seq![' ', '0'] {
            assert(content.len() == 2);
            assert(content[0] == ' ' && content[1] == '0');
        }
    }
    let player = if cell[0] == '-' {
        Player(0)
    } else if cell[0] == '+' {
        Player(1)
    } else {
        return Err(ParseError::InvalidTile);
    };
    let mut content_chars: Vec<char> = Vec::new();
    let mut i: usize = 1;
    while i < end
        invariant
            1 <= i <= end <= cell.len(),
            content_chars@ == cell@.subrange(1, i as int),
        decreases end - i,
    {
        content_chars.push(cell[i]);
        assert(content_chars@ =~= cell@.subrange(1, i + 1));
        i += 1;
    }
    assert(content_chars@.skip(0) =~= content.drop_first());
    match number_of(&content_chars, 0) {
        Err(error) => Err(error),
        Ok(size) => {
            if size > Tile::MAX_STACK_SIZE {
                Err(ParseError::StackSizeOver)
            } else if size == 0 {
                Err(ParseError::StackSizeZero)
            } else {
                Ok(Tile::stack(player, size))
            }
        },
    }
}


/// The lines of the text that hold more than white space, each without
/// the white space at its end.
pub open spec fn rows_of(text: Seq<char>) -> Seq<Seq<char>>
    decreases text.len(),
{
    let length = first_line_len(text) as int;
    let line = trim_end(text.take(length));
    let rest = if length >= text.len() {
        Seq::empty()
    } else {
        rows_of(text.skip(length + 1))
    };
    if line.len() == 0 {
        rest
    } else {
        seq![line] + rest
    }
}

/// The column at which the `i`-th row begins, after the row has moved
/// two columns to the right for every row above it.
pub open spec fn indent_of(rows: Seq<Seq<char>>, i: int) -> int {
    2 * i + leading_spaces(rows[i])
}

/// The column behind the end of the `i`-th row.
pub open spec fn width_of(rows: Seq<Seq<char>>, i: int) -> int {
    2 * i + rows[i].len()
}

pub open spec fn min_indent(rows: Seq<Seq<char>>, n: int) -> int
    decreases n,
{
    if n <= 1 {
        indent_of(rows, 0)
    } else if indent_of(rows, n - 1) < min_indent(rows, n - 1) {
        indent_of(rows, n - 1)
    } else {
        min_indent(rows, n - 1)
    }
}

pub open spec fn max_width(rows: Seq<Seq<char>>, n: int) -> int
    decreases n,
{
    if n <= 1 {
        width_of(rows, 0)
    } else if width_of(rows, n - 1) > max_width(rows, n - 1) {
        width_of(rows, n - 1)
    } else {
        max_width(rows, n - 1)
    }
}

/// The column at which the first cell of every row begins: the even
/// column at or next before the first character of the board.
pub open spec fn first_column(rows: Seq<Seq<char>>) -> int {
    min_indent(rows, rows.len() as int) / 2 * 2
}

/// The number of cells that hold the longest row.
pub open spec fn cells_per_row(rows: Seq<Seq<char>>) -> int {
    (max_width(rows, rows.len() as int) - first_column(rows) + 3) / 4
}

/// The four characters of the `q`-th cell of the `i`-th row. Spaces
/// stand before and behind the row.
pub open spec fn cell_at(rows: Seq<Seq<char>>, i: int, q: int) -> Seq<char> {
    Seq::new(4, |j: int| char_or_space(rows[i], first_column(rows) + 4 * q + j - 2 * i))
}

/// The tiles of the first `n` cells in row-major order, or the error of
/// the first cell among them that stands for no tile.
pub open spec fn tiles_upto(rows: Seq<Seq<char>>, n: int) -> Result<Seq<Tile>, ParseError>
    decreases n,
{
    if n <= 0 {
        Ok(Seq::empty())
    } else {
        match tiles_upto(rows, n - 1) {
            Err(error) => Err(error),
            Ok(tiles) => match parse_tile(
                trim_end(cell_at(rows, (n - 1) / cells_per_row(rows), (n - 1) % cells_per_row(rows))),
            ) {
                Err(error) => Err(error),
                Ok(tile) => Ok(tiles.push(tile)),
            },
        }
    }
}

/// The board that the text stands for.
pub open spec fn parse_text(text: Seq<char>) -> Result<Grid, ParseError> {
    let rows = rows_of(text);
    if rows.len() == 0 {
        Err(ParseError::EmptyBoard)
    } else if rows.len() * cells_per_row(rows) > MAX_TILES {
        Err(ParseError::BoardTooLarge)
    } else {
        match tiles_upto(rows, rows.len() * cells_per_row(rows)) {
            Err(error) => Err(error),
            Ok(tiles) => Ok(Grid { tiles, row_length: cells_per_row(rows) }),
        }
    }
}

/// The parts of the text between the given places.
pub open spec fn rows_in(text: Seq<char>, spans: Seq<(usize, usize)>) -> Seq<Seq<char>> {
    Seq::new(spans.len(), |k: int| text.subrange(spans[k].0 as int, spans[k].1 as int))
}

/// Every span is a part of the text that ends with something else than
/// white space.
pub open spec fn spans_fit(text: Seq<char>, spans: Seq<(usize, usize)>) -> bool {
    forall|k: int|
        0 <= k < spans.len() ==> (#[trigger] spans[k]).0 < spans[k].1 <= text.len()
            && !is_whitespace(text[spans[k].1 - 1])
}

/// Where the rows of the text begin and end.
fn split_rows(chars: &Vec<char>) -> (spans: Vec<(usize, usize)>)
    ensures
        rows_in(chars@, spans@) == rows_of(chars@),
        spans_fit(chars@, spans@),
{
    let len = chars.len();
    let mut spans: Vec<(usize, usize)> = Vec::new();
    let mut start: usize = 0;
    let mut more = true;
    assert(chars@.skip(0) =~= chars@);
    assert(rows_in(chars@, spans@) =~= Seq::<Seq<char>>::empty());
    while more
        invariant
            len == chars.len(),
            start <= len,
            spans_fit(chars@, spans@),
            more ==> rows_of(chars@) == rows_in(chars@, spans@) + rows_of(
                chars@.skip(start as int),
            ),
            !more ==> rows_of(chars@) == rows_in(chars@, spans@),
        decreases len - start + if more {
            1int
        } else {
            0int
        },
    {
        let mut end: usize = start;
        while end < len && chars[end] != '\n'
            invariant
                len == chars.len(),
                start <= end <= len,
                forall|i: int| start <= i < end ==> chars[i] != '\n',
            decreases len - end,
        {
            end += 1;
        }
        let mut trimmed: usize = end;
        while trimmed > start && char_is_whitespace(chars[trimmed - 1])
            invariant
                len == chars.len(),
                start <= trimmed <= end <= len,
                forall|i: int| trimmed <= i < end ==> is_whitespace(chars[i]),
            decreases trimmed,
        {
            trimmed -= 1;
        }
        let ghost rest = chars@.skip(start as int);
        let ghost line = rest.take(end - start);
        proof {
            lemma_first_line_len_at(rest, end - start);
            lemma_trim_end_at(line, trimmed - start);
            assert(line.take(trimmed - start) =~= chars@.subrange(start as int, trimmed as int));
            if end < len {
                assert(rest.skip(end - start + 1) =~= chars@.skip(end + 1));
            }
        }
        let ghost before = rows_in(chars@, spans@);
        if trimmed > start {
            spans.push((start, trimmed));
            assert(rows_in(chars@, spans@) =~= before + seq![
                chars@.subrange(start as int, trimmed as int),
            ]);
        }
        if end < len {
            start = end + 1;
            assert(rows_of(chars@) =~= rows_in(chars@, spans@) + rows_of(chars@.skip(start as int)));
        } else {
            more = false;
            assert(rows_of(chars@) =~= rows_in(chars@, spans@));
        }
    }
    spans
}


/// The smallest indent and the largest width of the rows.
fn measure_rows(chars: &Vec<char>, spans: &Vec<(usize, usize)>) -> (bounds: (u128, u128))
    requires
        spans_fit(chars@, spans@),
        1 <= spans.len() <= MAX_TILES,
    ensures
        bounds.0 == min_indent(rows_in(chars@, spans@), spans.len() as int),
        bounds.1 == max_width(rows_in(chars@, spans@), spans.len() as int),
        bounds.0 < bounds.1,
        bounds.1 <= usize::MAX + 2 * MAX_TILES,
{
    let ghost rows = rows_in(chars@, spans@);
    let mut smallest: u128 = 0;
    let mut largest: u128 = 0;
    let mut i: usize = 0;
    while i < spans.len()
        invariant
            spans_fit(chars@, spans@),
            1 <= spans.len() <= MAX_TILES,
            rows == rows_in(chars@, spans@),
            i <= spans.len(),
            i > 0 ==> smallest == min_indent(rows, i as int),
            i > 0 ==> largest == max_width(rows, i as int),
            i > 0 ==> smallest < largest,
            largest <= usize::MAX + 2 * MAX_TILES,
        decreases spans.len() - i,
    {
        let start = spans[i].0;
        let end = spans[i].1;
        let mut first: usize = start;
        while first < end && chars[first] == ' '
            invariant
                start <= first <= end <= chars.len(),
                forall|j: int| start <= j < first ==> chars[j] == ' ',
            decreases end - first,
        {
            first += 1;
        }
        proof {
            let row = rows[i as int];
            assert(row == chars@.subrange(start as int, end as int));
            assert(is_whitespace(' '));
            assert(first < end);
            lemma_leading_spaces_at(row, first - start);
        }
        let indent: u128 = 2 * (i as u128) + (first - start) as u128;
        let width: u128 = 2 * (i as u128) + (end - start) as u128;
        if i == 0 || indent < smallest {
            smallest = indent;
        }
        if i == 0 || width > largest {
            largest = width;
        }
        i += 1;
    }
    (smallest, largest)
}

/// The four characters of a cell.
fn cell_of(chars: &Vec<char>, spans: &Vec<(usize, usize)>, begin: u128, i: usize, q: usize) -> (cell:
    Vec<char>)
    requires
        spans_fit(chars@, spans@),
        i < spans.len() <= MAX_TILES,
        q < MAX_TILES,
        begin <= usize::MAX + 2 * MAX_TILES,
        begin == first_column(rows_in(chars@, spans@)),
    ensures
        cell@ == cell_at(rows_in(chars@, spans@), i as int, q as int),
{
    let ghost rows = rows_in(chars@, spans@);
    let start = spans[i].0;
    let end = spans[i].1;
    let mut cell: Vec<char> = Vec::with_capacity(4);
    let mut j: usize = 0;
    while j < 4
        invariant
            spans_fit(chars@, spans@),
            i < spans.len() <= MAX_TILES,
            q < MAX_TILES,
            begin <= usize::MAX + 2 * MAX_TILES,
            rows == rows_in(chars@, spans@),
            start == spans[i as int].0,
            end == spans[i as int].1,
            j <= 4,
            cell.len() == j,
            forall|k: int|
                0 <= k < j ==> cell[k] == char_or_space(rows[i as int], begin + 4 * q + k - 2 * i),
        decreases 4 - j,
    {
        let column: u128 = begin + 4 * (q as u128) + j as u128;
        let indent: u128 = 2 * (i as u128);
        let c = if column >= indent && column - indent < (end - start) as u128 {
            chars[start + (column - indent) as usize]
        } else {
            ' '
        };
        assert(rows[i as int] == chars@.subrange(start as int, end as int));
        cell.push(c);
        j += 1;
    }
    assert(cell@ =~= cell_at(rows, i as int, q as int));
    cell
}

impl Board {
    /// Parses a hexagonal grid string into a board.
    pub fn parse(input: &str) -> (board: Result<Board, ParseError>)
        ensures
            match board {
                Ok(parsed) => parse_text(input@) == Ok::<Grid, ParseError>(parsed@) && parsed.wf(),
                Err(error) => parse_text(input@) == Err::<Grid, ParseError>(error),
            },
    {
        let chars = chars_of(input);
        let spans = split_rows(&chars);
        let ghost rows = rows_of(input@);
        if spans.len() == 0 {
            return Err(ParseError::EmptyBoard);
        }
        proof {
            lemma_rows_fit(chars@, spans@);
        }
        if spans.len() > MAX_TILES {
            proof {
                lemma_row_length(rows);
                assert(rows.len() * cells_per_row(rows) >= rows.len()) by (nonlinear_arith)
                    requires
                        cells_per_row(rows) >= 1,
                        rows.len() >= 0,
                ;
            }
            return Err(ParseError::BoardTooLarge);
        }
        let bounds = measure_rows(&chars, &spans);
        /* Column index of first board character in any row. */
        let begin: u128 = bounds.0 / 2 * 2;
        /* Max number of tiles in any row. */
        let long_row_length: u128 = (bounds.1 - begin + 3) / 4;
        if long_row_length > MAX_TILES as u128 {
            proof {
                assert(rows.len() * cells_per_row(rows) >= cells_per_row(rows)) by (nonlinear_arith)
                    requires
                        cells_per_row(rows) >= 1,
                        rows.len() >= 1,
                ;
            }
            return Err(ParseError::BoardTooLarge);
        }
        let row_length: usize = long_row_length as usize;
        assert(row_length == cells_per_row(rows));
        assert(spans.len() * row_length <= MAX_TILES * MAX_TILES) by (nonlinear_arith)
            requires
                spans.len() <= MAX_TILES,
                row_length <= MAX_TILES,
        ;
        let long_total: u128 = spans.len() as u128 * row_length as u128;
        if long_total > MAX_TILES as u128 {
            return Err(ParseError::BoardTooLarge);
        }
        let total: usize = long_total as usize;
        let mut tiles: Vec<Tile> = Vec::with_capacity(total);
        let mut n: usize = 0;
        while n < total
            invariant
                spans_fit(chars@, spans@),
                rows == rows_in(chars@, spans@),
                rows == rows_of(input@),
                1 <= spans.len() <= MAX_TILES,
                1 <= row_length <= MAX_TILES,
                row_length == cells_per_row(rows),
                begin == first_column(rows),
                begin <= usize::MAX + 2 * MAX_TILES,
                total == spans.len() * row_length,
                total <= MAX_TILES,
                n <= total,
                tiles_upto(rows, n as int) == Ok::<Seq<Tile>, ParseError>(tiles@),
                tiles.len() == n,
            decreases total - n,
        {
            let i = n / row_length;
            let q = n % row_length;
            proof {
                vstd::arithmetic::div_mod::lemma_fundamental_div_mod(n as int, row_length as int);
                vstd::arithmetic::div_mod::lemma_mod_bound(n as int, row_length as int);
                vstd::arithmetic::div_mod::lemma_div_pos_is_pos(n as int, row_length as int);
                if i >= spans.len() {
                    assert(row_length * i >= row_length * spans.len()) by (nonlinear_arith)
                        requires
                            i >= spans.len(),
                            row_length >= 0,
                    ;
                    assert(row_length * spans.len() == spans.len() * row_length)
                        by (nonlinear_arith);
                }
            }
            let cell = cell_of(&chars, &spans, begin, i, q);
            match tile_of(&cell) {
                Err(error) => {
                    proof {
                        lemma_tiles_error(rows, n as int + 1, total as int);
                    }
                    return Err(error);
                },
                Ok(tile) => {
                    tiles.push(tile);
                },
            }
            n += 1;
        }
        let board = Board { tiles, row_length };
        proof {
            vstd::arithmetic::div_mod::lemma_mod_multiples_basic(
                spans.len() as int,
                row_length as int,
            );
        }
        Ok(board)
    }
}

/// A row that ends with something else than white space does not
/// consist of spaces.
pub proof fn lemma_rows_fit(text: Seq<char>, spans: Seq<(usize, usize)>)
    requires
        spans_fit(text, spans),
    ensures
        forall|i: int|
            0 <= i < spans.len() ==> leading_spaces(#[trigger] rows_in(text, spans)[i]) < rows_in(
                text,
                spans,
            )[i].len(),
{
    let rows = rows_in(text, spans);
    assert forall|i: int| 0 <= i < spans.len() implies leading_spaces(#[trigger] rows[i])
        < rows[i].len() by {
        let row = rows[i];
        assert(spans[i].0 < spans[i].1);
        lemma_leading_spaces(row);
        if leading_spaces(row) == row.len() {
            assert(row[row.len() - 1] == ' ');
            assert(row[row.len() - 1] == text[spans[i].1 - 1]);
            assert(is_whitespace(' '));
        }
    }
}

/// Every row holds at least one cell.
pub proof fn lemma_row_length(rows: Seq<Seq<char>>)
    requires
        rows.len() >= 1,
        forall|i: int|
            0 <= i < rows.len() ==> leading_spaces(#[trigger] rows[i]) < rows[i].len(),
    ensures
        cells_per_row(rows) >= 1,
        0 <= first_column(rows) < max_width(rows, rows.len() as int),
{
    lemma_measures(rows, rows.len() as int);
}

pub proof fn lemma_measures(rows: Seq<Seq<char>>, n: int)
    requires
        1 <= n <= rows.len(),
        forall|i: int|
            0 <= i < rows.len() ==> leading_spaces(#[trigger] rows[i]) < rows[i].len(),
    ensures
        0 <= min_indent(rows, n) <= indent_of(rows, 0),
        max_width(rows, n) >= width_of(rows, 0),
        indent_of(rows, 0) < width_of(rows, 0),
    decreases n,
{
    assert(leading_spaces(rows[0]) < rows[0].len());
    if n > 1 {
        lemma_measures(rows, n - 1);
    }
}

/// An error among the first cells is the error of the whole.
pub proof fn lemma_tiles_error(rows: Seq<Seq<char>>, n: int, total: int)
    requires
        0 <= n <= total,
        tiles_upto(rows, n).is_err(),
    ensures
        tiles_upto(rows, total) == tiles_upto(rows, n),
    decreases total - n,
{
    if n < total {
        lemma_tiles_error(rows, n, total - 1);
    }
}


/// The colors of a terminal: each is an escape sequence that the text in
/// that color follows, and `reset` ends the colored text.
pub open spec fn green() -> Seq<char> {
    seq!['\u{1b}', '[', '3', '2', 'm']
}

pub open spec fn red() -> Seq<char> {
    seq!['\u{1b}', '[', '3', '1', ';', '1', 'm']
}

pub open spec fn blue() -> Seq<char> {
    seq!['\u{1b}', '[', '3', '4', ';', '1', 'm']
}

pub open spec fn reset() -> Seq<char> {
    seq!['\u{1b}', '[', '0', 'm']
}

pub open spec fn digit_char(digit: int) -> char {
    (48 + digit) as char
}

/// The size of a stack in decimal digits, with spaces behind it up to a
/// width of three.
pub open spec fn size_text(size: int) -> Seq<char> {
    if size < 10 {
        seq![digit_char(size), ' ', ' ']
    } else {
        seq![digit_char(size / 10), digit_char(size % 10), ' ']
    }
}

/// The cell that stands for the tile, in its color if asked for.
pub open spec fn tile_text(tile: Tile, colored: bool) -> Seq<char> {
    if tile.is_stack() {
        let sign = if tile.player().0 == 0 {
            '-'
        } else {
            '+'
        };
        let color = if tile.player().0 == 0 {
            red()
        } else {
            blue()
        };
        if colored {
            color + seq![sign] + size_text(tile.stack_size() as int) + reset()
        } else {
            seq![sign] + size_text(tile.stack_size() as int)
        }
    } else if tile.is_empty() {
        if colored {
            green() + seq![' ', '0', ' ', ' '] + reset()
        } else {
            seq![' ', '0', ' ', ' ']
        }
    } else {
        seq![' ', ' ', ' ', ' ']
    }
}

/// The cells of the tiles one after the other.
pub open spec fn tiles_text(tiles: Seq<Tile>, colored: bool) -> Seq<char>
    decreases tiles.len(),
{
    if tiles.len() == 0 {
        Seq::empty()
    } else {
        tiles_text(tiles.drop_last(), colored) + tile_text(tiles.last(), colored)
    }
}

impl Grid {
    pub open spec fn row_tiles(self, r: int) -> Seq<Tile> {
        self.tiles.subrange(r * self.row_length, r * self.row_length + self.row_length)
    }

    /// The text of the row `r`: every row stands two columns further to
    /// the left than the row above it, so that the text looks like a
    /// hexagonal grid.
    pub open spec fn row_text(self, r: int, colored: bool) -> Seq<char> {
        spaces((2 * (self.num_rows() - 1 - r)) as nat) + tiles_text(self.row_tiles(r), colored)
    }

    /// The smallest number of spaces in front of one of the first `n` rows.
    pub open spec fn min_leading(self, colored: bool, n: int) -> nat
        decreases n,
    {
        if n <= 1 {
            leading_spaces(self.row_text(0, colored))
        } else if leading_spaces(self.row_text(n - 1, colored)) < self.min_leading(colored, n - 1) {
            leading_spaces(self.row_text(n - 1, colored))
        } else {
            self.min_leading(colored, n - 1)
        }
    }

    /// The number of columns that the text leaves out in front of every
    /// row: the largest even number of spaces that all rows begin with.
    pub open spec fn text_begin(self, colored: bool) -> int {
        if self.num_rows() <= 0 {
            0
        } else {
            self.min_leading(colored, self.num_rows()) as int / 2 * 2
        }
    }

    /// The row `r` as it stands in the text: without the columns left out
    /// in front and without white space at its end.
    pub open spec fn rendered_row(self, r: int, colored: bool) -> Seq<char> {
        trim_end(self.row_text(r, colored).skip(self.text_begin(colored)))
    }

    /// The first `n` rows, each in a line of its own.
    pub open spec fn rendered_upto(self, colored: bool, n: int) -> Seq<char>
        decreases n,
    {
        if n <= 0 {
            Seq::empty()
        } else if n == 1 {
            self.rendered_row(0, colored)
        } else {
            self.rendered_upto(colored, n - 1) + seq!['\n'] + self.rendered_row(n - 1, colored)
        }
    }

    /// The board as a hexagonal board string.
    pub open spec fn render(self, colored: bool) -> Seq<char> {
        self.rendered_upto(colored, self.num_rows())
    }

    pub proof fn lemma_min_leading(self, colored: bool, n: int, r: int)
        requires
            0 <= r < n,
        ensures
            self.min_leading(colored, n) <= leading_spaces(self.row_text(r, colored)),
        decreases n,
    {
        if n > 1 && r < n - 1 {
            self.lemma_min_leading(colored, n - 1, r);
        }
    }
}

/// Appends the characters to the row.
fn push_chars(row: &mut Vec<char>, chars: &[char])
    ensures
        final(row)@ == old(row)@ + chars@,
{
    let ghost before = row@;
    let mut i: usize = 0;
    while i < chars.len()
        invariant
            i <= chars.len(),
            row@ == before + chars@.take(i as int),
        decreases chars.len() - i,
    {
        row.push(chars[i]);
        assert(row@ =~= before + chars@.take(i + 1));
        i += 1;
    }
    assert(chars@.take(chars.len() as int) =~= chars@);
}

/// Appends the cell of the tile to the row.
fn push_tile(row: &mut Vec<char>, tile: Tile, colored: bool)
    ensures
        final(row)@ == old(row)@ + tile_text(tile, colored),
{
    let ghost before = row@;
    if tile.is_stack() {
        let first = tile.player().0 == 0;
        if colored {
            if first {
                push_chars(row, &['\u{1b}', '[', '3', '1', ';', '1', 'm']);
            } else {
                push_chars(row, &['\u{1b}', '[', '3', '4', ';', '1', 'm']);
            }
        }
        row.push(
            if first {
                '-'
            } else {
                '+'
            },
        );
        let size = tile.stack_size();
        if size < 10 {
            row.push((48 + size) as char);
            row.push(' ');
        } else {
            row.push((48 + size / 10) as char);
            row.push((48 + size % 10) as char);
        }
        row.push(' ');
        if colored {
            push_chars(row, &['\u{1b}', '[', '0', 'm']);
        }
    } else if tile.is_empty() {
        if colored {
            push_chars(row, &['\u{1b}', '[', '3', '2', 'm']);
        }
        push_chars(row, &[' ', '0', ' ', ' ']);
        if colored {
            push_chars(row, &['\u{1b}', '[', '0', 'm']);
        }
    } else {
        push_chars(row, &[' ', ' ', ' ', ' ']);
    }
    assert(row@ =~= before + tile_text(tile, colored));
}

impl Board {
    /// The text of a row with the spaces that make the grid hexagonal.
    fn row_text(&self, r: usize, colored: bool) -> (row: Vec<char>)
        requires
            self.wf(),
            r < self@.num_rows(),
        ensures
            row@ == self@.row_text(r as int, colored),
    {
        proof {
            self@.lemma_len();
            assert((r + 1) * self.row_length <= self@.num_rows() * self.row_length)
                by (nonlinear_arith)
                requires
                    r + 1 <= self@.num_rows(),
                    self.row_length >= 0,
            ;
            assert((r + 1) * self.row_length == r * self.row_length + self.row_length)
                by (nonlinear_arith);
            assert(0 <= r * self.row_length) by (nonlinear_arith)
                requires
                    r >= 0,
                    self.row_length >= 0,
            ;
        }
        let num_rows = self.num_rows();
        let indentation: usize = (num_rows - 1 - r) * 2;
        let mut row: Vec<char> = Vec::new();
        let mut i: usize = 0;
        while i < indentation
            invariant
                i <= indentation,
                row@ == spaces(i as nat),
            decreases indentation - i,
        {
            row.push(' ');
            assert(row@ =~= spaces((i + 1) as nat));
            i += 1;
        }
        let start: usize = r * self.row_length;
        let ghost tiles = self@.row_tiles(r as int);
        let mut q: usize = 0;
        assert(tiles.take(0) =~= Seq::<Tile>::empty());
        while q < self.row_length
            invariant
                q <= self.row_length,
                start + self.row_length <= self.tiles.len(),
                tiles == self.tiles@.subrange(start as int, start + self.row_length),
                row@ == spaces(indentation as nat) + tiles_text(tiles.take(q as int), colored),
            decreases self.row_length - q,
        {
            push_tile(&mut row, self.tiles[start + q], colored);
            proof {
                let taken = tiles.take(q + 1);
                assert(taken.drop_last() =~= tiles.take(q as int));
                assert(taken.last() == self.tiles[start + q]);
                assert(row@ =~= spaces(indentation as nat) + tiles_text(taken, colored));
            }
            q += 1;
        }
        assert(tiles.take(self.row_length as int) =~= tiles);
        row
    }

    /// Writes a board into a hexagonal board string. With `colored`, the
    /// tiles come in the colors of a terminal.
    pub fn write(&self, colored: bool) -> (text: String)
        requires
            self.wf(),
        ensures
            text@ == self@.render(colored),
    {
        let ghost grid = self@;
        let num_rows = self.num_rows();
        let mut rows: Vec<Vec<char>> = Vec::new();
        let mut smallest: usize = 0;
        let mut r: usize = 0;
        while r < num_rows
            invariant
                self.wf(),
                grid == self@,
                num_rows == grid.num_rows(),
                r <= num_rows,
                rows.len() == r,
                forall|k: int| 0 <= k < r ==> (#[trigger] rows[k])@ == grid.row_text(k, colored),
                r > 0 ==> smallest == grid.min_leading(colored, r as int),
                r == 0 ==> smallest == 0,
            decreases num_rows - r,
        {
            let row = self.row_text(r, colored);
            let mut leading: usize = 0;
            while leading < row.len() && row[leading] == ' '
                invariant
                    leading <= row.len(),
                    forall|j: int| 0 <= j < leading ==> row[j] == ' ',
                decreases row.len() - leading,
            {
                leading += 1;
            }
            proof {
                lemma_leading_spaces_at(row@, leading as int);
            }
            if r == 0 || leading < smallest {
                smallest = leading;
            }
            rows.push(row);
            r += 1;
        }
        /* Remove any unnecessary indentation and trailing whitespace. */
        let begin: usize = smallest / 2 * 2;
        let mut text = String::new();
        let mut r: usize = 0;
        while r < num_rows
            invariant
                num_rows == grid.num_rows(),
                r <= num_rows,
                rows.len() == num_rows,
                forall|k: int|
                    0 <= k < num_rows ==> (#[trigger] rows[k])@ == grid.row_text(k, colored),
                num_rows > 0 ==> smallest == grid.min_leading(colored, num_rows as int),
                begin == grid.text_begin(colored),
                begin <= smallest,
                text@ == grid.rendered_upto(colored, r as int),
            decreases num_rows - r,
        {
            if r > 0 {
                text.push('\n');
            }
            let row = &rows[r];
            proof {
                grid.lemma_min_leading(colored, num_rows as int, r as int);
                lemma_leading_spaces(row@);
            }
            let mut end: usize = row.len();
            while end > begin && char_is_whitespace(row[end - 1])
                invariant
                    begin <= end <= row.len(),
                    forall|j: int| end <= j < row.len() ==> is_whitespace(row[j]),
                decreases end,
            {
                end -= 1;
            }
            let ghost cut = row@.skip(begin as int);
            proof {
                lemma_trim_end_at(cut, end - begin);
                assert(cut.take(end - begin) =~= row@.subrange(begin as int, end as int));
            }
            let ghost before = text@;
            let mut i: usize = begin;
            while i < end
                invariant
                    begin <= i <= end <= row.len(),
                    text@ == before + row@.subrange(begin as int, i as int),
                decreases end - i,
            {
                text.push(row[i]);
                assert(text@ =~= before + row@.subrange(begin as int, i + 1));
                i += 1;
            }
            assert(text@ =~= grid.rendered_upto(colored, r + 1)) by {
                if r == 0 {
                    assert(before =~= Seq::<char>::empty());
                }
            }
            r += 1;
        }
        text
    }
}

} // verus!
