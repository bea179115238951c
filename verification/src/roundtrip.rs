//! Writing a board and parsing the text gives the board back.

use crate::board::{Grid, Tile, MAX_TILES};
use crate::notation::{
    cell_at, cells_per_row, digit_char, digit_value, first_column, indent_of, is_digit,
    lemma_row_length, max_width,
    min_indent, parse_digits, parse_number, parse_text, parse_tile, rows_of, size_text,
    tile_text, tiles_text, tiles_upto, width_of, ParseError,
};
use crate::text::{
    char_or_space, first_line_len, is_whitespace, leading_spaces, lemma_first_line_len,
    lemma_first_line_len_at,
    lemma_leading_spaces, lemma_leading_spaces_at, lemma_trailing_whitespace, lemma_trim_end_at,
    spaces, trailing_whitespace, trim_end,
};
use vstd::prelude::*;

verus! {

/// The tile is a stack, or it is the one tile that the parser gives for a
/// cell without a tile, or the one that it gives for an empty cell.
pub open spec fn is_plain(tile: Tile) -> bool {
    tile.is_stack() || tile == Tile::spec_no_tile() || tile == Tile::spec_empty()
}

/// The text of a tile has four characters. Its white space is spaces, and
/// a board tile has another character at the first or second place.
/// Parsed, it gives the tile back.
pub proof fn lemma_tile_text(tile: Tile)
    requires
        is_plain(tile),
    ensures
        tile_text(tile, false).len() == 4,
        forall|j: int|
            0 <= j < 4 && is_whitespace(#[trigger] tile_text(tile, false)[j]) ==> tile_text(
                tile,
                false,
            )[j] == ' ',
        tile.is_board_tile() ==> !is_whitespace(tile_text(tile, false)[1]),
        !tile.is_board_tile() ==> tile_text(tile, false) == spaces(4),
        parse_tile(trim_end(tile_text(tile, false))) == Ok::<Tile, ParseError>(tile),
{
    let text = tile_text(tile, false);
    reveal_with_fuel(parse_digits, 3);
    if tile.is_stack() {
        let size = tile.stack_size() as int;
        let digits = size_text(size);
        assert(text =~= seq![text[0], digits[0], digits[1], digits[2]]);
        assert(text[0] == '-' || text[0] == '+');
        if size < 10 {
            lemma_trim_end_at(text, 2);
            let cell = text.take(2);
            assert(cell =~= seq![text[0], digit_char(size)]);
            assert(cell.drop_first() =~= seq![digit_char(size)]);
            assert(seq![digit_char(size)].drop_first() =~= Seq::<char>::empty());
        } else {
            lemma_trim_end_at(text, 3);
            let cell = text.take(3);
            assert(cell =~= seq![text[0], digit_char(size / 10), digit_char(size % 10)]);
            let number = seq![digit_char(size / 10), digit_char(size % 10)];
            assert(cell.drop_first() =~= number);
            assert(number.drop_first() =~= seq![digit_char(size % 10)]);
            assert(seq![digit_char(size % 10)].drop_first() =~= Seq::<char>::empty());
        }
    } else if tile.is_empty() {
        lemma_trim_end_at(text, 2);
        assert(text.take(2) =~= seq![' ', '0']);
    } else {
        lemma_trim_end_at(text, 0);
        assert(text.take(0) =~= Seq::<char>::empty());
        assert(text =~= spaces(4));
    }
}

/// The text of tiles is made of the texts of the tiles, four characters each.
pub proof fn lemma_tiles_text(tiles: Seq<Tile>, q: int, j: int)
    requires
        forall|i: int| 0 <= i < tiles.len() ==> is_plain(#[trigger] tiles[i]),
        0 <= q < tiles.len(),
        0 <= j < 4,
    ensures
        tiles_text(tiles, false).len() == 4 * tiles.len(),
        tiles_text(tiles, false)[4 * q + j] == tile_text(tiles[q], false)[j],
    decreases tiles.len(),
{
    lemma_tiles_text_len(tiles);
    lemma_tiles_text_len(tiles.drop_last());
    lemma_tile_text(tiles.last());
    if q < tiles.len() - 1 {
        lemma_tiles_text(tiles.drop_last(), q, j);
    }
}

pub proof fn lemma_tiles_text_len(tiles: Seq<Tile>)
    requires
        forall|i: int| 0 <= i < tiles.len() ==> is_plain(#[trigger] tiles[i]),
    ensures
        tiles_text(tiles, false).len() == 4 * tiles.len(),
    decreases tiles.len(),
{
    if tiles.len() > 0 {
        lemma_tiles_text_len(tiles.drop_last());
        lemma_tile_text(tiles.last());
    }
}


impl Grid {
    /// The board is one that the parser can give: it has a row, its tiles
    /// are plain, every row holds a board tile, and so do the first and
    /// the last column.
    pub open spec fn is_trimmed(self) -> bool {
        &&& self.wf()
        &&& self.num_rows() >= 1
        &&& forall|i: int| 0 <= i < self.tiles.len() ==> is_plain(#[trigger] self.tiles[i])
        &&& forall|r: int| 0 <= r < self.num_rows() ==> #[trigger] self.row_has_tile(r)
        &&& self.column_has_tile(0)
        &&& self.column_has_tile(self.row_length - 1)
    }

    pub open spec fn row_has_tile(self, r: int) -> bool {
        exists|q: int| 0 <= q < self.row_length && (#[trigger] self.index((r, q))).is_board_tile()
    }

    pub open spec fn column_has_tile(self, q: int) -> bool {
        exists|r: int| 0 <= r < self.num_rows() && (#[trigger] self.index((r, q))).is_board_tile()
    }

    /// The number of spaces that stand in front of the row `r` to make
    /// the grid hexagonal.
    pub open spec fn row_indent(self, r: int) -> int {
        2 * (self.num_rows() - 1 - r)
    }

    /// Where the white space at the end of the written row `r` begins.
    pub open spec fn row_end(self, r: int) -> int {
        self.row_text(r, false).len() - trailing_whitespace(self.row_text(r, false))
    }

    /// The characters of a written row: spaces up to the indent, then the
    /// texts of the tiles.
    pub proof fn lemma_row_text(self, r: int, x: int)
        requires
            self.wf(),
            forall|i: int| 0 <= i < self.tiles.len() ==> is_plain(#[trigger] self.tiles[i]),
            0 <= r < self.num_rows(),
            0 <= x < self.row_indent(r) + 4 * self.row_length,
        ensures
            self.row_text(r, false).len() == self.row_indent(r) + 4 * self.row_length,
            x < self.row_indent(r) ==> self.row_text(r, false)[x] == ' ',
            x >= self.row_indent(r) ==> self.row_text(r, false)[x] == tile_text(
                self.index((r, (x - self.row_indent(r)) / 4)),
                false,
            )[(x - self.row_indent(r)) % 4],
            is_whitespace(self.row_text(r, false)[x]) ==> self.row_text(r, false)[x] == ' ',
            is_plain(self.index((r, (x - self.row_indent(r)) / 4))),
    {
        let indent = self.row_indent(r);
        let tiles = self.row_tiles(r);
        self.lemma_len();
        assert(r * self.row_length + self.row_length <= self.tiles.len()) by (nonlinear_arith)
            requires
                r + 1 <= self.num_rows(),
                self.tiles.len() == self.num_rows() * self.row_length,
                self.row_length >= 0,
        ;
        assert(0 <= r * self.row_length) by (nonlinear_arith)
            requires
                r >= 0,
                self.row_length >= 0,
        ;
        assert(r * self.row_length == self.row_length * r) by (nonlinear_arith);
        assert forall|i: int| 0 <= i < tiles.len() implies is_plain(#[trigger] tiles[i]) by {
            assert(tiles[i] == self.tiles[r * self.row_length + i]);
        }
        lemma_tiles_text_len(tiles);
        if x >= indent {
            let q = (x - indent) / 4;
            let j = (x - indent) % 4;
            lemma_tiles_text(tiles, q, j);
            self.lemma_to_index((r, q));
            assert(tiles[q] == self.index((r, q)));
            lemma_tile_text(tiles[q]);
            assert(self.row_text(r, false)[x] == tiles_text(tiles, false)[4 * q + j]);
        } else {
            self.lemma_to_index((r, 0));
        }
    }

    /// A board tile in a row puts a character that is no white space into
    /// the written row, at the second place of the tile's text.
    pub proof fn lemma_row_mark(self, r: int, q: int)
        requires
            self.wf(),
            forall|i: int| 0 <= i < self.tiles.len() ==> is_plain(#[trigger] self.tiles[i]),
            0 <= r < self.num_rows(),
            0 <= q < self.row_length,
            self.index((r, q)).is_board_tile(),
        ensures
            !is_whitespace(self.row_text(r, false)[self.row_indent(r) + 4 * q + 1]),
            self.row_indent(r) <= leading_spaces(self.row_text(r, false)) <= self.row_indent(r) + 4
                * q + 1,
            self.row_indent(r) + 4 * q + 2 <= self.row_end(r) <= self.row_indent(r) + 4
                * self.row_length,
    {
        let row = self.row_text(r, false);
        let indent = self.row_indent(r);
        let x = indent + 4 * q + 1;
        self.lemma_row_text(r, x);
        lemma_tile_text(self.index((r, q)));
        lemma_leading_spaces(row);
        lemma_trailing_whitespace(row);
        assert(is_whitespace(' '));
        if leading_spaces(row) < indent {
            self.lemma_row_text(r, leading_spaces(row) as int);
        }
    }
}


impl Grid {
    /// The rows as they stand in the text without colors.
    pub open spec fn rendered_rows(self) -> Seq<Seq<char>> {
        Seq::new(self.num_rows() as nat, |r: int| self.rendered_row(r, false))
    }

    /// The columns left out in front of the rows are an even number, no
    /// more than the spaces in front of any row or the indent of the
    /// first row.
    pub proof fn lemma_text_begin(self)
        requires
            self.is_trimmed(),
        ensures
            0 <= self.text_begin(false) <= self.row_indent(0),
            self.text_begin(false) % 2 == 0,
            forall|r: int|
                0 <= r < self.num_rows() ==> self.text_begin(false) <= #[trigger] leading_spaces(
                    self.row_text(r, false),
                ),
    {
        let rows = self.num_rows();
        assert forall|r: int| 0 <= r < rows implies self.text_begin(false)
            <= #[trigger] leading_spaces(self.row_text(r, false)) by {
            self.lemma_min_leading(false, rows, r);
        }
        let first = choose|r: int| 0 <= r < rows && (#[trigger] self.index((r, 0))).is_board_tile();
        self.lemma_row_mark(first, 0);
        self.lemma_min_leading(false, rows, first);
    }

    /// A written row as it stands in the text: the part of the row from
    /// the columns left out to the last character that is no white space.
    pub proof fn lemma_rendered_row(self, r: int)
        requires
            self.is_trimmed(),
            0 <= r < self.num_rows(),
        ensures
            0 <= self.text_begin(false) <= leading_spaces(self.row_text(r, false)) < self.row_end(r),
            self.row_end(r) <= self.row_text(r, false).len(),
            self.rendered_row(r, false) == self.row_text(r, false).subrange(
                self.text_begin(false),
                self.row_end(r),
            ),
            leading_spaces(self.rendered_row(r, false)) == leading_spaces(self.row_text(r, false))
                - self.text_begin(false),
            !is_whitespace(self.rendered_row(r, false).last()),
            forall|i: int|
                0 <= i < self.rendered_row(r, false).len() ==> self.rendered_row(r, false)[i]
                    != '\n',
            trim_end(self.rendered_row(r, false)) == self.rendered_row(r, false),
    {
        let begin = self.text_begin(false);
        let row = self.row_text(r, false);
        let end = self.row_end(r);
        let lead = leading_spaces(row) as int;
        self.lemma_text_begin();
        assert(self.row_has_tile(r));
        let q = choose|q: int|
            0 <= q < self.row_length && (#[trigger] self.index((r, q))).is_board_tile();
        self.lemma_row_mark(r, q);
        lemma_trailing_whitespace(row);
        lemma_leading_spaces(row);
        let cut = row.skip(begin);
        lemma_trim_end_at(cut, end - begin);
        let out = self.rendered_row(r, false);
        assert(cut.take(end - begin) =~= row.subrange(begin, end));
        lemma_leading_spaces_at(out, lead - begin);
        lemma_trim_end_at(out, out.len() as int);
        assert(out.take(out.len() as int) =~= out);
        assert forall|i: int| 0 <= i < out.len() implies out[i] != '\n' by {
            self.lemma_row_text(r, begin + i);
            assert(is_whitespace('\n'));
        }
    }
}

/// A line that ends with something else than white space is the one row
/// of its text.
pub proof fn lemma_rows_of_line(line: Seq<char>)
    requires
        line.len() > 0,
        forall|i: int| 0 <= i < line.len() ==> line[i] != '\n',
        !is_whitespace(line.last()),
    ensures
        rows_of(line) == seq![line],
{
    lemma_first_line_len_at(line, line.len() as int);
    lemma_trim_end_at(line, line.len() as int);
    assert(line.take(line.len() as int) =~= line);
    assert(rows_of(line) =~= seq![line]);
}

/// The rows of two texts with a line break between them are the rows of
/// the first and then the rows of the second.
pub proof fn lemma_rows_of_texts(first: Seq<char>, second: Seq<char>)
    ensures
        rows_of(first + seq!['\n'] + second) == rows_of(first) + rows_of(second),
    decreases first.len(),
{
    let whole = first + seq!['\n'] + second;
    let length = first_line_len(first) as int;
    lemma_first_line_len(first);
    lemma_first_line_len_at(whole, length);
    assert(whole.take(length) =~= first.take(length));
    if length < first.len() {
        let rest = first.skip(length + 1);
        lemma_rows_of_texts(rest, second);
        assert(whole.skip(length + 1) =~= rest + seq!['\n'] + second);
        assert(rows_of(whole) =~= rows_of(first) + rows_of(second));
    } else {
        assert(whole.skip(length + 1) =~= second);
        assert(rows_of(whole) =~= rows_of(first) + rows_of(second));
    }
}

impl Grid {
    /// The rows of the text of a board are its written rows.
    pub proof fn lemma_rows_of_render(self, n: int)
        requires
            self.is_trimmed(),
            1 <= n <= self.num_rows(),
        ensures
            rows_of(self.rendered_upto(false, n)) == self.rendered_rows().take(n),
        decreases n,
    {
        let line = self.rendered_row(n - 1, false);
        self.lemma_rendered_row(n - 1);
        lemma_rows_of_line(line);
        if n == 1 {
            assert(self.rendered_rows().take(1) =~= seq![line]);
        } else {
            self.lemma_rows_of_render(n - 1);
            lemma_rows_of_texts(self.rendered_upto(false, n - 1), line);
            assert(self.rendered_rows().take(n) =~= self.rendered_rows().take(n - 1) + seq![line]);
        }
    }
}


/// The smallest indent is the indent of a row, and no row has a smaller one.
pub proof fn lemma_min_indent(rows: Seq<Seq<char>>, n: int, low: int)
    requires
        1 <= n <= rows.len(),
        forall|i: int| 0 <= i < n ==> low <= indent_of(rows, i),
    ensures
        low <= min_indent(rows, n),
        forall|i: int| 0 <= i < n ==> min_indent(rows, n) <= indent_of(rows, i),
    decreases n,
{
    if n > 1 {
        lemma_min_indent(rows, n - 1, low);
    }
}

/// The largest width is the width of a row, and no row has a larger one.
pub proof fn lemma_max_width(rows: Seq<Seq<char>>, n: int, high: int)
    requires
        1 <= n <= rows.len(),
        forall|i: int| 0 <= i < n ==> width_of(rows, i) <= high,
    ensures
        max_width(rows, n) <= high,
        forall|i: int| 0 <= i < n ==> width_of(rows, i) <= max_width(rows, n),
    decreases n,
{
    if n > 1 {
        lemma_max_width(rows, n - 1, high);
    }
}

impl Grid {
    /// Where a written row begins and ends in the text, counted from the
    /// column at which the board's first column is written.
    pub proof fn lemma_row_measures(self, r: int)
        requires
            self.is_trimmed(),
            0 <= r < self.num_rows(),
        ensures
            self.rendered_rows().len() == self.num_rows(),
            self.row_indent(0) - self.text_begin(false) <= indent_of(self.rendered_rows(), r),
            width_of(self.rendered_rows(), r) <= self.row_indent(0) - self.text_begin(false) + 4
                * self.row_length,
            self.index((r, 0)).is_board_tile() ==> indent_of(self.rendered_rows(), r)
                <= self.row_indent(0) - self.text_begin(false) + 1,
            self.index((r, self.row_length - 1)).is_board_tile() ==> width_of(
                self.rendered_rows(),
                r,
            ) >= self.row_indent(0) - self.text_begin(false) + 4 * self.row_length - 2,
    {
        self.lemma_rendered_row(r);
        assert(self.row_has_tile(r));
        let q = choose|q: int|
            0 <= q < self.row_length && (#[trigger] self.index((r, q))).is_board_tile();
        self.lemma_row_mark(r, q);
        if self.index((r, 0)).is_board_tile() {
            self.lemma_row_mark(r, 0);
        }
        if self.index((r, self.row_length - 1)).is_board_tile() {
            self.lemma_row_mark(r, self.row_length - 1);
        }
        assert(self.rendered_rows()[r] == self.rendered_row(r, false));
    }

    /// The parser finds the columns of the board in its text: the first
    /// cell of every row begins where the board's first column is
    /// written, and a row has as many cells as the board has columns.
    pub proof fn lemma_columns(self)
        requires
            self.is_trimmed(),
        ensures
            self.rendered_rows().len() == self.num_rows(),
            first_column(self.rendered_rows()) == self.row_indent(0) - self.text_begin(false),
            cells_per_row(self.rendered_rows()) == self.row_length,
    {
        let rows = self.rendered_rows();
        let count = self.num_rows();
        let column = self.row_indent(0) - self.text_begin(false);
        let high = column + 4 * self.row_length;
        self.lemma_text_begin();
        assert forall|i: int| 0 <= i < count implies column <= indent_of(rows, i) && width_of(
            rows,
            i,
        ) <= high by {
            self.lemma_row_measures(i);
        }
        lemma_min_indent(rows, count, column);
        lemma_max_width(rows, count, high);
        let first = choose|r: int| 0 <= r < count && (#[trigger] self.index((r, 0))).is_board_tile();
        self.lemma_row_measures(first);
        let last = choose|r: int|
            0 <= r < count && (#[trigger] self.index((r, self.row_length - 1))).is_board_tile();
        self.lemma_row_measures(last);
        let smallest = min_indent(rows, count);
        let largest = max_width(rows, count);
        assert(column <= smallest <= column + 1);
        assert(high - 2 <= largest <= high);
        assert(column % 2 == 0);
        assert(smallest / 2 * 2 == column);
        assert((largest - column + 3) / 4 == self.row_length);
    }

    /// The parser finds the text of every tile in its cell.
    pub proof fn lemma_cell(self, r: int, q: int)
        requires
            self.is_trimmed(),
            0 <= r < self.num_rows(),
            0 <= q < self.row_length,
        ensures
            cell_at(self.rendered_rows(), r, q) == tile_text(self.index((r, q)), false),
            is_plain(self.index((r, q))),
    {
        let rows = self.rendered_rows();
        let begin = self.text_begin(false);
        let row = self.row_text(r, false);
        let out = self.rendered_row(r, false);
        let indent = self.row_indent(r);
        let text = tile_text(self.index((r, q)), false);
        self.lemma_columns();
        self.lemma_rendered_row(r);
        self.lemma_to_index((r, q));
        lemma_tile_text(self.index((r, q)));
        lemma_leading_spaces(row);
        lemma_trailing_whitespace(row);
        assert forall|j: int| 0 <= j < 4 implies cell_at(rows, r, q)[j] == text[j] by {
            let x = indent + 4 * q + j;
            self.lemma_row_text(r, x);
            assert(first_column(rows) + 4 * q + j - 2 * r == x - begin);
            assert((x - indent) / 4 == q && (x - indent) % 4 == j);
            if 0 <= x - begin < out.len() {
                assert(out[x - begin] == row[x]);
            }
        }
        assert(cell_at(rows, r, q) =~= text);
    }

    /// The parser finds the tiles of the board in its text.
    pub proof fn lemma_tiles(self, n: int)
        requires
            self.is_trimmed(),
            0 <= n <= self.tiles.len(),
        ensures
            tiles_upto(self.rendered_rows(), n) == Ok::<Seq<Tile>, ParseError>(self.tiles.take(n)),
        decreases n,
    {
        if n > 0 {
            self.lemma_tiles(n - 1);
            self.lemma_columns();
            self.lemma_to_coords(n - 1);
            let c = self.to_coords(n - 1);
            self.lemma_cell(c.0, c.1);
            lemma_tile_text(self.tiles[n - 1]);
            assert(self.tiles.take(n) =~= self.tiles.take(n - 1).push(self.tiles[n - 1]));
        } else {
            assert(self.tiles.take(0) =~= Seq::<Tile>::empty());
        }
    }
}

/// Round trip: the text of a trimmed board, written without colors, is
/// parsed back into the same board.
pub proof fn lemma_parse_render(grid: Grid)
    requires
        grid.is_trimmed(),
    ensures
        parse_text(grid.render(false)) == Ok::<Grid, ParseError>(grid),
{
    let rows = grid.rendered_rows();
    grid.lemma_rows_of_render(grid.num_rows());
    assert(rows.take(grid.num_rows()) =~= rows);
    grid.lemma_columns();
    grid.lemma_len();
    grid.lemma_tiles(grid.tiles.len() as int);
    assert(grid.tiles.take(grid.tiles.len() as int) =~= grid.tiles);
}


/// The only white space of the text is spaces and line breaks.
pub open spec fn has_plain_spaces(text: Seq<char>) -> bool {
    forall|i: int|
        0 <= i < text.len() && is_whitespace(#[trigger] text[i]) ==> text[i] == ' ' || text[i]
            == '\n'
}

/// A row of a text does not end with white space, and holds no line
/// break, nor any white space but spaces if the text holds none.
pub proof fn lemma_rows_of(text: Seq<char>, i: int)
    requires
        0 <= i < rows_of(text).len(),
    ensures
        rows_of(text)[i].len() > 0,
        !is_whitespace(rows_of(text)[i].last()),
        leading_spaces(rows_of(text)[i]) < rows_of(text)[i].len(),
        has_plain_spaces(text) ==> forall|j: int|
            0 <= j < rows_of(text)[i].len() && is_whitespace(#[trigger] rows_of(text)[i][j])
                ==> rows_of(text)[i][j] == ' ',
    decreases text.len(),
{
    let length = first_line_len(text) as int;
    let whole = text.take(length);
    let line = trim_end(whole);
    lemma_first_line_len(text);
    lemma_trailing_whitespace(whole);
    if line.len() > 0 && i == 0 {
        lemma_leading_spaces(line);
        assert(is_whitespace(' '));
        if has_plain_spaces(text) {
            assert forall|j: int| 0 <= j < line.len() && is_whitespace(
                #[trigger] line[j],
            ) implies line[j] == ' ' by {
                assert(line[j] == text[j]);
            }
        }
    } else {
        let rest = text.skip(length + 1);
        let next = if line.len() > 0 {
            i - 1
        } else {
            i
        };
        lemma_rows_of(rest, next);
        assert(rows_of(text)[i] == rows_of(rest)[next]);
        if has_plain_spaces(text) {
            assert forall|k: int| 0 <= k < rest.len() && is_whitespace(
                #[trigger] rest[k],
            ) implies rest[k] == ' ' || rest[k] == '\n' by {
                assert(rest[k] == text[k + length + 1]);
            }
        }
    }
}

/// A cell that holds something and stands for a tile stands for a board
/// tile, and every cell that stands for a tile stands for a plain one.
pub proof fn lemma_parse_tile(cell: Seq<char>)
    requires
        parse_tile(cell).is_ok(),
    ensures
        is_plain(parse_tile(cell).unwrap()),
        cell.len() > 0 ==> parse_tile(cell).unwrap().is_board_tile(),
{
    if cell.len() > 0 && cell != seq![' ', '0'] {
        let number = cell.drop_first();
        let digits = if number[0] == '+' {
            number.drop_first()
        } else {
            number
        };
        lemma_parse_digits(digits, 0);
        let size = parse_number(number).unwrap();
        assert(1 <= size <= 32);
    }
}

/// The number of digits is not below the number of the digits before them.
pub proof fn lemma_parse_digits(digits: Seq<char>, value: int)
    requires
        0 <= value,
    ensures
        parse_digits(digits, value).is_ok() ==> parse_digits(digits, value).unwrap() >= value,
    decreases digits.len(),
{
    if digits.len() > 0 && is_digit(digits[0]) && value * 10 + digit_value(digits[0]) <= 255 {
        lemma_parse_digits(digits.drop_first(), value * 10 + digit_value(digits[0]));
    }
}

/// A character that is no white space is left in the cell without the
/// white space at its end.
pub proof fn lemma_trim_end_keeps(s: Seq<char>, j: int)
    requires
        0 <= j < s.len(),
        !is_whitespace(s[j]),
    ensures
        trim_end(s).len() > j,
{
    lemma_trailing_whitespace(s);
}

/// The tiles that the parser gives are those of the cells.
pub proof fn lemma_tiles_upto(rows: Seq<Seq<char>>, n: int, k: int)
    requires
        0 <= k < n,
        tiles_upto(rows, n).is_ok(),
    ensures
        tiles_upto(rows, n).unwrap().len() == n,
        parse_tile(
            trim_end(cell_at(rows, k / cells_per_row(rows), k % cells_per_row(rows))),
        ) == Ok::<Tile, ParseError>(tiles_upto(rows, n).unwrap()[k]),
    decreases n,
{
    lemma_tiles_len(rows, n - 1);
    if k < n - 1 {
        lemma_tiles_upto(rows, n - 1, k);
    }
}

pub proof fn lemma_tiles_len(rows: Seq<Seq<char>>, n: int)
    requires
        0 <= n,
    ensures
        tiles_upto(rows, n).is_ok() ==> tiles_upto(rows, n).unwrap().len() == n,
    decreases n,
{
    if n > 0 {
        lemma_tiles_len(rows, n - 1);
    }
}

pub proof fn lemma_width_below(rows: Seq<Seq<char>>, n: int, i: int)
    requires
        0 <= i < n <= rows.len(),
    ensures
        width_of(rows, i) <= max_width(rows, n),
    decreases n,
{
    if i < n - 1 {
        lemma_width_below(rows, n - 1, i);
    }
}

/// One of the rows has the smallest indent, and one the largest width.
pub proof fn lemma_measures_attained(rows: Seq<Seq<char>>, n: int) -> (found: (int, int))
    requires
        1 <= n <= rows.len(),
    ensures
        0 <= found.0 < n,
        0 <= found.1 < n,
        indent_of(rows, found.0) == min_indent(rows, n),
        width_of(rows, found.1) == max_width(rows, n),
    decreases n,
{
    if n == 1 {
        (0, 0)
    } else {
        let before = lemma_measures_attained(rows, n - 1);
        (
            if indent_of(rows, n - 1) < min_indent(rows, n - 1) {
                n - 1
            } else {
                before.0
            },
            if width_of(rows, n - 1) > max_width(rows, n - 1) {
                n - 1
            } else {
                before.1
            },
        )
    }
}

/// The board that the parser gives for a text without other white space
/// than spaces and line breaks is trimmed.
pub proof fn lemma_parsed_is_trimmed(text: Seq<char>)
    requires
        has_plain_spaces(text),
        parse_text(text).is_ok(),
    ensures
        parse_text(text).unwrap().is_trimmed(),
{
    let grid = parse_text(text).unwrap();
    let rows = rows_of(text);
    let count = rows.len() as int;
    let column = first_column(rows);
    let length = cells_per_row(rows);
    assert forall|i: int| 0 <= i < count implies leading_spaces(#[trigger] rows[i])
        < rows[i].len() by {
        lemma_rows_of(text, i);
    }
    lemma_row_length(rows);
    lemma_tiles_len(rows, count * length);
    assert(0 <= count * length) by (nonlinear_arith)
        requires
            count >= 1,
            length >= 1,
    ;
    assert(length <= count * length) by (nonlinear_arith)
        requires
            count >= 1,
            length >= 1,
    ;
    vstd::arithmetic::div_mod::lemma_mod_multiples_basic(count, length);
    vstd::arithmetic::div_mod::lemma_div_multiples_vanish(count, length);
    assert(count * length == length * count) by (nonlinear_arith);
    assert(grid.wf());
    assert(grid.num_rows() == count);
    assert forall|k: int| 0 <= k < grid.tiles.len() implies is_plain(#[trigger] grid.tiles[k]) by {
        lemma_tiles_upto(rows, count * length, k);
        lemma_parse_tile(trim_end(cell_at(rows, k / length, k % length)));
    }
    lemma_min_indent(rows, count, 0);
    assert forall|r: int| 0 <= r < count implies width_of(rows, r) <= max_width(rows, count) by {
        lemma_width_below(rows, count, r);
    }
    /* The last character of a row stands in a cell of the row. */
    assert forall|r: int| 0 <= r < count implies {
        &&& 0 <= (width_of(rows, r) - 1 - column) / 4 < length
        &&& (#[trigger] grid.index((r, (width_of(rows, r) - 1 - column) / 4))).is_board_tile()
    } by {
        lemma_rows_of(text, r);
        lemma_leading_spaces(rows[r]);
        let place = width_of(rows, r) - 1 - column;
        let q = place / 4;
        let j = place % 4;
        assert(min_indent(rows, count) <= indent_of(rows, r));
        assert(column <= min_indent(rows, count));
        assert(indent_of(rows, r) <= width_of(rows, r) - 1);
        assert(0 <= place);
        let cell = cell_at(rows, r, q);
        assert(cell[j] == rows[r].last());
        lemma_trim_end_keeps(cell, j);
        grid.lemma_to_index((r, q));
        let k = grid.to_index((r, q));
        lemma_tiles_upto(rows, count * length, k);
        lemma_parse_tile(trim_end(cell));
    }
    assert forall|r: int| 0 <= r < count implies #[trigger] grid.row_has_tile(r) by {
        assert(grid.index((r, (width_of(rows, r) - 1 - column) / 4)).is_board_tile());
    }
    let found = lemma_measures_attained(rows, count);
    /* The first character of the row with the smallest indent stands in the first cell. */
    assert(grid.column_has_tile(0)) by {
        let r = found.0;
        lemma_rows_of(text, r);
        lemma_leading_spaces(rows[r]);
        let lead = leading_spaces(rows[r]) as int;
        let j = indent_of(rows, r) - column;
        let cell = cell_at(rows, r, 0);
        assert(cell[j] == rows[r][lead]);
        assert(!is_whitespace(rows[r][lead]));
        lemma_trim_end_keeps(cell, j);
        grid.lemma_to_index((r, 0));
        let k = grid.to_index((r, 0));
        lemma_tiles_upto(rows, count * length, k);
        lemma_parse_tile(trim_end(cell));
        assert(grid.index((r, 0)).is_board_tile());
    }
    assert(grid.column_has_tile(length - 1)) by {
        let r = found.1;
        assert(grid.index((r, (width_of(rows, r) - 1 - column) / 4)).is_board_tile());
        assert((width_of(rows, r) - 1 - column) / 4 == length - 1);
    }
}

/// Round trip: the board that the parser gives for a text is the board
/// that it gives for the written board. The text of the written board is
/// the text with its indentation made even. White space other than
/// spaces and line breaks is left out of account: it can stand in the
/// text where the written board has no column.
pub proof fn lemma_round_trip(text: Seq<char>)
    requires
        has_plain_spaces(text),
        parse_text(text).is_ok(),
    ensures
        parse_text(parse_text(text).unwrap().render(false)) == parse_text(text),
        parse_text(parse_text(text).unwrap().render(false)).unwrap().render(false) == parse_text(
            text,
        ).unwrap().render(false),
{
    lemma_parsed_is_trimmed(text);
    lemma_parse_render(parse_text(text).unwrap());
}

} // verus!
