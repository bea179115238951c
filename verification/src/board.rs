//! Players, tiles and the hexagonal board with its geometric queries.

use vstd::prelude::*;

verus! {

/// One of the players, identified by a number below [`Player::PLAYER_COUNT`].
#[derive(Debug, PartialEq, Eq, PartialOrd, Ord, Hash, Clone, Copy, Structural)]
pub struct Player(pub u8);

impl Player {
    pub const PLAYER_COUNT: usize = 2;

    /// A player that takes part in the game.
    pub open spec fn valid(self) -> bool {
        self.0 < 2
    }

    pub open spec fn spec_direction(self) -> int {
        if self.0 == 0 {
            -1
        } else {
            1
        }
    }

    pub open spec fn spec_next(self) -> Player {
        Player(((self.0 + 1) % 2) as u8)
    }

    /// All players in turn order.
    pub fn iter() -> (players: Vec<Player>)
        ensures
            players@ == seq![Player(0), Player(1)],
    {
        let mut players: Vec<Player> = Vec::new();
        players.push(Player(0));
        players.push(Player(1));
        assert(players@ =~= seq![Player(0), Player(1)]);
        players
    }

    pub fn id(self) -> (id: usize)
        ensures
            id == self.0,
    {
        self.0 as usize
    }

    /// The direction where this player is trying to push the game value.
    pub fn direction(self) -> (direction: i32)
        requires
            self.valid(),
        ensures
            direction == self.spec_direction(),
    {
        if self.0 == 0 {
            -1
        } else {
            1
        }
    }

    /// The player whose turn is next.
    #[verifier::when_used_as_spec(spec_next)]
    pub fn next(self) -> (next: Player)
        requires
            self.valid(),
        ensures
            next == self.spec_next(),
            next.valid(),
    {
        Player((self.0 + 1) % 2)
    }
}

#[derive(Debug, PartialEq, Eq, PartialOrd, Ord, Hash, Clone, Copy, Structural)]
pub enum TileType {
    /// Outside of the board.
    NoTile,
    Empty,
    Stack,
}

/// A tile packed into a single byte.
///
/// Bytes 0-31 are the stacks of player 0 with sizes 1-32, bytes 32-63 the
/// stacks of player 1, bytes 64-127 stand for no tile and bytes 128-255 for
/// an empty tile.
#[derive(Debug, PartialEq, Eq, PartialOrd, Ord, Hash, Clone, Copy, Structural)]
pub struct Tile(pub u8);

impl Tile {
    pub const MAX_STACK_SIZE: u8 = 32;

    pub open spec fn spec_no_tile() -> Tile {
        Tile(64)
    }

    pub open spec fn spec_empty() -> Tile {
        Tile(128)
    }

    /// The tile that stands for a place outside of the board.
    #[verifier::when_used_as_spec(spec_no_tile)]
    pub fn no_tile() -> (tile: Tile)
        ensures
            tile == Tile::spec_no_tile(),
    {
        Tile(64)
    }

    /// The tile of a free place on the board.
    #[verifier::when_used_as_spec(spec_empty)]
    pub fn empty() -> (tile: Tile)
        ensures
            tile == Tile::spec_empty(),
    {
        Tile(128)
    }

    pub open spec fn spec_tile_type(self) -> TileType {
        if self.0 < 64 {
            TileType::Stack
        } else if self.0 < 128 {
            TileType::NoTile
        } else {
            TileType::Empty
        }
    }

    pub open spec fn spec_player(self) -> Player {
        Player(self.0 / 32)
    }

    pub open spec fn spec_stack_size(self) -> u8 {
        (self.0 % 32 + 1) as u8
    }

    pub open spec fn spec_is_stack(self) -> bool {
        self.0 < 64
    }

    pub open spec fn spec_is_empty(self) -> bool {
        self.0 >= 128
    }

    pub open spec fn spec_is_board_tile(self) -> bool {
        self.spec_is_stack() || self.spec_is_empty()
    }

    /// The byte that `new` packs its arguments into.
    pub open spec fn spec_new(tile_type: TileType, player: Player, stack_size: u8) -> Tile {
        Tile(
            (stack_size - 1 + player.0 * 32 + match tile_type {
                TileType::Stack => 0int,
                TileType::NoTile => 64int,
                TileType::Empty => 128int,
            }) as u8,
        )
    }

    pub open spec fn spec_stack(player: Player, stack_size: u8) -> Tile {
        Tile::spec_new(TileType::Stack, player, stack_size)
    }

    /// Whether this tile is a stack of `player`.
    pub open spec fn is_stack_of(self, player: Player) -> bool {
        self.spec_is_stack() && self.spec_player() == player
    }

    #[verifier::when_used_as_spec(spec_new)]
    pub fn new(tile_type: TileType, player: Player, stack_size: u8) -> (tile: Tile)
        requires
            player.valid(),
            1 <= stack_size <= Tile::MAX_STACK_SIZE,
        ensures
            tile == Tile::spec_new(tile_type, player, stack_size),
            tile.spec_tile_type() == tile_type,
            tile_type == TileType::Stack ==> tile.spec_player() == player && tile.spec_stack_size()
                == stack_size,
    {
        let base: u8 = match tile_type {
            TileType::Stack => 0,
            TileType::NoTile => 64,
            TileType::Empty => 128,
        };
        Tile(stack_size - 1 + player.0 * 32 + base)
    }

    #[verifier::when_used_as_spec(spec_stack)]
    pub fn stack(player: Player, stack_size: u8) -> (tile: Tile)
        requires
            player.valid(),
            1 <= stack_size <= Tile::MAX_STACK_SIZE,
        ensures
            tile == Tile::spec_stack(player, stack_size),
            tile.is_stack_of(player),
            tile.spec_stack_size() == stack_size,
    {
        Tile::new(TileType::Stack, player, stack_size)
    }

    #[verifier::when_used_as_spec(spec_tile_type)]
    pub fn tile_type(self) -> (tile_type: TileType)
        ensures
            tile_type == self.spec_tile_type(),
    {
        if self.0 < 64 {
            TileType::Stack
        } else if self.0 < 128 {
            TileType::NoTile
        } else {
            TileType::Empty
        }
    }

    #[verifier::when_used_as_spec(spec_player)]
    pub fn player(self) -> (player: Player)
        ensures
            player == self.spec_player(),
            self.spec_is_stack() ==> player.valid(),
    {
        Player(self.0 / 32)
    }

    #[verifier::when_used_as_spec(spec_stack_size)]
    pub fn stack_size(self) -> (stack_size: u8)
        ensures
            stack_size == self.spec_stack_size(),
            1 <= stack_size <= Tile::MAX_STACK_SIZE,
    {
        self.0 % 32 + 1
    }

    #[verifier::when_used_as_spec(spec_is_stack)]
    pub fn is_stack(self) -> (is_stack: bool)
        ensures
            is_stack == self.spec_is_stack(),
    {
        self.0 < 64
    }

    #[verifier::when_used_as_spec(spec_is_empty)]
    pub fn is_empty(self) -> (is_empty: bool)
        ensures
            is_empty == self.spec_is_empty(),
    {
        self.0 >= 128
    }

    #[verifier::when_used_as_spec(spec_is_board_tile)]
    pub fn is_board_tile(self) -> (is_board_tile: bool)
        ensures
            is_board_tile == self.spec_is_board_tile(),
    {
        self.is_stack() || self.is_empty()
    }
}


/// Coordinate offsets for each neighbor in a hex grid, in clockwise order.
/// Neighbors are found by adding these to the current coordinates. They
/// also are the straight line directions.
pub const DIRECTION_OFFSETS: [(isize, isize); 6] = [
    (0, 1),
    (1, 1),
    (1, 0),
    (0, -1),
    (-1, -1),
    (-1, 0),
];

/// The largest number of tiles that a board may store. It keeps every score
/// of the evaluator inside `i32`.
pub const MAX_TILES: usize = 10_000_000;

/// The `k`-th direction as a pair of mathematical integers.
pub open spec fn direction_offset(k: int) -> (int, int) {
    if k == 0 {
        (0, 1)
    } else if k == 1 {
        (1, 1)
    } else if k == 2 {
        (1, 0)
    } else if k == 3 {
        (0, -1)
    } else if k == 4 {
        (-1, -1)
    } else {
        (-1, 0)
    }
}

pub open spec fn is_direction(d: (int, int)) -> bool {
    exists|k: int| 0 <= k < 6 && d == #[trigger] direction_offset(k)
}

/// Executable coordinates as mathematical ones.
pub open spec fn coords(c: (isize, isize)) -> (int, int) {
    (c.0 as int, c.1 as int)
}

pub open spec fn coords_seq(s: Seq<(isize, isize)>) -> Seq<(int, int)> {
    s.map_values(|c: (isize, isize)| coords(c))
}

pub open spec fn offset(c: (int, int), d: (int, int)) -> (int, int) {
    (c.0 + d.0, c.1 + d.1)
}

pub fn add_offset(coords: (isize, isize), offset: (isize, isize)) -> (sum: (isize, isize))
    requires
        isize::MIN <= coords.0 + offset.0 <= isize::MAX,
        isize::MIN <= coords.1 + offset.1 <= isize::MAX,
    ensures
        self::coords(sum) == self::offset(self::coords(coords), self::coords(offset)),
{
    (coords.0 + offset.0, coords.1 + offset.1)
}

/// The mathematical model of a board: the tiles in row-major order and the
/// length of a row.
pub struct Grid {
    pub tiles: Seq<Tile>,
    pub row_length: int,
}

impl Grid {
    /// The tiles fill whole rows, and neither a row nor the board holds more
    /// than `MAX_TILES` tiles.
    pub open spec fn wf(self) -> bool {
        &&& 0 < self.row_length <= MAX_TILES
        &&& self.tiles.len() as int % self.row_length == 0
        &&& self.tiles.len() <= MAX_TILES
    }

    pub open spec fn num_rows(self) -> int {
        self.tiles.len() as int / self.row_length
    }

    pub open spec fn in_range(self, c: (int, int)) -> bool {
        0 <= c.0 < self.num_rows() && 0 <= c.1 < self.row_length
    }

    pub open spec fn to_index(self, c: (int, int)) -> int {
        self.row_length * c.0 + c.1
    }

    pub open spec fn to_coords(self, i: int) -> (int, int) {
        (i / self.row_length, i % self.row_length)
    }

    /// The tile at `c`. Every place outside the stored rectangle holds no tile.
    pub open spec fn index(self, c: (int, int)) -> Tile {
        if self.in_range(c) {
            self.tiles[self.to_index(c)]
        } else {
            Tile::spec_no_tile()
        }
    }

    pub open spec fn neighbor(c: (int, int), k: int) -> (int, int) {
        offset(c, direction_offset(k))
    }

    /// How many of the first `k` neighbors of `c` are empty.
    pub open spec fn empty_neighbors_upto(self, c: (int, int), k: int) -> int
        decreases k,
    {
        if k <= 0 {
            0
        } else {
            self.empty_neighbors_upto(c, k - 1) + if self.index(Grid::neighbor(c, k - 1)).is_empty() {
                1int
            } else {
                0int
            }
        }
    }

    pub open spec fn empty_neighbors(self, c: (int, int)) -> int {
        self.empty_neighbors_upto(c, 6)
    }

    /// An upper bound on the steps from `c` in direction `d` that stay
    /// inside the stored rectangle.
    pub open spec fn steps_to_border(self, c: (int, int), d: (int, int)) -> int {
        let steps = if d.0 > 0 {
            self.num_rows() - c.0
        } else if d.0 < 0 {
            c.0 + 1
        } else if d.1 > 0 {
            self.row_length - c.1
        } else {
            c.1 + 1
        };
        if steps > 0 {
            steps
        } else {
            0
        }
    }

    /// The number of empty tiles that follow `c` in direction `d` without a gap.
    pub open spec fn empty_run(self, c: (int, int), d: (int, int)) -> nat
        decreases self.steps_to_border(c, d),
    {
        if d != (0int, 0int) && self.index(offset(c, d)).is_empty() {
            1 + self.empty_run(offset(c, d), d)
        } else {
            0
        }
    }

    /// The place `n` steps from `c` in direction `d`.
    pub open spec fn step(c: (int, int), d: (int, int), n: int) -> (int, int) {
        (c.0 + n * d.0, c.1 + n * d.1)
    }

    /// The empty tiles that follow `c` in direction `d`, nearest first.
    pub open spec fn straight_line(self, c: (int, int), d: (int, int)) -> Seq<(int, int)> {
        Seq::new(self.empty_run(c, d), |i: int| Grid::step(c, d, i + 1))
    }

    /// The farthest empty tile that a straight line from `c` in direction
    /// `d` reaches, if it reaches any.
    pub open spec fn line_end(self, c: (int, int), d: (int, int)) -> Option<(int, int)> {
        if self.empty_run(c, d) > 0 {
            Some(Grid::step(c, d, self.empty_run(c, d) as int))
        } else {
            None
        }
    }

    /// The line ends in the first `k` directions, in the order of the directions.
    pub open spec fn line_ends_upto(self, c: (int, int), k: int) -> Seq<(int, int)>
        decreases k,
    {
        if k <= 0 {
            Seq::empty()
        } else {
            let before = self.line_ends_upto(c, k - 1);
            match self.line_end(c, direction_offset(k - 1)) {
                Some(end) => before.push(end),
                None => before,
            }
        }
    }

    pub open spec fn line_ends(self, c: (int, int)) -> Seq<(int, int)> {
        self.line_ends_upto(c, 6)
    }

    /// By how much `extended` shifts the coordinates of the tiles.
    pub open spec fn extend_offset(c: (int, int)) -> (int, int) {
        (
            if c.0 == -1 {
                1
            } else {
                0
            },
            if c.1 == -1 {
                1
            } else {
                0
            },
        )
    }

    pub open spec fn extended_rows(self, c: (int, int)) -> int {
        if c.0 == self.num_rows() || c.0 == -1 {
            self.num_rows() + 1
        } else {
            self.num_rows()
        }
    }

    pub open spec fn extended_row_length(self, c: (int, int)) -> int {
        if c.1 == self.row_length || c.1 == -1 {
            self.row_length + 1
        } else {
            self.row_length
        }
    }

    /// The grid grown by one row, one column, or both, so that it contains
    /// `c`, where `c` lies one step outside of it. Places that `self` does
    /// not store hold no tile.
    pub open spec fn extended(self, c: (int, int)) -> Grid {
        let rows = self.extended_rows(c);
        let row_length = self.extended_row_length(c);
        let shift = Grid::extend_offset(c);
        Grid {
            tiles: Seq::new(
                (rows * row_length) as nat,
                |i: int| self.index((i / row_length - shift.0, i % row_length - shift.1)),
            ),
            row_length,
        }
    }

    /// The number of tiles is the product of the two side lengths.
    pub proof fn lemma_len(self)
        requires
            self.wf(),
        ensures
            self.tiles.len() == self.num_rows() * self.row_length,
            0 <= self.num_rows() <= self.tiles.len(),
            self.row_length <= self.tiles.len() || self.tiles.len() == 0,
    {
        let cols = self.row_length;
        let len = self.tiles.len() as int;
        vstd::arithmetic::div_mod::lemma_fundamental_div_mod(len, cols);
        vstd::arithmetic::div_mod::lemma_div_pos_is_pos(len, cols);
        assert(cols * (len / cols) == (len / cols) * cols) by (nonlinear_arith);
        assert((len / cols) <= (len / cols) * cols) by (nonlinear_arith)
            requires
                cols >= 1,
                len / cols >= 0,
        ;
        assert(len / cols >= 1 ==> cols <= (len / cols) * cols) by (nonlinear_arith)
            requires
                cols >= 1,
        ;
    }

    /// The extended grid shows at every shifted place what the grid showed.
    pub proof fn lemma_extended(self, c: (int, int))
        requires
            self.wf(),
            self.extended(c).tiles.len() <= MAX_TILES,
            self.extended_row_length(c) <= MAX_TILES,
        ensures
            self.extended(c).wf(),
            self.extended(c).num_rows() == self.extended_rows(c),
            forall|p: (int, int)|
                self.index(p) == #[trigger] self.extended(c).index(
                    offset(p, Grid::extend_offset(c)),
                ),
    {
        let g = self.extended(c);
        let rows = self.extended_rows(c);
        let cols = self.extended_row_length(c);
        let shift = Grid::extend_offset(c);
        self.lemma_len();
        assert(rows * cols >= 0) by (nonlinear_arith)
            requires
                rows >= 0,
                cols >= 0,
        ;
        assert(g.tiles.len() == rows * cols);
        vstd::arithmetic::div_mod::lemma_div_multiples_vanish(rows, cols);
        vstd::arithmetic::div_mod::lemma_mod_multiples_basic(rows, cols);
        assert(rows * cols == cols * rows) by (nonlinear_arith);
        assert(g.num_rows() == rows);
        assert forall|p: (int, int)|
            self.index(p) == #[trigger] g.index(offset(p, shift)) by {
            let p2 = offset(p, shift);
            if g.in_range(p2) {
                g.lemma_to_index(p2);
                assert(g.index(p2) == self.index((p2.0 - shift.0, p2.1 - shift.1)));
            } else {
                assert(!self.in_range(p));
            }
        }
    }

    /// Coordinates in range and indices into the tiles correspond one to one.
    pub proof fn lemma_to_index(self, c: (int, int))
        requires
            self.wf(),
            self.in_range(c),
        ensures
            0 <= self.to_index(c) < self.tiles.len(),
            self.to_coords(self.to_index(c)) == c,
    {
        let cols = self.row_length;
        let len = self.tiles.len() as int;
        vstd::arithmetic::div_mod::lemma_fundamental_div_mod(len, cols);
        assert(cols * c.0 + c.1 < cols * self.num_rows()) by (nonlinear_arith)
            requires
                0 <= c.0 < self.num_rows(),
                0 <= c.1 < cols,
        ;
        assert(0 <= cols * c.0) by (nonlinear_arith)
            requires
                0 <= c.0,
                0 < cols,
        ;
        vstd::arithmetic::div_mod::lemma_fundamental_div_mod_converse(
            self.to_index(c),
            cols,
            c.0,
            c.1,
        );
    }

    pub proof fn lemma_to_coords(self, i: int)
        requires
            self.wf(),
            0 <= i < self.tiles.len(),
        ensures
            self.in_range(self.to_coords(i)),
            self.to_index(self.to_coords(i)) == i,
    {
        let cols = self.row_length;
        let len = self.tiles.len() as int;
        vstd::arithmetic::div_mod::lemma_fundamental_div_mod(i, cols);
        vstd::arithmetic::div_mod::lemma_fundamental_div_mod(len, cols);
        vstd::arithmetic::div_mod::lemma_div_pos_is_pos(i, cols);
        vstd::arithmetic::div_mod::lemma_mod_bound(i, cols);
        if i / cols >= len / cols {
            assert(cols * (i / cols) >= cols * (len / cols)) by (nonlinear_arith)
                requires
                    i / cols >= len / cols,
                    cols > 0,
            ;
        }
    }
}

/// A hexagonal board, stored as a rectangle of tiles in row-major order.
///
/// The place `(r, q)` has the neighbors `(r, q + 1)`, `(r + 1, q + 1)`,
/// `(r + 1, q)`, `(r, q - 1)`, `(r - 1, q - 1)` and `(r - 1, q)`. Places of the
/// rectangle that do not belong to the board hold [`Tile::no_tile`].
#[derive(Debug, PartialEq, Eq, PartialOrd, Ord, Hash, Clone)]
pub struct Board {
    /// Tiles stored in row-major order.
    pub tiles: Vec<Tile>,
    pub row_length: usize,
}

impl View for Board {
    type V = Grid;

    open spec fn view(&self) -> Grid {
        Grid { tiles: self.tiles@, row_length: self.row_length as int }
    }
}

impl Board {
    pub open spec fn wf(&self) -> bool {
        self@.wf()
    }

    /// Whether the tiles fill whole rows and the board is not too large.
    pub fn is_well_formed(&self) -> (well_formed: bool)
        ensures
            well_formed == self.wf(),
    {
        0 < self.row_length && self.row_length <= MAX_TILES && self.tiles.len() % self.row_length
            == 0 && self.tiles.len() <= MAX_TILES
    }

    pub fn num_rows(&self) -> (rows: usize)
        requires
            self.row_length > 0,
        ensures
            rows == self@.num_rows(),
    {
        self.tiles.len() / self.row_length
    }

    pub fn coords_to_index(&self, coords: (isize, isize)) -> (index: usize)
        requires
            self.wf(),
            self@.in_range(self::coords(coords)),
        ensures
            index == self@.to_index(self::coords(coords)),
            index < self.tiles.len(),
    {
        proof {
            self@.lemma_to_index(self::coords(coords));
            assert(0 <= self.row_length * coords.0) by (nonlinear_arith)
                requires
                    0 <= coords.0,
                    0 <= self.row_length,
            ;
        }
        self.row_length * (coords.0 as usize) + (coords.1 as usize)
    }

    pub fn index_to_coords(&self, index: usize) -> (coords: (isize, isize))
        requires
            self.row_length > 0,
            index <= isize::MAX,
        ensures
            self::coords(coords) == self@.to_coords(index as int),
    {
        proof {
            vstd::arithmetic::div_mod::lemma_div_is_ordered(0, index as int, self.row_length as int);
            vstd::arithmetic::div_mod::lemma_fundamental_div_mod(
                index as int,
                self.row_length as int,
            );
            vstd::arithmetic::div_mod::lemma_mod_bound(index as int, self.row_length as int);
            assert(index as int / self.row_length as int <= index) by (nonlinear_arith)
                requires
                    index >= 0,
                    self.row_length > 0,
            ;
        }
        ((index / self.row_length) as isize, (index % self.row_length) as isize)
    }

    pub fn coords_in_range(&self, coords: (isize, isize)) -> (in_range: bool)
        requires
            self.row_length > 0,
        ensures
            in_range == self@.in_range(self::coords(coords)),
    {
        coords.0 >= 0 && coords.1 >= 0 && (coords.0 as usize) < self.num_rows() && (
        coords.1 as usize) < self.row_length
    }

    /// The tile at the given coordinates. Coordinates outside of the stored
    /// rectangle hold no tile.
    pub fn index(&self, coords: (isize, isize)) -> (tile: Tile)
        requires
            self.wf(),
        ensures
            tile == self@.index(self::coords(coords)),
    {
        if self.coords_in_range(coords) {
            self.tiles[self.coords_to_index(coords)]
        } else {
            Tile::no_tile()
        }
    }

    /// Replaces the tile at coordinates inside the stored rectangle.
    pub fn set(&mut self, coords: (isize, isize), tile: Tile)
        requires
            old(self).wf(),
            old(self)@.in_range(self::coords(coords)),
        ensures
            final(self)@.row_length == old(self)@.row_length,
            final(self)@.tiles.len() == old(self)@.tiles.len(),
            final(self)@.tiles == old(self)@.tiles.update(
                old(self)@.to_index(self::coords(coords)),
                tile,
            ),
            final(self).wf(),
    {
        let index = self.coords_to_index(coords);
        self.tiles.set(index, tile);
    }

    /// All tiles in row-major order, each with its coordinates.
    pub fn iter_row_major(&self) -> (cells: Vec<((isize, isize), Tile)>)
        requires
            self.wf(),
        ensures
            cells.len() == self.tiles.len(),
            forall|i: int|
                0 <= i < cells.len() ==> self::coords((#[trigger] cells[i]).0) == self@.to_coords(i)
                    && cells[i].1 == self.tiles[i],
    {
        let mut cells: Vec<((isize, isize), Tile)> = Vec::new();
        let mut i: usize = 0;
        while i < self.tiles.len()
            invariant
                self.wf(),
                i <= self.tiles.len(),
                cells.len() == i,
                forall|j: int|
                    0 <= j < i ==> self::coords((#[trigger] cells[j]).0) == self@.to_coords(j)
                        && cells[j].1 == self.tiles[j],
            decreases self.tiles.len() - i,
        {
            let c = self.index_to_coords(i);
            cells.push((c, self.tiles[i]));
            i += 1;
        }
        cells
    }

    /// The rows of the board from first to last, each with its number.
    pub fn iter_rows(&self) -> (rows: Vec<(usize, Vec<Tile>)>)
        requires
            self.wf(),
        ensures
            rows.len() == self@.num_rows(),
            forall|r: int|
                0 <= r < rows.len() ==> (#[trigger] rows[r]).0 == r && rows[r].1@
                    == self.tiles@.subrange(
                    r * self.row_length,
                    r * self.row_length + self.row_length,
                ),
    {
        let num_rows = self.num_rows();
        let mut rows: Vec<(usize, Vec<Tile>)> = Vec::new();
        let mut r: usize = 0;
        proof {
            vstd::arithmetic::div_mod::lemma_fundamental_div_mod(
                self.tiles.len() as int,
                self.row_length as int,
            );
        }
        while r < num_rows
            invariant
                self.wf(),
                num_rows == self@.num_rows(),
                self.tiles.len() == self.row_length * num_rows,
                r <= num_rows,
                rows.len() == r,
                forall|j: int|
                    0 <= j < r ==> (#[trigger] rows[j]).0 == j && rows[j].1@
                        == self.tiles@.subrange(
                        j * self.row_length,
                        j * self.row_length + self.row_length,
                    ),
            decreases num_rows - r,
        {
            assert(r * self.row_length + self.row_length <= self.row_length * num_rows)
                by (nonlinear_arith)
                requires
                    r + 1 <= num_rows,
                    self.row_length >= 0,
            ;
            let start: usize = r * self.row_length;
            let mut row: Vec<Tile> = Vec::new();
            let mut q: usize = 0;
            while q < self.row_length
                invariant
                    q <= self.row_length,
                    start + self.row_length <= self.tiles.len(),
                    row@ == self.tiles@.subrange(start as int, start + q),
                decreases self.row_length - q,
            {
                row.push(self.tiles[start + q]);
                q += 1;
                assert(row@ =~= self.tiles@.subrange(start as int, start + q));
            }
            rows.push((r, row));
            r += 1;
        }
        rows
    }

    /// The six neighbors of the given coordinates in clockwise direction.
    pub fn iter_neighbors(&self, coords: (isize, isize)) -> (neighbors: Vec<
        ((isize, isize), Tile),
    >)
        requires
            self.wf(),
            isize::MIN < coords.0 < isize::MAX,
            isize::MIN < coords.1 < isize::MAX,
        ensures
            neighbors.len() == 6,
            forall|k: int|
                0 <= k < 6 ==> self::coords((#[trigger] neighbors[k]).0) == Grid::neighbor(
                    self::coords(coords),
                    k,
                ) && neighbors[k].1 == self@.index(Grid::neighbor(self::coords(coords), k)),
    {
        let mut neighbors: Vec<((isize, isize), Tile)> = Vec::new();
        let mut k: usize = 0;
        while k < 6
            invariant
                self.wf(),
                isize::MIN < coords.0 < isize::MAX,
                isize::MIN < coords.1 < isize::MAX,
                k <= 6,
                neighbors.len() == k,
                forall|j: int|
                    0 <= j < k ==> self::coords((#[trigger] neighbors[j]).0) == Grid::neighbor(
                        self::coords(coords),
                        j,
                    ) && neighbors[j].1 == self@.index(Grid::neighbor(self::coords(coords), j)),
            decreases 6 - k,
        {
            let neighbor_coords = add_offset(coords, DIRECTION_OFFSETS[k]);
            neighbors.push((neighbor_coords, self.index(neighbor_coords)));
            k += 1;
        }
        neighbors
    }

    /// The empty tiles that follow `start_coords` in a straight line, up to
    /// the first tile that is not empty.
    pub fn iter_empty_straight_line(
        &self,
        start_coords: (isize, isize),
        direction: (isize, isize),
    ) -> (line: Vec<(isize, isize)>)
        requires
            self.wf(),
            is_direction(coords(direction)),
            isize::MIN < start_coords.0 < isize::MAX,
            isize::MIN < start_coords.1 < isize::MAX,
        ensures
            coords_seq(line@) == self@.straight_line(coords(start_coords), coords(direction)),
    {
        let ghost s = coords(start_coords);
        let ghost d = coords(direction);
        let mut line: Vec<(isize, isize)> = Vec::new();
        let mut current = start_coords;
        let mut next = add_offset(start_coords, direction);
        assert(0 * d.0 == 0 && 0 * d.1 == 0);
        while self.index(next).is_empty()
            invariant
                self.wf(),
                is_direction(d),
                d == coords(direction),
                isize::MIN < current.0 < isize::MAX,
                isize::MIN < current.1 < isize::MAX,
                coords(current) == Grid::step(s, d, line.len() as int),
                coords(next) == offset(coords(current), d),
                self@.empty_run(s, d) == line.len() + self@.empty_run(coords(current), d),
                forall|i: int|
                    0 <= i < line.len() ==> coords(#[trigger] line[i]) == Grid::step(s, d, i + 1),
            decreases self@.empty_run(coords(current), d),
        {
            proof {
                self@.lemma_len();
                assert(self@.in_range(coords(next)));
                let n = line.len() as int;
                assert((n + 1) * d.0 == n * d.0 + d.0 && (n + 1) * d.1 == n * d.1 + d.1)
                    by (nonlinear_arith);
            }
            line.push(next);
            current = next;
            next = add_offset(current, direction);
        }
        assert(coords_seq(line@) =~= self@.straight_line(s, d));
        line
    }

    /// The farthest empty tile that a straight line in the given direction
    /// reaches.
    fn empty_straight_line_end(&self, start_coords: (isize, isize), direction: (isize, isize)) -> (end:
        Option<(isize, isize)>)
        requires
            self.wf(),
            is_direction(coords(direction)),
            isize::MIN < start_coords.0 < isize::MAX,
            isize::MIN < start_coords.1 < isize::MAX,
        ensures
            match end {
                Some(e) => self@.line_end(coords(start_coords), coords(direction)) == Some(
                    coords(e),
                ) && self@.in_range(coords(e)),
                None => self@.line_end(coords(start_coords), coords(direction)).is_none(),
            },
    {
        let ghost s = coords(start_coords);
        let ghost d = coords(direction);
        let ghost mut steps: int = 0;
        let mut current = start_coords;
        let mut next = add_offset(start_coords, direction);
        assert(0 * d.0 == 0 && 0 * d.1 == 0);
        while self.index(next).is_empty()
            invariant
                self.wf(),
                is_direction(d),
                d == coords(direction),
                isize::MIN < current.0 < isize::MAX,
                isize::MIN < current.1 < isize::MAX,
                steps >= 0,
                coords(current) == Grid::step(s, d, steps),
                coords(next) == offset(coords(current), d),
                self@.empty_run(s, d) == steps + self@.empty_run(coords(current), d),
                steps > 0 ==> self@.in_range(coords(current)),
                steps == 0 ==> current == start_coords,
            decreases self@.empty_run(coords(current), d),
        {
            proof {
                self@.lemma_len();
                assert(self@.in_range(coords(next)));
                assert((steps + 1) * d.0 == steps * d.0 + d.0 && (steps + 1) * d.1 == steps * d.1
                    + d.1) by (nonlinear_arith);
                steps = steps + 1;
            }
            current = next;
            next = add_offset(current, direction);
        }
        if current.0 == start_coords.0 && current.1 == start_coords.1 {
            proof {
                if steps > 0 {
                    assert(steps * d.0 == 0 && steps * d.1 == 0);
                    assert(d.0 == 0 && d.1 == 0) by (nonlinear_arith)
                        requires
                            steps > 0,
                            steps * d.0 == 0,
                            steps * d.1 == 0,
                    ;
                }
            }
            None
        } else {
            Some(current)
        }
    }

    /// The farthest empty tile of the straight line in each direction that
    /// has one, in the order of the directions.
    pub fn iter_empty_straight_line_ends(&self, start_coords: (isize, isize)) -> (ends: Vec<
        (isize, isize),
    >)
        requires
            self.wf(),
            isize::MIN < start_coords.0 < isize::MAX,
            isize::MIN < start_coords.1 < isize::MAX,
        ensures
            coords_seq(ends@) == self@.line_ends(coords(start_coords)),
            forall|i: int| 0 <= i < ends.len() ==> self@.in_range(coords(#[trigger] ends[i])),
    {
        let mut ends: Vec<(isize, isize)> = Vec::new();
        let mut k: usize = 0;
        while k < 6
            invariant
                self.wf(),
                isize::MIN < start_coords.0 < isize::MAX,
                isize::MIN < start_coords.1 < isize::MAX,
                k <= 6,
                coords_seq(ends@) == self@.line_ends_upto(coords(start_coords), k as int),
                forall|i: int| 0 <= i < ends.len() ==> self@.in_range(coords(#[trigger] ends[i])),
            decreases 6 - k,
        {
            assert(coords(DIRECTION_OFFSETS[k as int]) == direction_offset(k as int));
            let ghost before = ends@;
            match self.empty_straight_line_end(start_coords, DIRECTION_OFFSETS[k]) {
                Some(end) => {
                    ends.push(end);
                    assert(coords_seq(ends@) =~= coords_seq(before).push(coords(end)));
                },
                None => {},
            }
            k += 1;
        }
        ends
    }

    /// Whether the board can be extended to contain the coordinates
    /// without becoming too large.
    pub fn can_extend_to_contain(&self, coords: (isize, isize)) -> (fits: bool)
        requires
            self.wf(),
        ensures
            fits == self@.extended(self::coords(coords)).wf(),
    {
        let ghost c = self::coords(coords);
        let ghost grown = self@.extended(c);
        proof {
            self@.lemma_len();
        }
        let num_rows = self.num_rows();
        let new_rows: usize = if coords.0 == -1 || (coords.0 >= 0 && coords.0 as usize
            == num_rows) {
            num_rows + 1
        } else {
            num_rows
        };
        let new_row_length: usize = if coords.1 == -1 || (coords.1 >= 0 && coords.1 as usize
            == self.row_length) {
            self.row_length + 1
        } else {
            self.row_length
        };
        proof {
            assert(new_rows * new_row_length >= 0) by (nonlinear_arith)
                requires
                    new_rows >= 0,
                    new_row_length >= 0,
            ;
            assert(new_rows * new_row_length <= (MAX_TILES + 1) * (MAX_TILES + 1))
                by (nonlinear_arith)
                requires
                    0 <= new_rows <= MAX_TILES + 1,
                    0 <= new_row_length <= MAX_TILES + 1,
            ;
            assert(grown.tiles.len() == new_rows * new_row_length);
            vstd::arithmetic::div_mod::lemma_mod_multiples_basic(
                new_rows as int,
                new_row_length as int,
            );
        }
        new_row_length <= MAX_TILES && new_rows as u64 * new_row_length as u64 <= MAX_TILES as u64
    }

    /// Extends the board by one row, one column or both, so that it
    /// contains the given coordinates, which lie one step outside of it.
    /// Returns by how much the coordinates of all tiles have shifted.
    pub fn extend_to_contain(&mut self, coords: (isize, isize)) -> (shift: (isize, isize))
        requires
            old(self).wf(),
            old(self)@.extended(self::coords(coords)).wf(),
        ensures
            final(self)@ == old(self)@.extended(self::coords(coords)),
            self::coords(shift) == Grid::extend_offset(self::coords(coords)),
            final(self).wf(),
            forall|p: (int, int)|
                old(self)@.index(p) == #[trigger] final(self)@.index(
                    offset(p, self::coords(shift)),
                ),
    {
        let ghost c = self::coords(coords);
        let ghost before = self@;
        proof {
            before.lemma_len();
            before.lemma_extended(c);
        }
        let num_rows = self.num_rows();
        let shift_r: isize = if coords.0 == -1 {
            1
        } else {
            0
        };
        let shift_q: isize = if coords.1 == -1 {
            1
        } else {
            0
        };
        let new_rows: usize = if coords.0 == -1 || (coords.0 >= 0 && coords.0 as usize
            == num_rows) {
            num_rows + 1
        } else {
            num_rows
        };
        let new_row_length: usize = if coords.1 == -1 || (coords.1 >= 0 && coords.1 as usize
            == self.row_length) {
            self.row_length + 1
        } else {
            self.row_length
        };
        assert(new_rows == before.extended_rows(c));
        assert(new_row_length == before.extended_row_length(c));
        assert(before.extended(c).tiles.len() == new_rows * new_row_length) by {
            assert(new_rows * new_row_length >= 0) by (nonlinear_arith)
                requires
                    new_rows >= 0,
                    new_row_length >= 0,
            ;
        }
        let total: usize = new_rows * new_row_length;
        let mut tiles: Vec<Tile> = Vec::new();
        let mut i: usize = 0;
        while i < total
            invariant
                self.wf(),
                self@ == before,
                total <= MAX_TILES,
                new_row_length > 0,
                i <= total,
                -1 <= shift_r <= 1,
                -1 <= shift_q <= 1,
                tiles@ == Seq::new(
                    i as nat,
                    |j: int|
                        before.index(
                            (
                                j / new_row_length as int - shift_r,
                                j % new_row_length as int - shift_q,
                            ),
                        ),
                ),
            decreases total - i,
        {
            proof {
                vstd::arithmetic::div_mod::lemma_div_is_ordered(0, i as int, new_row_length as int);
                vstd::arithmetic::div_mod::lemma_mod_bound(i as int, new_row_length as int);
                vstd::arithmetic::div_mod::lemma_fundamental_div_mod(
                    i as int,
                    new_row_length as int,
                );
                assert(i as int / new_row_length as int <= i) by (nonlinear_arith)
                    requires
                        i >= 0,
                        new_row_length > 0,
                ;
            }
            let r: isize = (i / new_row_length) as isize - shift_r;
            let q: isize = (i % new_row_length) as isize - shift_q;
            let ghost pushed = tiles@;
            tiles.push(self.index((r, q)));
            i += 1;
            assert(tiles@ =~= Seq::new(
                i as nat,
                |j: int|
                    before.index(
                        (j / new_row_length as int - shift_r, j % new_row_length as int - shift_q),
                    ),
            ));
        }
        self.tiles = tiles;
        self.row_length = new_row_length;
        assert(self@.tiles =~= before.extended(c).tiles);
        (shift_r, shift_q)
    }
}

} // verus!
