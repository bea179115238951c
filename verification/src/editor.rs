//! Setting up a board by hand: stacks are picked up, carried and put down.
//!
//! Every player has a home with a stack to start from. A stack in the hand
//! comes from a home or is a part of a stack on the board, which is then
//! its origin.

use crate::board::{
    add_offset, coords, coords_seq, direction_offset, offset, Board, Grid, Player, Tile,
    DIRECTION_OFFSETS, MAX_TILES,
};
use crate::moves::STARTING_STACK_SIZE;
use vstd::prelude::*;

verus! {

/// The stack in the hand, and the place of the stack that it was taken
/// from, if it was taken from the board.
#[derive(Debug, PartialEq, Eq, Clone, Copy)]
pub struct HoverStack {
    pub stack: Tile,
    pub origin: Option<(isize, isize)>,
}

/// The board that is set up, the stack in the hand and the homes.
pub struct Editor {
    pub board: Board,
    pub hover_stack: Option<HoverStack>,
    pub home_stacks: [Option<Tile>; 2],
}

/// The mathematical model of an editor.
pub struct EditorState {
    pub board: Grid,
    pub hover: Option<HoverStack>,
    pub homes: Seq<Option<Tile>>,
}

impl View for Editor {
    type V = EditorState;

    open spec fn view(&self) -> EditorState {
        EditorState { board: self.board@, hover: self.hover_stack, homes: self.home_stacks@ }
    }
}

impl EditorState {
    /// The board has a tile, the homes hold stacks, and so does the hand.
    /// The origin of the stack in the hand is a stack of the same player
    /// on the board, and the two together are not too large for one stack.
    pub open spec fn wf(self) -> bool {
        &&& self.board.wf()
        &&& self.board.has_board_tile()
        &&& self.homes.len() == 2
        &&& forall|p: int|
            0 <= p < 2 ==> match #[trigger] self.homes[p] {
                Some(home) => home.is_stack(),
                None => true,
            }
        &&& match self.hover {
            Some(held) => held.stack.is_stack() && match held.origin {
                Some(origin) => {
                    &&& self.board.in_range(coords(origin))
                    &&& self.board.index(coords(origin)).is_stack_of(held.stack.player())
                    &&& held.stack.stack_size() + self.board.index(coords(origin)).stack_size()
                        <= Tile::MAX_STACK_SIZE
                },
                None => true,
            },
            None => true,
        }
    }

    /// The board with the tile at the coordinates replaced.
    pub open spec fn put(self, c: (int, int), tile: Tile) -> Grid {
        self.board.with_tile(self.board.to_index(c), tile)
    }

    /// The state after the user has let go over the home of `player`: an
    /// empty hand takes the stack of the home, and a stack from a home goes
    /// into an empty home.
    pub open spec fn released_on_home(self, player: Player) -> EditorState {
        match self.homes[player.0 as int] {
            Some(home) => match self.hover {
                None => EditorState {
                    board: self.board,
                    hover: Some(HoverStack { stack: home, origin: None }),
                    homes: self.homes.update(player.0 as int, None),
                },
                Some(_) => self,
            },
            None => match self.hover {
                Some(held) => if held.origin.is_none() {
                    EditorState {
                        board: self.board,
                        hover: None,
                        homes: self.homes.update(player.0 as int, Some(held.stack)),
                    }
                } else {
                    self
                },
                None => self,
            },
        }
    }

    /// The board can get a new tile at `c`: it holds no stack yet, `c` is
    /// next to a board tile, and the board with `c` is not too large.
    pub open spec fn can_extend(self, c: (int, int)) -> bool {
        &&& !self.board.has_stack()
        &&& self.board.has_board_neighbor(c)
        &&& self.board.extended(c).wf()
    }

    /// The state after the user has let go over the place `c`.
    ///
    /// Where the board has no tile, it gets an empty one, as long as no
    /// stack stands on the board. On an empty tile the stack in the hand is
    /// put down, if it comes from a home and the tile is on the outer edge,
    /// or if the tile is the end of a straight line from its origin. From a
    /// stack with more than one sheep an empty hand takes half, rounded
    /// down; the stack in the hand goes back onto its origin.
    pub open spec fn released_on_tile(self, c: (int, int)) -> EditorState {
        let tile = self.board.index(c);
        if tile.is_stack() {
            match self.hover {
                None => if tile.stack_size() > 1 {
                    let half = tile.stack_size() / 2;
                    EditorState {
                        board: self.put(
                            c,
                            Tile::spec_stack(tile.player(), (tile.stack_size() - half) as u8),
                        ),
                        hover: Some(
                            HoverStack {
                                stack: Tile::spec_stack(tile.player(), half as u8),
                                origin: Some((c.0 as isize, c.1 as isize)),
                            },
                        ),
                        homes: self.homes,
                    }
                } else {
                    self
                },
                Some(held) => match held.origin {
                    Some(origin) => if coords(origin) == c {
                        EditorState {
                            board: self.put(
                                c,
                                Tile::spec_stack(
                                    tile.player(),
                                    (tile.stack_size() + held.stack.stack_size()) as u8,
                                ),
                            ),
                            hover: None,
                            homes: self.homes,
                        }
                    } else {
                        self
                    },
                    None => self,
                },
            }
        } else if tile.is_empty() {
            match self.hover {
                Some(held) => if match held.origin {
                    Some(origin) => self.board.line_ends(coords(origin)).contains(c),
                    None => self.board.outer_edge().contains(c),
                } {
                    EditorState { board: self.put(c, held.stack), hover: None, homes: self.homes }
                } else {
                    self
                },
                None => self,
            }
        } else if self.can_extend(c) {
            let grown = self.board.extended(c);
            EditorState {
                board: grown.with_tile(
                    grown.to_index(offset(c, Grid::extend_offset(c))),
                    Tile::spec_empty(),
                ),
                hover: self.hover,
                homes: self.homes,
            }
        } else {
            self
        }
    }

    /// By how much the coordinates of the tiles shift when the user lets
    /// go over the place `c`.
    pub open spec fn shift_on_tile(self, c: (int, int)) -> (int, int) {
        if !self.board.index(c).is_board_tile() && self.can_extend(c) {
            Grid::extend_offset(c)
        } else {
            (0, 0)
        }
    }

    /// The state after the user has turned the wheel: one sheep goes from
    /// the origin into the hand or back, as long as a sheep is left in
    /// both; a stack from a home grows or shrinks by one sheep within the
    /// sizes of a stack.
    pub open spec fn scrolled(self, up: bool) -> EditorState {
        match self.hover {
            None => self,
            Some(held) => {
                let size = held.stack.stack_size() as int;
                let new_size = if up {
                    size + 1
                } else {
                    size - 1
                };
                match held.origin {
                    Some(origin) => {
                        let tile = self.board.index(coords(origin));
                        let new_origin_size = if up {
                            tile.stack_size() - 1
                        } else {
                            tile.stack_size() + 1
                        };
                        if new_size >= 1 && new_origin_size >= 1 {
                            EditorState {
                                board: self.put(
                                    coords(origin),
                                    Tile::spec_stack(tile.player(), new_origin_size as u8),
                                ),
                                hover: Some(
                                    HoverStack {
                                        stack: Tile::spec_stack(
                                            held.stack.player(),
                                            new_size as u8,
                                        ),
                                        origin: held.origin,
                                    },
                                ),
                                homes: self.homes,
                            }
                        } else {
                            self
                        }
                    },
                    None => if 1 <= new_size <= Tile::MAX_STACK_SIZE {
                        EditorState {
                            board: self.board,
                            hover: Some(
                                HoverStack {
                                    stack: Tile::spec_stack(held.stack.player(), new_size as u8),
                                    origin: None,
                                },
                            ),
                            homes: self.homes,
                        }
                    } else {
                        self
                    },
                }
            },
        }
    }
}

impl Grid {
    /// A stack stands on the board.
    pub open spec fn has_stack(self) -> bool {
        exists|i: int| 0 <= i < self.tiles.len() && (#[trigger] self.tiles[i]).is_stack()
    }

    /// One of the neighbors of `c` is a board tile.
    pub open spec fn has_board_neighbor(self, c: (int, int)) -> bool {
        exists|k: int| 0 <= k < 6 && (#[trigger] self.index(Grid::neighbor(c, k))).is_board_tile()
    }
}


/// Whether the coordinates are among the given ones.
fn contains_coords(places: &Vec<(isize, isize)>, c: (isize, isize)) -> (found: bool)
    ensures
        found == coords_seq(places@).contains(coords(c)),
{
    let mut i: usize = 0;
    while i < places.len()
        invariant
            i <= places.len(),
            forall|j: int| 0 <= j < i ==> coords_seq(places@)[j] != coords(c),
        decreases places.len() - i,
    {
        if places[i].0 == c.0 && places[i].1 == c.1 {
            assert(coords_seq(places@)[i as int] == coords(c));
            return true;
        }
        i += 1;
    }
    false
}

impl Board {
    /// Whether a stack stands on the board.
    pub fn has_stack(&self) -> (found: bool)
        ensures
            found == self@.has_stack(),
    {
        let mut i: usize = 0;
        while i < self.tiles.len()
            invariant
                i <= self.tiles.len(),
                forall|j: int| 0 <= j < i ==> !(#[trigger] self@.tiles[j]).is_stack(),
            decreases self.tiles.len() - i,
        {
            if self.tiles[i].is_stack() {
                assert(self@.tiles[i as int].is_stack());
                return true;
            }
            i += 1;
        }
        false
    }

    /// Whether one of the neighbors of the coordinates is a board tile.
    pub fn has_board_neighbor(&self, c: (isize, isize)) -> (found: bool)
        requires
            self.wf(),
        ensures
            found == self@.has_board_neighbor(coords(c)),
    {
        proof {
            self@.lemma_len();
        }
        if !(-1 <= c.0 && c.0 <= MAX_TILES as isize && -1 <= c.1 && c.1 <= MAX_TILES as isize) {
            assert forall|k: int| 0 <= k < 6 implies !(#[trigger] self@.index(
                Grid::neighbor(coords(c), k),
            )).is_board_tile() by {
                assert(!self@.in_range(Grid::neighbor(coords(c), k)));
            }
            return false;
        }
        let mut k: usize = 0;
        while k < 6
            invariant
                self.wf(),
                -1 <= c.0 <= MAX_TILES,
                -1 <= c.1 <= MAX_TILES,
                k <= 6,
                forall|m: int|
                    0 <= m < k ==> !(#[trigger] self@.index(
                        Grid::neighbor(coords(c), m),
                    )).is_board_tile(),
            decreases 6 - k,
        {
            assert(coords(DIRECTION_OFFSETS[k as int]) == direction_offset(k as int));
            if self.index(add_offset(c, DIRECTION_OFFSETS[k])).is_board_tile() {
                assert(self@.index(Grid::neighbor(coords(c), k as int)).is_board_tile());
                return true;
            }
            k += 1;
        }
        false
    }
}

impl Editor {
    pub open spec fn wf(&self) -> bool {
        self@.wf()
    }

    /// Whether the editor is in a state that its functions can take.
    pub fn is_well_formed(&self) -> (well_formed: bool)
        ensures
            well_formed == self.wf(),
    {
        if !self.board.is_well_formed() || !self.board.has_board_tile() {
            return false;
        }
        let mut p: usize = 0;
        while p < 2
            invariant
                p <= 2,
                forall|i: int|
                    0 <= i < p ==> match #[trigger] self@.homes[i] {
                        Some(home) => home.is_stack(),
                        None => true,
                    },
            decreases 2 - p,
        {
            if let Some(home) = self.home_stacks[p] {
                if !home.is_stack() {
                    assert(self@.homes[p as int] == Some(home));
                    return false;
                }
            }
            p += 1;
        }
        match self.hover_stack {
            Some(held) => {
                if !held.stack.is_stack() {
                    return false;
                }
                match held.origin {
                    Some(origin) => {
                        if !self.board.coords_in_range(origin) {
                            return false;
                        }
                        let tile = self.board.index(origin);
                        tile.is_stack() && tile.player() == held.stack.player()
                            && held.stack.stack_size() + tile.stack_size()
                            <= Tile::MAX_STACK_SIZE
                    },
                    None => true,
                }
            },
            None => true,
        }
    }

    /// An editor with a board of one empty tile and a starting stack in
    /// every home.
    pub fn new() -> (editor: Editor)
        ensures
            editor.wf(),
            editor@.board == (Grid { tiles: seq![Tile::spec_empty()], row_length: 1 }),
            editor@.hover.is_none(),
            editor@.homes == seq![
                Some(Tile::spec_stack(Player(0), STARTING_STACK_SIZE)),
                Some(Tile::spec_stack(Player(1), STARTING_STACK_SIZE)),
            ],
    {
        let mut tiles: Vec<Tile> = Vec::new();
        tiles.push(Tile::empty());
        let board = Board { tiles, row_length: 1 };
        let editor = Editor {
            board,
            hover_stack: None,
            home_stacks: [
                Some(Tile::stack(Player(0), STARTING_STACK_SIZE)),
                Some(Tile::stack(Player(1), STARTING_STACK_SIZE)),
            ],
        };
        proof {
            assert(editor@.board.tiles =~= seq![Tile::spec_empty()]);
            editor@.board.lemma_has_board_tile(0);
            assert(editor@.homes =~= seq![
                Some(Tile::spec_stack(Player(0), STARTING_STACK_SIZE)),
                Some(Tile::spec_stack(Player(1), STARTING_STACK_SIZE)),
            ]);
        }
        editor
    }

    /// The user has let go over the home of the player.
    pub fn release_on_home(&mut self, player: Player)
        requires
            old(self).wf(),
            player.valid(),
        ensures
            final(self)@ == old(self)@.released_on_home(player),
            final(self).wf(),
    {
        let id = player.id();
        match self.home_stacks[id] {
            Some(home) => {
                if self.hover_stack.is_none() {
                    self.hover_stack = Some(HoverStack { stack: home, origin: None });
                    self.home_stacks.set(id, None);
                }
            },
            None => {
                if let Some(held) = self.hover_stack {
                    if held.origin.is_none() {
                        self.home_stacks.set(id, Some(held.stack));
                        self.hover_stack = None;
                    }
                }
            },
        }
    }

    /// The user has let go over the place with the given coordinates.
    /// Returns by how much the coordinates of all tiles have shifted.
    pub fn release_on_tile(&mut self, c: (isize, isize)) -> (shift: (isize, isize))
        requires
            old(self).wf(),
        ensures
            final(self)@ == old(self)@.released_on_tile(coords(c)),
            coords(shift) == old(self)@.shift_on_tile(coords(c)),
            final(self).wf(),
    {
        let ghost before = self@;
        let tile = self.board.index(c);
        if tile.is_stack() {
            proof {
                before.board.lemma_to_index(coords(c));
            }
            match self.hover_stack {
                None => {
                    let size = tile.stack_size();
                    if size > 1 {
                        let half = size / 2;
                        self.hover_stack = Some(
                            HoverStack { stack: Tile::stack(tile.player(), half), origin: Some(c) },
                        );
                        self.board.set(c, Tile::stack(tile.player(), size - half));
                        proof {
                            self@.board.lemma_has_board_tile(before.board.to_index(coords(c)));
                        }
                    }
                },
                Some(held) => {
                    if let Some(origin) = held.origin {
                        if origin.0 == c.0 && origin.1 == c.1 {
                            self.board.set(
                                c,
                                Tile::stack(tile.player(), tile.stack_size() + held.stack.stack_size()),
                            );
                            self.hover_stack = None;
                            proof {
                                self@.board.lemma_has_board_tile(
                                    before.board.to_index(coords(c)),
                                );
                            }
                        }
                    }
                },
            }
            (0, 0)
        } else if tile.is_empty() {
            proof {
                before.board.lemma_to_index(coords(c));
            }
            if let Some(held) = self.hover_stack {
                let reachable = match held.origin {
                    Some(origin) => {
                        proof {
                            before.board.lemma_len();
                        }
                        contains_coords(&self.board.iter_empty_straight_line_ends(origin), c)
                    },
                    None => contains_coords(&self.board.iter_empty_outer_edge(), c),
                };
                if reachable {
                    self.board.set(c, held.stack);
                    self.hover_stack = None;
                    proof {
                        self@.board.lemma_has_board_tile(before.board.to_index(coords(c)));
                    }
                }
            }
            (0, 0)
        } else if !self.board.has_stack() && self.board.has_board_neighbor(c)
            && self.board.can_extend_to_contain(c) {
            proof {
                before.board.lemma_len();
                let k = choose|k: int|
                    0 <= k < 6 && (#[trigger] before.board.index(
                        Grid::neighbor(coords(c), k),
                    )).is_board_tile();
                assert(before.board.in_range(Grid::neighbor(coords(c), k)));
                let first = before.board.first_board_tile();
                before.board.lemma_first_board_tile(0);
                before.board.lemma_to_coords(first);
                before.board.lemma_extended(coords(c));
            }
            let shift = self.board.extend_to_contain(c);
            let place = add_offset(c, shift);
            self.board.set(place, Tile::empty());
            proof {
                let grown = before.board.extended(coords(c));
                grown.lemma_to_index(coords(place));
                self@.board.lemma_has_board_tile(grown.to_index(coords(place)));
                if let Some(held) = before.hover {
                    if let Some(origin) = held.origin {
                        before.board.lemma_to_index(coords(origin));
                        assert(before.board.tiles[before.board.to_index(coords(origin))].is_stack());
                    }
                }
            }
            shift
        } else {
            (0, 0)
        }
    }

    /// The user has turned the wheel, up or down.
    pub fn scroll(&mut self, up: bool)
        requires
            old(self).wf(),
        ensures
            final(self)@ == old(self)@.scrolled(up),
            final(self).wf(),
    {
        let ghost before = self@;
        if let Some(held) = self.hover_stack {
            let size = held.stack.stack_size();
            match held.origin {
                Some(origin) => {
                    proof {
                        before.board.lemma_to_index(coords(origin));
                    }
                    let tile = self.board.index(origin);
                    let origin_size = tile.stack_size();
                    if (up && origin_size > 1) || (!up && size > 1) {
                        let new_size = if up {
                            size + 1
                        } else {
                            size - 1
                        };
                        let new_origin_size = if up {
                            origin_size - 1
                        } else {
                            origin_size + 1
                        };
                        self.hover_stack = Some(
                            HoverStack {
                                stack: Tile::stack(held.stack.player(), new_size),
                                origin: held.origin,
                            },
                        );
                        self.board.set(origin, Tile::stack(tile.player(), new_origin_size));
                        proof {
                            self@.board.lemma_has_board_tile(
                                before.board.to_index(coords(origin)),
                            );
                        }
                    }
                },
                None => {
                    if (up && size < Tile::MAX_STACK_SIZE) || (!up && size > 1) {
                        let new_size = if up {
                            size + 1
                        } else {
                            size - 1
                        };
                        self.hover_stack = Some(
                            HoverStack {
                                stack: Tile::stack(held.stack.player(), new_size),
                                origin: None,
                            },
                        );
                    }
                },
            }
        }
    }
}

} // verus!
