//! The move generator: all boards that a player can reach in one turn.

use crate::board::{coords, coords_seq, direction_offset, offset, Board, Grid, Player, Tile};
use vstd::prelude::*;

verus! {

/// The size of the stack that a player places with the first move.
pub const STARTING_STACK_SIZE: u8 = 16;

/// The models of a sequence of boards.
pub open spec fn grids(boards: Seq<Board>) -> Seq<Grid> {
    boards.map_values(|board: Board| board@)
}

impl Grid {
    pub open spec fn has_stack_of(self, player: Player) -> bool {
        exists|i: int| 0 <= i < self.tiles.len() && (#[trigger] self.tiles[i]).is_stack_of(player)
    }

    /// The stack at `i` belongs to `player` and can be split.
    pub open spec fn is_splittable(self, i: int, player: Player) -> bool {
        self.tiles[i].is_stack_of(player) && self.tiles[i].stack_size() > 1
    }

    /// The grid with the tile at index `i` replaced.
    pub open spec fn with_tile(self, i: int, tile: Tile) -> Grid {
        Grid { tiles: self.tiles.update(i, tile), row_length: self.row_length }
    }

    /// The grid after the stack at `origin` has sent `split` of its sheep to `target`.
    pub open spec fn split_move(self, origin: int, target: int, split: int) -> Grid {
        let stack = self.tiles[origin];
        self.with_tile(target, Tile::spec_stack(stack.player(), split as u8)).with_tile(
            origin,
            Tile::spec_stack(stack.player(), (stack.stack_size() - split) as u8),
        )
    }

    /// The grid after `player` has placed the first stack at `target`.
    pub open spec fn placement(self, target: int, player: Player) -> Grid {
        self.with_tile(target, Tile::spec_stack(player, STARTING_STACK_SIZE))
    }

    /// All ways to split the stack at `origin` and move a part to `target`,
    /// the smallest moved part first.
    pub open spec fn splits_to(self, origin: int, target: (int, int)) -> Seq<Grid> {
        Seq::new(
            (self.tiles[origin].stack_size() - 1) as nat,
            |k: int| self.split_move(origin, self.to_index(target), k + 1),
        )
    }

    /// The moves of the stack at `origin` to each of `ends` in turn.
    pub open spec fn moves_to_ends(self, origin: int, ends: Seq<(int, int)>) -> Seq<Grid>
        decreases ends.len(),
    {
        if ends.len() == 0 {
            Seq::empty()
        } else {
            self.moves_to_ends(origin, ends.drop_last()) + self.splits_to(origin, ends.last())
        }
    }

    /// The moves of the stack at `origin`: to the end of the straight line
    /// in each direction, in the order of the directions.
    pub open spec fn moves_of_stack(self, origin: int) -> Seq<Grid> {
        self.moves_to_ends(origin, self.line_ends(self.to_coords(origin)))
    }

    /// The regular moves of the stacks among the first `n` tiles.
    pub open spec fn regular_moves_upto(self, player: Player, n: int) -> Seq<Grid>
        decreases n,
    {
        if n <= 0 {
            Seq::empty()
        } else {
            self.regular_moves_upto(player, n - 1) + if self.is_splittable(n - 1, player) {
                self.moves_of_stack(n - 1)
            } else {
                Seq::empty()
            }
        }
    }

    /// The moves where `player` splits a stack and moves a part of it in a
    /// straight line over empty tiles as far as it goes.
    pub open spec fn regular_moves(self, player: Player) -> Seq<Grid> {
        self.regular_moves_upto(player, self.tiles.len() as int)
    }

    /// The moves where `player` places the first stack on the outer edge.
    pub open spec fn starting_moves(self, player: Player) -> Seq<Grid> {
        self.outer_edge().map_values(|c: (int, int)| self.placement(self.to_index(c), player))
    }

    /// All moves of `player`: starting moves as long as the player has no
    /// stack on the board, regular moves from then on.
    pub open spec fn moves(self, player: Player) -> Seq<Grid> {
        if self.has_stack_of(player) {
            self.regular_moves(player)
        } else {
            self.starting_moves(player)
        }
    }
}

impl Grid {
    /// A grid that holds a board tile has a first one.
    pub proof fn lemma_has_board_tile(self, i: int)
        requires
            0 <= i < self.tiles.len(),
            self.tiles[i].is_board_tile(),
        ensures
            self.has_board_tile(),
    {
        self.lemma_first_board_tile(0);
    }
}

impl Board {
    /// A copy of the board.
    pub fn duplicate(&self) -> (copy: Board)
        ensures
            copy@ == self@,
    {
        let mut tiles: Vec<Tile> = Vec::with_capacity(self.tiles.len());
        let mut i: usize = 0;
        while i < self.tiles.len()
            invariant
                i <= self.tiles.len(),
                tiles@ == self.tiles@.take(i as int),
            decreases self.tiles.len() - i,
        {
            tiles.push(self.tiles[i]);
            assert(tiles@ =~= self.tiles@.take(i + 1));
            i += 1;
        }
        assert(tiles@ =~= self.tiles@);
        Board { tiles, row_length: self.row_length }
    }

    /// Whether the player has a stack on the board.
    pub fn has_stack_of(&self, player: Player) -> (found: bool)
        ensures
            found == self@.has_stack_of(player),
    {
        let mut i: usize = 0;
        while i < self.tiles.len()
            invariant
                i <= self.tiles.len(),
                forall|j: int| 0 <= j < i ==> !(#[trigger] self.tiles[j]).is_stack_of(player),
            decreases self.tiles.len() - i,
        {
            let tile = self.tiles[i];
            if tile.is_stack() && tile.player() == player {
                assert(self@.tiles[i as int].is_stack_of(player));
                return true;
            }
            i += 1;
        }
        false
    }

    /// All possible next moves for a player.
    pub fn possible_moves(&self, player: Player) -> (moves: Vec<Board>)
        requires
            self.wf(),
            self@.has_board_tile(),
            player.valid(),
        ensures
            grids(moves@) == self@.moves(player),
            forall|i: int|
                0 <= i < moves.len() ==> (#[trigger] moves[i]).wf() && moves[i]@.has_board_tile(),
    {
        if self.has_stack_of(player) {
            self.possible_regular_moves(player)
        } else {
            self.possible_starting_moves(player)
        }
    }

    /// The regular moves, where the player splits a stack and moves one part.
    pub fn possible_regular_moves(&self, player: Player) -> (moves: Vec<Board>)
        requires
            self.wf(),
            player.valid(),
        ensures
            grids(moves@) == self@.regular_moves(player),
            forall|i: int|
                0 <= i < moves.len() ==> (#[trigger] moves[i]).wf() && moves[i]@.has_board_tile(),
    {
        let mut moves: Vec<Board> = Vec::new();
        let mut i: usize = 0;
        assert(grids(moves@) =~= Seq::<Grid>::empty());
        while i < self.tiles.len()
            invariant
                self.wf(),
                player.valid(),
                i <= self.tiles.len(),
                grids(moves@) == self@.regular_moves_upto(player, i as int),
                forall|j: int|
                    0 <= j < moves.len() ==> (#[trigger] moves[j]).wf() && moves[j]@.has_board_tile(),
            decreases self.tiles.len() - i,
        {
            let stack = self.tiles[i];
            if stack.is_stack() && stack.player() == player && stack.stack_size() > 1 {
                proof {
                    self@.lemma_to_coords(i as int);
                    self@.lemma_len();
                }
                let origin_coords = self.index_to_coords(i);
                let ends = self.iter_empty_straight_line_ends(origin_coords);
                let ghost done = self@.regular_moves_upto(player, i as int);
                let ghost all_ends = coords_seq(ends@);
                let mut e: usize = 0;
                assert(all_ends.take(0) =~= Seq::<(int, int)>::empty());
                assert(grids(moves@) =~= done + self@.moves_to_ends(i as int, all_ends.take(0)));
                while e < ends.len()
                    invariant
                        self.wf(),
                        player.valid(),
                        i < self.tiles.len(),
                        stack == self.tiles[i as int],
                        stack.is_stack_of(player),
                        stack.spec_stack_size() > 1,
                        coords(origin_coords) == self@.to_coords(i as int),
                        self@.in_range(coords(origin_coords)),
                        self@.to_index(coords(origin_coords)) == i,
                        all_ends == coords_seq(ends@),
                        forall|j: int|
                            0 <= j < ends.len() ==> self@.in_range(coords(#[trigger] ends[j])),
                        e <= ends.len(),
                        grids(moves@) == done + self@.moves_to_ends(
                            i as int,
                            all_ends.take(e as int),
                        ),
                        forall|j: int|
                    0 <= j < moves.len() ==> (#[trigger] moves[j]).wf() && moves[j]@.has_board_tile(),
                    decreases ends.len() - e,
                {
                    let target_coords = ends[e];
                    let ghost target = coords(target_coords);
                    let ghost before = done + self@.moves_to_ends(
                        i as int,
                        all_ends.take(e as int),
                    );
                    let size = stack.stack_size();
                    let mut split: u8 = 1;
                    assert(grids(moves@) =~= before + Seq::new(
                        0,
                        |k: int| self@.split_move(i as int, self@.to_index(target), k + 1),
                    ));
                    /* Go through all the ways to split the stack. */
                    while split < size
                        invariant
                            self.wf(),
                            player.valid(),
                            i < self.tiles.len(),
                            stack == self.tiles[i as int],
                            stack.is_stack_of(player),
                            size == stack.spec_stack_size(),
                            1 <= split <= size <= 32,
                            self@.in_range(coords(origin_coords)),
                            self@.to_index(coords(origin_coords)) == i,
                            self@.in_range(target),
                            target == coords(target_coords),
                            grids(moves@) == before + Seq::new(
                                (split - 1) as nat,
                                |k: int| self@.split_move(i as int, self@.to_index(target), k + 1),
                            ),
                            forall|j: int|
                    0 <= j < moves.len() ==> (#[trigger] moves[j]).wf() && moves[j]@.has_board_tile(),
                        decreases size - split,
                    {
                        let mut next_board = self.duplicate();
                        next_board.set(target_coords, Tile::stack(player, split));
                        assert(next_board@.tiles.len() == self@.tiles.len());
                        next_board.set(origin_coords, Tile::stack(player, size - split));
                        assert(next_board@ == self@.split_move(
                            i as int,
                            self@.to_index(target),
                            split as int,
                        ));
                        proof {
                            next_board@.lemma_has_board_tile(i as int);
                        }
                        let ghost pushed = grids(moves@);
                        moves.push(next_board);
                        assert(grids(moves@) =~= pushed.push(next_board@));
                        split += 1;
                        assert(grids(moves@) =~= before + Seq::new(
                            (split - 1) as nat,
                            |k: int| self@.split_move(i as int, self@.to_index(target), k + 1),
                        ));
                    }
                    e += 1;
                    proof {
                        let taken = all_ends.take(e as int);
                        assert(taken.drop_last() =~= all_ends.take(e - 1));
                        assert(taken.last() == target);
                        assert(grids(moves@) =~= done + self@.moves_to_ends(i as int, taken));
                    }
                }
                assert(all_ends.take(ends.len() as int) =~= all_ends);
            }
            i += 1;
        }
        moves
    }

    /// The starting moves, where the player places a stack on the outer edge.
    pub fn possible_starting_moves(&self, player: Player) -> (moves: Vec<Board>)
        requires
            self.wf(),
            self@.has_board_tile(),
            player.valid(),
        ensures
            grids(moves@) == self@.starting_moves(player),
            forall|i: int|
                0 <= i < moves.len() ==> (#[trigger] moves[i]).wf() && moves[i]@.has_board_tile(),
    {
        let edge = self.iter_empty_outer_edge();
        let mut moves: Vec<Board> = Vec::new();
        let mut i: usize = 0;
        while i < edge.len()
            invariant
                self.wf(),
                player.valid(),
                i <= edge.len(),
                coords_seq(edge@) == self@.outer_edge(),
                forall|j: int|
                    0 <= j < edge.len() ==> self@.index(coords(#[trigger] edge[j])).is_empty(),
                moves.len() == i,
                forall|j: int|
                    0 <= j < i ==> (#[trigger] moves[j])@ == self@.placement(
                        self@.to_index(coords(edge[j])),
                        player,
                    ),
                forall|j: int|
                    0 <= j < moves.len() ==> (#[trigger] moves[j]).wf() && moves[j]@.has_board_tile(),
            decreases edge.len() - i,
        {
            let mut next_board = self.duplicate();
            assert(self@.in_range(coords(edge[i as int])));
            next_board.set(edge[i], Tile::stack(player, STARTING_STACK_SIZE));
            proof {
                self@.lemma_to_index(coords(edge[i as int]));
                next_board@.lemma_has_board_tile(self@.to_index(coords(edge[i as int])));
            }
            moves.push(next_board);
            i += 1;
        }
        assert(grids(moves@) =~= self@.starting_moves(player));
        moves
    }
}


/// The sheep that a tile holds for `player`.
pub open spec fn sheep_on(tile: Tile, player: Player) -> int {
    if tile.is_stack_of(player) {
        tile.stack_size() as int
    } else {
        0
    }
}

impl Grid {
    /// The sheep of `player` on the first `n` tiles.
    pub open spec fn sheep_upto(self, player: Player, n: int) -> int
        decreases n,
    {
        if n <= 0 {
            0
        } else {
            self.sheep_upto(player, n - 1) + sheep_on(self.tiles[n - 1], player)
        }
    }

    /// The sheep of `player` on the board.
    pub open spec fn sheep(self, player: Player) -> int {
        self.sheep_upto(player, self.tiles.len() as int)
    }

    /// `after` differs from `self` in the tiles at `origin` and `target`
    /// alone: the stack of `player` at `origin` has sent `split` of its
    /// sheep over empty tiles, as far as a straight line goes, to `target`.
    pub open spec fn is_split(
        self,
        after: Grid,
        player: Player,
        origin: int,
        target: int,
        split: int,
    ) -> bool {
        &&& 0 <= origin < self.tiles.len()
        &&& 0 <= target < self.tiles.len()
        &&& origin != target
        &&& self.is_splittable(origin, player)
        &&& self.tiles[target].is_empty()
        &&& exists|k: int|
            0 <= k < 6 && self.line_end(self.to_coords(origin), #[trigger] direction_offset(k))
                == Some(self.to_coords(target))
        &&& 1 <= split < self.tiles[origin].stack_size()
        &&& after.row_length == self.row_length
        &&& after.tiles.len() == self.tiles.len()
        &&& after.tiles[origin] == Tile::spec_stack(
            player,
            (self.tiles[origin].stack_size() - split) as u8,
        )
        &&& after.tiles[target] == Tile::spec_stack(player, split as u8)
        &&& forall|i: int|
            0 <= i < self.tiles.len() && i != origin && i != target ==> after.tiles[i]
                == self.tiles[i]
    }

    /// `after` differs from `self` in the tile at `target` alone: an empty
    /// tile of the outer edge, where `player` has placed the first stack.
    pub open spec fn is_placement(self, after: Grid, player: Player, target: int) -> bool {
        &&& 0 <= target < self.tiles.len()
        &&& self.tiles[target].is_empty()
        &&& self.outer_edge().contains(self.to_coords(target))
        &&& after.row_length == self.row_length
        &&& after.tiles.len() == self.tiles.len()
        &&& after.tiles[target] == Tile::spec_stack(player, STARTING_STACK_SIZE)
        &&& forall|i: int| 0 <= i < self.tiles.len() && i != target ==> after.tiles[i] == self.tiles[i]
    }

    /// `after` comes from `self` by one move of `player`.
    pub open spec fn is_legal_move(self, after: Grid, player: Player) -> bool {
        if self.has_stack_of(player) {
            exists|origin: int, target: int, split: int|
                self.is_split(after, player, origin, target, split)
        } else {
            exists|target: int| self.is_placement(after, player, target)
        }
    }

    /// The first tiles of a straight line are empty.
    pub proof fn lemma_empty_run(self, c: (int, int), d: (int, int), i: int)
        requires
            1 <= i <= self.empty_run(c, d),
        ensures
            self.index(Grid::step(c, d, i)).is_empty(),
            d != (0int, 0int),
        decreases i,
    {
        assert(1 * d.0 == d.0 && 1 * d.1 == d.1);
        if i > 1 {
            self.lemma_empty_run(offset(c, d), d, i - 1);
            assert((i - 1) * d.0 + d.0 == i * d.0 && (i - 1) * d.1 + d.1 == i * d.1)
                by (nonlinear_arith);
        }
    }

    /// The tile behind the last tile of a straight line is not empty.
    pub proof fn lemma_empty_run_stops(self, c: (int, int), d: (int, int))
        ensures
            !self.index(Grid::step(c, d, self.empty_run(c, d) as int + 1)).is_empty() || d == (
                0int,
                0int,
            ),
        decreases self.empty_run(c, d),
    {
        let run = self.empty_run(c, d) as int;
        assert(1 * d.0 == d.0 && 1 * d.1 == d.1);
        if d != (0int, 0int) && self.index(offset(c, d)).is_empty() {
            self.lemma_empty_run_stops(offset(c, d), d);
            assert((run + 1) * d.0 == run * d.0 + d.0 && (run + 1) * d.1 == run * d.1 + d.1)
                by (nonlinear_arith);
        }
    }

    /// The end of a straight line is an empty tile of the board.
    pub proof fn lemma_line_end(self, c: (int, int), d: (int, int))
        requires
            self.line_end(c, d).is_some(),
        ensures
            self.index(self.line_end(c, d).unwrap()).is_empty(),
            self.in_range(self.line_end(c, d).unwrap()),
    {
        self.lemma_empty_run(c, d, self.empty_run(c, d) as int);
    }

    /// Every line end comes from one of the directions.
    pub proof fn lemma_line_ends(self, c: (int, int), n: int, e: int) -> (k: int)
        requires
            0 <= n <= 6,
            0 <= e < self.line_ends_upto(c, n).len(),
        ensures
            0 <= k < n,
            self.line_end(c, direction_offset(k)) == Some(self.line_ends_upto(c, n)[e]),
        decreases n,
    {
        let before = self.line_ends_upto(c, n - 1);
        if e < before.len() {
            self.lemma_line_ends(c, n - 1, e)
        } else {
            n - 1
        }
    }

    /// Every move to one of `ends` is a split towards one of them.
    pub proof fn lemma_moves_to_ends(self, origin: int, ends: Seq<(int, int)>, i: int) -> (found: (
        int,
        int,
    ))
        requires
            0 <= i < self.moves_to_ends(origin, ends).len(),
        ensures
            0 <= found.0 < ends.len(),
            1 <= found.1 < self.tiles[origin].stack_size(),
            self.moves_to_ends(origin, ends)[i] == self.split_move(
                origin,
                self.to_index(ends[found.0]),
                found.1,
            ),
        decreases ends.len(),
    {
        let before = self.moves_to_ends(origin, ends.drop_last());
        if i < before.len() {
            self.lemma_moves_to_ends(origin, ends.drop_last(), i)
        } else {
            (ends.len() - 1, i - before.len() + 1)
        }
    }

    /// Every regular move is a split of one of the player's stacks.
    pub proof fn lemma_regular_moves(self, player: Player, n: int, i: int) -> (found: (
        int,
        int,
        int,
    ))
        requires
            0 <= n <= self.tiles.len(),
            0 <= i < self.regular_moves_upto(player, n).len(),
        ensures
            0 <= found.0 < n,
            self.is_splittable(found.0, player),
            0 <= found.1 < self.line_ends(self.to_coords(found.0)).len(),
            1 <= found.2 < self.tiles[found.0].stack_size(),
            self.regular_moves_upto(player, n)[i] == self.split_move(
                found.0,
                self.to_index(self.line_ends(self.to_coords(found.0))[found.1]),
                found.2,
            ),
        decreases n,
    {
        let before = self.regular_moves_upto(player, n - 1);
        if i < before.len() {
            self.lemma_regular_moves(player, n - 1, i)
        } else {
            let found = self.lemma_moves_to_ends(
                n - 1,
                self.line_ends(self.to_coords(n - 1)),
                i - before.len(),
            );
            (n - 1, found.0, found.1)
        }
    }

    /// The walk along the edge yields empty tiles only.
    pub proof fn lemma_edge_walk(
        self,
        start: (int, int),
        previous: (int, int),
        current: (int, int),
        steps: nat,
        i: int,
    )
        requires
            0 <= i < self.edge_walk(start, previous, current, steps).len(),
        ensures
            self.index(self.edge_walk(start, previous, current, steps)[i]).is_empty(),
        decreases steps,
    {
        let next = self.next_on_edge(start, previous, current);
        if self.index(next).is_empty() {
            if i > 0 {
                self.lemma_edge_walk(start, current, next, (steps - 1) as nat, i - 1);
            }
        } else {
            self.lemma_edge_walk(start, current, next, (steps - 1) as nat, i);
        }
    }

    /// Replacing one tile changes the sheep of a player by the difference
    /// between the new tile and the old one.
    pub proof fn lemma_sheep_update(self, player: Player, i: int, tile: Tile, n: int)
        requires
            0 <= i < self.tiles.len(),
            0 <= n <= self.tiles.len(),
        ensures
            self.with_tile(i, tile).sheep_upto(player, n) == self.sheep_upto(player, n) + (if i
                < n {
                sheep_on(tile, player) - sheep_on(self.tiles[i], player)
            } else {
                0
            }),
        decreases n,
    {
        if n > 0 {
            self.lemma_sheep_update(player, i, tile, n - 1);
        }
    }
}

/// Move legality: every move that the generator yields differs from the
/// board in the tiles of one placement or of one split alone. A split
/// leaves every player's number of sheep unchanged; a placement brings the
/// sheep of the starting stack and leaves those of the other players.
pub proof fn lemma_moves_are_legal(grid: Grid, player: Player, i: int)
    requires
        grid.wf(),
        player.valid(),
        0 <= i < grid.moves(player).len(),
    ensures
        grid.is_legal_move(grid.moves(player)[i], player),
        forall|other: Player|
            other != player ==> grid.moves(player)[i].sheep(other) == grid.sheep(other),
        grid.has_stack_of(player) ==> grid.moves(player)[i].sheep(player) == grid.sheep(player),
        !grid.has_stack_of(player) ==> grid.moves(player)[i].sheep(player) == grid.sheep(player)
            + STARTING_STACK_SIZE,
{
    let after = grid.moves(player)[i];
    let len = grid.tiles.len() as int;
    if grid.has_stack_of(player) {
        let found = grid.lemma_regular_moves(player, len, i);
        let origin = found.0;
        let origin_coords = grid.to_coords(origin);
        let target_coords = grid.line_ends(origin_coords)[found.1];
        let target = grid.to_index(target_coords);
        let split = found.2;
        let k = grid.lemma_line_ends(origin_coords, 6, found.1);
        grid.lemma_line_end(origin_coords, direction_offset(k));
        grid.lemma_to_index(target_coords);
        grid.lemma_to_coords(origin);
        let stack = grid.tiles[origin];
        let moved = Tile::spec_stack(player, split as u8);
        let kept = Tile::spec_stack(player, (stack.stack_size() - split) as u8);
        assert(stack.player() == player);
        let middle = grid.with_tile(target, moved);
        assert(after == middle.with_tile(origin, kept));
        assert(grid.is_split(after, player, origin, target, split));
        assert forall|other: Player| true implies #[trigger] after.sheep(other) == grid.sheep(
            other,
        ) by {
            grid.lemma_sheep_update(other, target, moved, len);
            middle.lemma_sheep_update(other, origin, kept, len);
        }
    } else {
        let target_coords = grid.outer_edge()[i];
        let start = grid.to_coords(grid.first_board_tile());
        grid.lemma_edge_walk(start, offset(start, (0int, -1int)), start, grid.edge_steps(), i);
        grid.lemma_to_index(target_coords);
        let target = grid.to_index(target_coords);
        let placed = Tile::spec_stack(player, STARTING_STACK_SIZE);
        assert(grid.is_placement(after, player, target));
        assert forall|other: Player| true implies #[trigger] after.sheep(other) == grid.sheep(
            other,
        ) + sheep_on(placed, other) by {
            grid.lemma_sheep_update(other, target, placed, len);
        }
    }
}

} // verus!
