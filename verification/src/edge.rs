//! The walk along the outer edge of the board.

use crate::board::{
    add_offset, coords, coords_seq, direction_offset, offset, Board, Grid, DIRECTION_OFFSETS,
};
use vstd::prelude::*;

verus! {

/// The number of the direction `d`, or 6 if `d` is none of the six.
pub open spec fn direction_number(d: (int, int)) -> int {
    if d == direction_offset(0) {
        0
    } else if d == direction_offset(1) {
        1
    } else if d == direction_offset(2) {
        2
    } else if d == direction_offset(3) {
        3
    } else if d == direction_offset(4) {
        4
    } else if d == direction_offset(5) {
        5
    } else {
        6
    }
}

impl Grid {
    /// The index of the first board tile at or after `i` in row-major
    /// order, or the number of tiles if there is none.
    pub open spec fn first_board_tile_from(self, i: int) -> int
        decreases self.tiles.len() - i,
    {
        if i < 0 || i >= self.tiles.len() {
            self.tiles.len() as int
        } else if self.tiles[i].is_board_tile() {
            i
        } else {
            self.first_board_tile_from(i + 1)
        }
    }

    pub open spec fn first_board_tile(self) -> int {
        self.first_board_tile_from(0)
    }

    pub open spec fn has_board_tile(self) -> bool {
        self.first_board_tile() < self.tiles.len()
    }

    /// The first board tile among the neighbors of `current`, tried in
    /// clockwise order from the `j`-th after direction `k`; `start` if the
    /// neighbors up to the sixth after `k` hold none.
    pub open spec fn next_on_edge_from(
        self,
        start: (int, int),
        current: (int, int),
        k: int,
        j: int,
    ) -> (int, int)
        decreases 7 - j,
    {
        if j > 6 {
            start
        } else if self.index(Grid::neighbor(current, (k + j) % 6)).is_board_tile() {
            Grid::neighbor(current, (k + j) % 6)
        } else {
            self.next_on_edge_from(start, current, k, j + 1)
        }
    }

    /// The place that follows `current` on the walk that came from
    /// `previous`: the first board tile among the neighbors of `current`
    /// clockwise just past `previous`.
    pub open spec fn next_on_edge(
        self,
        start: (int, int),
        previous: (int, int),
        current: (int, int),
    ) -> (int, int) {
        let k = direction_number((previous.0 - current.0, previous.1 - current.1));
        if k >= 6 {
            start
        } else {
            self.next_on_edge_from(start, current, k, 1)
        }
    }

    /// The empty tiles that the walk from `current` meets until it is back
    /// at `start` or has made `steps` steps.
    pub open spec fn edge_walk(
        self,
        start: (int, int),
        previous: (int, int),
        current: (int, int),
        steps: nat,
    ) -> Seq<(int, int)>
        decreases steps,
    {
        if steps == 0 {
            Seq::empty()
        } else {
            let next = self.next_on_edge(start, previous, current);
            let found = if self.index(next).is_empty() {
                seq![next]
            } else {
                Seq::empty()
            };
            if next == start {
                found
            } else {
                found + self.edge_walk(start, current, next, (steps - 1) as nat)
            }
        }
    }

    /// The walk is cut off after this many steps. It is back at its start
    /// by then: there are no more pairs of a place and a neighbor to come
    /// from, and the walk comes to no pair twice.
    pub open spec fn edge_steps(self) -> nat {
        6 * self.tiles.len()
    }

    /// The empty tiles on the outer edge of the board, in the order of a
    /// walk that starts at the first board tile in row-major order, as if
    /// it came from the left, and at every place goes on to the first
    /// board tile among the neighbors clockwise past the place it came from.
    pub open spec fn outer_edge(self) -> Seq<(int, int)> {
        let start = self.to_coords(self.first_board_tile());
        self.edge_walk(start, offset(start, (0int, -1int)), start, self.edge_steps())
    }

    /// No board tile stands before the first one, and the first one is a
    /// board tile.
    pub proof fn lemma_first_board_tile(self, i: int)
        requires
            0 <= i <= self.tiles.len(),
        ensures
            i <= self.first_board_tile_from(i) <= self.tiles.len(),
            self.first_board_tile_from(i) < self.tiles.len() ==> self.tiles[self.first_board_tile_from(
                i,
            )].is_board_tile(),
            forall|j: int| i <= j < self.first_board_tile_from(i) ==> !self.tiles[j].is_board_tile(),
        decreases self.tiles.len() - i,
    {
        if i < self.tiles.len() && !self.tiles[i].is_board_tile() {
            self.lemma_first_board_tile(i + 1);
        }
    }
}

impl Board {
    /// Whether the board holds a tile that is a stack or empty.
    pub fn has_board_tile(&self) -> (found: bool)
        ensures
            found == self@.has_board_tile(),
    {
        self.first_board_tile() < self.tiles.len()
    }

    /// The index of the first board tile in row-major order.
    fn first_board_tile(&self) -> (first: usize)
        ensures
            first == self@.first_board_tile(),
    {
        let mut i: usize = 0;
        while i < self.tiles.len() && !self.tiles[i].is_board_tile()
            invariant
                i <= self.tiles.len(),
                self@.first_board_tile() == self@.first_board_tile_from(i as int),
            decreases self.tiles.len() - i,
        {
            i += 1;
        }
        i
    }

    /// The place that follows `current` on the walk along the edge.
    fn next_on_edge(
        &self,
        start: (isize, isize),
        previous: (isize, isize),
        current: (isize, isize),
    ) -> (next: (isize, isize))
        requires
            self.wf(),
            self@.in_range(coords(current)),
            self@.in_range(coords(start)),
        ensures
            coords(next) == self@.next_on_edge(coords(start), coords(previous), coords(current)),
            next == start || self@.index(coords(next)).is_board_tile(),
    {
        proof {
            self@.lemma_len();
        }
        let mut k: usize = 0;
        while k < 6 && !(current.0 + DIRECTION_OFFSETS[k].0 == previous.0 && current.1
            + DIRECTION_OFFSETS[k].1 == previous.1)
            invariant
                k <= 6,
                0 <= current.0 <= crate::board::MAX_TILES,
                0 <= current.1 <= crate::board::MAX_TILES,
                forall|m: int|
                    0 <= m < k ==> direction_offset(m) != (
                        previous.0 - current.0,
                        previous.1 - current.1,
                    ),
            decreases 6 - k,
        {
            k += 1;
        }
        let ghost d = (previous.0 - current.0, previous.1 - current.1);
        assert(direction_number(d) == k) by {
            if k < 6 {
                assert(coords(DIRECTION_OFFSETS[k as int]) == direction_offset(k as int));
            }
        }
        if k >= 6 {
            return start;
        }
        let mut j: usize = 1;
        while j <= 6
            invariant
                self.wf(),
                self@.in_range(coords(current)),
                0 <= current.0 <= crate::board::MAX_TILES,
                0 <= current.1 <= crate::board::MAX_TILES,
                k < 6,
                1 <= j <= 7,
                self@.next_on_edge(coords(start), coords(previous), coords(current))
                    == self@.next_on_edge_from(coords(start), coords(current), k as int, j as int),
            decreases 7 - j,
        {
            let m: usize = (k + j) % 6;
            assert(coords(DIRECTION_OFFSETS[m as int]) == direction_offset(m as int));
            let neighbor = add_offset(current, DIRECTION_OFFSETS[m]);
            if self.index(neighbor).is_board_tile() {
                return neighbor;
            }
            j += 1;
        }
        start
    }

    /// The empty tiles on the outer edge of the board in the order of a
    /// walk along the edge.
    pub fn iter_empty_outer_edge(&self) -> (edge: Vec<(isize, isize)>)
        requires
            self.wf(),
            self@.has_board_tile(),
        ensures
            coords_seq(edge@) == self@.outer_edge(),
            forall|i: int|
                0 <= i < edge.len() ==> self@.index(coords(#[trigger] edge[i])).is_empty(),
    {
        let first = self.first_board_tile();
        proof {
            self@.lemma_to_coords(first as int);
            self@.lemma_len();
        }
        /* The first board tile in row-major order has no board tile on its left, so the walk
         * starts as if it had come from there. */
        let start = self.index_to_coords(first);
        let mut previous = add_offset(start, (0, -1));
        let mut current = start;
        let mut edge: Vec<(isize, isize)> = Vec::new();
        let mut steps: usize = 6 * self.tiles.len();
        assert(coords_seq(edge@) =~= Seq::<(int, int)>::empty());
        while steps > 0
            invariant
                self.wf(),
                self@.in_range(coords(start)),
                self@.in_range(coords(current)),
                self@.outer_edge() == coords_seq(edge@) + self@.edge_walk(
                    coords(start),
                    coords(previous),
                    coords(current),
                    steps as nat,
                ),
                forall|i: int|
                    0 <= i < edge.len() ==> self@.index(coords(#[trigger] edge[i])).is_empty(),
            decreases steps,
        {
            let next = self.next_on_edge(start, previous, current);
            let ghost before = coords_seq(edge@);
            let ghost rest = self@.edge_walk(
                coords(start),
                coords(previous),
                coords(current),
                steps as nat,
            );
            if self.index(next).is_empty() {
                edge.push(next);
                assert(coords_seq(edge@) =~= before.push(coords(next)));
            }
            if next.0 == start.0 && next.1 == start.1 {
                assert(self@.outer_edge() =~= coords_seq(edge@));
                return edge;
            }
            assert(self@.outer_edge() =~= coords_seq(edge@) + self@.edge_walk(
                coords(start),
                coords(current),
                coords(next),
                (steps - 1) as nat,
            ));
            previous = current;
            current = next;
            steps -= 1;
        }
        assert(self@.outer_edge() =~= coords_seq(edge@));
        edge
    }
}

} // verus!
