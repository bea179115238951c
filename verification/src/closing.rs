//! The walk along the outer edge comes back to its start.
//!
//! A step of the walk is given by the place where the walk is and the neighbor
//! that it came from. From the second step on both are board tiles, and
//! such a step has only one step that can come before it. So the walk never
//! comes to the same step twice before it is back at its start, and there
//! are fewer steps than the walk is allowed to make.

use crate::board::{offset, Grid};
use crate::edge::direction_number;
use vstd::prelude::*;
use vstd::set_lib::{lemma_int_range, lemma_len_subset, set_int_range};

verus! {

impl Grid {
    /// Where the walk along the outer edge starts.
    pub open spec fn edge_start(self) -> (int, int) {
        self.to_coords(self.first_board_tile())
    }

    /// The place before and the place of the walk after `t` steps.
    pub open spec fn edge_state(self, t: nat) -> ((int, int), (int, int))
        decreases t,
    {
        if t == 0 {
            (offset(self.edge_start(), (0int, -1int)), self.edge_start())
        } else {
            let before = self.edge_state((t - 1) as nat);
            (before.1, self.next_on_edge(self.edge_start(), before.0, before.1))
        }
    }

    /// The walk from `current` is back at `start` after `steps` steps or fewer.
    pub open spec fn edge_closes(
        self,
        start: (int, int),
        previous: (int, int),
        current: (int, int),
        steps: nat,
    ) -> bool
        decreases steps,
    {
        steps > 0 && (self.next_on_edge(start, previous, current) == start || self.edge_closes(
            start,
            current,
            self.next_on_edge(start, previous, current),
            (steps - 1) as nat,
        ))
    }

    /// The number that stands for a step of the walk.
    pub open spec fn state_code(self, state: ((int, int), (int, int))) -> int {
        6 * self.to_index(state.1) + direction_number(
            (state.0.0 - state.1.0, state.0.1 - state.1.1),
        )
    }

    /// A walk that is back at its start yields nothing more with more steps.
    pub proof fn lemma_walk_closed(
        self,
        start: (int, int),
        previous: (int, int),
        current: (int, int),
        steps: nat,
        more: nat,
    )
        requires
            self.edge_closes(start, previous, current, steps),
        ensures
            self.edge_walk(start, previous, current, steps + more) == self.edge_walk(
                start,
                previous,
                current,
                steps,
            ),
        decreases steps,
    {
        let next = self.next_on_edge(start, previous, current);
        if next != start {
            self.lemma_walk_closed(start, current, next, (steps - 1) as nat, more);
        }
    }

    /// Where the search for the next place stops: at the first board tile
    /// among the neighbors from the `j`-th after direction `k` on, which
    /// is the `found`-th; or nowhere, and `found` is 7.
    pub proof fn lemma_turn(self, start: (int, int), current: (int, int), k: int, j: int) -> (found:
        int)
        requires
            0 <= k < 6,
            1 <= j <= 7,
        ensures
            j <= found <= 7,
            found <= 6 ==> self.index(Grid::neighbor(current, (k + found) % 6)).is_board_tile()
                && self.next_on_edge_from(start, current, k, j) == Grid::neighbor(
                current,
                (k + found) % 6,
            ),
            found == 7 ==> self.next_on_edge_from(start, current, k, j) == start,
            forall|i: int|
                j <= i < found ==> !(#[trigger] self.index(
                    Grid::neighbor(current, (k + i) % 6),
                )).is_board_tile(),
        decreases 7 - j,
    {
        if j > 6 {
            7
        } else if self.index(Grid::neighbor(current, (k + j) % 6)).is_board_tile() {
            j
        } else {
            self.lemma_turn(start, current, k, j + 1)
        }
    }

    /// Two board tiles among the neighbors, from which the walk goes on to
    /// the same place, are the same.
    pub proof fn lemma_turn_back(self, start: (int, int), current: (int, int), k1: int, k2: int)
        requires
            0 <= k1 < 6,
            0 <= k2 < 6,
            self.index(Grid::neighbor(current, k1)).is_board_tile(),
            self.index(Grid::neighbor(current, k2)).is_board_tile(),
            self.next_on_edge_from(start, current, k1, 1) == self.next_on_edge_from(
                start,
                current,
                k2,
                1,
            ),
        ensures
            k1 == k2,
    {
        let found1 = self.lemma_turn(start, current, k1, 1);
        let found2 = self.lemma_turn(start, current, k2, 1);
        assert((k1 + 6) % 6 == k1 && (k2 + 6) % 6 == k2);
        assert(found1 <= 6 && found2 <= 6) by {
            if found1 == 7 {
                assert(!self.index(Grid::neighbor(current, (k1 + 6) % 6)).is_board_tile());
            }
            if found2 == 7 {
                assert(!self.index(Grid::neighbor(current, (k2 + 6) % 6)).is_board_tile());
            }
        }
        let d1 = (k1 + found1) % 6;
        let d2 = (k2 + found2) % 6;
        assert(d1 == d2);
        if k1 != k2 {
            if found1 > found2 {
                let i = found1 - found2;
                assert((k1 + i) % 6 == k2);
                assert(!self.index(Grid::neighbor(current, (k1 + i) % 6)).is_board_tile());
            } else if found2 > found1 {
                let i = found2 - found1;
                assert((k2 + i) % 6 == k1);
                assert(!self.index(Grid::neighbor(current, (k2 + i) % 6)).is_board_tile());
            }
        }
    }
}


impl Grid {
    /// The walk has not come back to its start within `steps` steps.
    pub open spec fn edge_open(self, steps: nat) -> bool {
        !self.edge_closes(
            self.edge_start(),
            offset(self.edge_start(), (0int, -1int)),
            self.edge_start(),
            steps,
        )
    }

    /// A walk that has not come back after `t` steps has gone from board
    /// tile to neighboring board tile, and has not been at its start again.
    pub proof fn lemma_edge_state(self, t: nat, i: nat)
        requires
            self.wf(),
            self.has_board_tile(),
            self.edge_open(t),
            i <= t,
        ensures
            self.in_range(self.edge_state(i).1),
            self.index(self.edge_state(i).1).is_board_tile(),
            !self.edge_closes(
                self.edge_start(),
                self.edge_state(i).0,
                self.edge_state(i).1,
                (t - i) as nat,
            ),
            i >= 1 ==> {
                &&& self.edge_state(i).1 != self.edge_start()
                &&& self.edge_state(i).0 == self.edge_state((i - 1) as nat).1
                &&& self.index(self.edge_state(i).0).is_board_tile()
                &&& direction_number(
                    (
                        self.edge_state(i).0.0 - self.edge_state(i).1.0,
                        self.edge_state(i).0.1 - self.edge_state(i).1.1,
                    ),
                ) < 6
                &&& direction_number(
                    (
                        self.edge_state((i - 1) as nat).0.0 - self.edge_state((i - 1) as nat).1.0,
                        self.edge_state((i - 1) as nat).0.1 - self.edge_state((i - 1) as nat).1.1,
                    ),
                ) < 6
            },
        decreases i,
    {
        let start = self.edge_start();
        if i == 0 {
            self.lemma_first_board_tile(0);
            self.lemma_to_coords(self.first_board_tile());
            self.lemma_to_index(start);
        } else {
            self.lemma_edge_state(t, (i - 1) as nat);
            let before = self.edge_state((i - 1) as nat);
            let next = self.next_on_edge(start, before.0, before.1);
            let k = direction_number((before.0.0 - before.1.0, before.0.1 - before.1.1));
            assert(next != start);
            assert(k < 6);
            let found = self.lemma_turn(start, before.1, k, 1);
            assert(found <= 6);
            let d = (k + found) % 6;
            assert(next == Grid::neighbor(before.1, d));
            assert(self.index(next).is_board_tile());
        }
    }

    /// A walk that has not come back does not come to the same step twice.
    pub proof fn lemma_states_differ(self, t: nat, a: nat, b: nat)
        requires
            self.wf(),
            self.has_board_tile(),
            self.edge_open(t),
            1 <= a < b <= t,
        ensures
            self.edge_state(a) != self.edge_state(b),
        decreases a,
    {
        let start = self.edge_start();
        self.lemma_edge_state(t, a);
        self.lemma_edge_state(t, b);
        self.lemma_edge_state(t, (a - 1) as nat);
        self.lemma_edge_state(t, (b - 1) as nat);
        if self.edge_state(a) == self.edge_state(b) {
            let first = self.edge_state((a - 1) as nat);
            let second = self.edge_state((b - 1) as nat);
            assert(first.1 == second.1);
            if a > 1 {
                let k1 = direction_number((first.0.0 - first.1.0, first.0.1 - first.1.1));
                let k2 = direction_number((second.0.0 - second.1.0, second.0.1 - second.1.1));
                assert(first.0 == Grid::neighbor(first.1, k1));
                assert(second.0 == Grid::neighbor(second.1, k2));
                self.lemma_turn_back(start, first.1, k1, k2);
                self.lemma_states_differ(t, (a - 1) as nat, (b - 1) as nat);
            }
        }
    }

    /// The numbers of different steps of the walk are different, and
    /// smaller than six times the number of tiles.
    pub proof fn lemma_state_code(self, t: nat, i: nat)
        requires
            self.wf(),
            self.has_board_tile(),
            self.edge_open(t),
            1 <= i <= t,
        ensures
            0 <= self.state_code(self.edge_state(i)) < 6 * self.tiles.len(),
            self.state_code(self.edge_state(i)) / 6 != self.first_board_tile(),
            self.edge_state(i).1 == self.to_coords(self.state_code(self.edge_state(i)) / 6),
            self.edge_state(i).0 == Grid::neighbor(
                self.edge_state(i).1,
                self.state_code(self.edge_state(i)) % 6,
            ),
    {
        self.lemma_edge_state(t, i);
        self.lemma_to_index(self.edge_state(i).1);
        self.lemma_first_board_tile(0);
        self.lemma_to_coords(self.first_board_tile());
    }

    /// The walk along the outer edge is back at its start before it is
    /// cut off.
    pub proof fn lemma_edge_closes(self)
        requires
            self.wf(),
            self.has_board_tile(),
        ensures
            !self.edge_open(self.edge_steps()),
    {
        let t = self.edge_steps();
        let limit = 6 * self.tiles.len() as int;
        if self.edge_open(t) {
            self.lemma_first_board_tile(0);
            let codes = Seq::new(
                t + 1,
                |i: int|
                    if i == 0 {
                        6 * self.first_board_tile()
                    } else {
                        self.state_code(self.edge_state(i as nat))
                    },
            );
            assert forall|i: int, j: int|
                0 <= i < codes.len() && 0 <= j < codes.len() && i != j implies codes[i]
                != codes[j] by {
                if i > 0 {
                    self.lemma_state_code(t, i as nat);
                }
                if j > 0 {
                    self.lemma_state_code(t, j as nat);
                }
                if i > 0 && j > 0 {
                    if i < j {
                        self.lemma_states_differ(t, i as nat, j as nat);
                    } else {
                        self.lemma_states_differ(t, j as nat, i as nat);
                    }
                }
            }
            assert(codes.no_duplicates());
            codes.unique_seq_to_set();
            lemma_int_range(0, limit);
            assert forall|code: int| codes.to_set().contains(code) implies set_int_range(
                0,
                limit,
            ).contains(code) by {
                let i = choose|i: int| 0 <= i < codes.len() && codes[i] == code;
                if i > 0 {
                    self.lemma_state_code(t, i as nat);
                }
            }
            assert(codes.to_set().subset_of(set_int_range(0, limit)));
            lemma_len_subset(codes.to_set(), set_int_range(0, limit));
        }
    }

    /// The outer edge is the whole walk: however many steps the walk is
    /// allowed beyond those that cut it off, it yields the same tiles.
    pub proof fn lemma_outer_edge_is_whole(self, more: nat)
        requires
            self.wf(),
            self.has_board_tile(),
        ensures
            self.edge_walk(
                self.edge_start(),
                offset(self.edge_start(), (0int, -1int)),
                self.edge_start(),
                self.edge_steps() + more,
            ) == self.outer_edge(),
    {
        self.lemma_edge_closes();
        self.lemma_walk_closed(
            self.edge_start(),
            offset(self.edge_start(), (0int, -1int)),
            self.edge_start(),
            self.edge_steps(),
            more,
        );
    }
}

} // verus!
