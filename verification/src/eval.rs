//! The evaluator: a score for a board, and the winner once the game is over.

use crate::board::{Board, Grid, Player, Tile, MAX_TILES};
use vstd::prelude::*;

verus! {

/// The value of a won game.
pub const WIN_VALUE: i32 = 1_000_000;

/// No score of the evaluator is further from zero than this.
pub const SCORE_LIMIT: i32 = 1_860_000_254;

/// Half of `x`, rounded towards zero.
pub open spec fn half(x: int) -> int {
    if x >= 0 {
        x / 2
    } else {
        -((-x) / 2)
    }
}

/// A value times a player's direction is the value itself or its opposite.
pub proof fn lemma_times_direction(player: Player, x: int)
    ensures
        x * player.spec_direction() == (if player.0 == 0 {
            -x
        } else {
            x
        }),
        player.spec_direction() * x == x * player.spec_direction(),
{
    if player.0 == 0 {
        assert(x * (-1) == -x);
    } else {
        assert(x * 1 == x);
    }
    assert(player.spec_direction() * x == x * player.spec_direction()) by (nonlinear_arith);
}

impl Grid {
    /// The number of sides on which the tile at index `i` has no empty neighbor.
    pub open spec fn blocked_directions(self, i: int) -> int {
        6 - self.empty_neighbors(self.to_coords(i))
    }

    /// How much the stack at index `i` is blocked: more for a larger stack
    /// and for more blocked sides.
    pub open spec fn blocked_score(self, i: int) -> int {
        (self.tiles[i].stack_size() - 1) * self.blocked_directions(i)
    }

    /// What the tile at index `i` adds to the value of the board: a blocked
    /// stack moves the value away from its owner's direction.
    pub open spec fn blocked_value_at(self, i: int) -> int {
        if self.tiles[i].is_stack() {
            -(self.blocked_score(i) * self.tiles[i].player().spec_direction())
        } else {
            0
        }
    }

    pub open spec fn blocked_value_upto(self, n: int) -> int
        decreases n,
    {
        if n <= 0 {
            0
        } else {
            self.blocked_value_upto(n - 1) + self.blocked_value_at(n - 1)
        }
    }

    /// The number of stacks of `player` among the first `n` tiles.
    pub open spec fn stack_count_upto(self, player: Player, n: int) -> int
        decreases n,
    {
        if n <= 0 {
            0
        } else {
            self.stack_count_upto(player, n - 1) + if self.tiles[n - 1].is_stack_of(player) {
                1int
            } else {
                0int
            }
        }
    }

    pub open spec fn stack_count(self, player: Player) -> int {
        self.stack_count_upto(player, self.tiles.len() as int)
    }

    /// The size of the largest stack of `player` among the first `n`
    /// tiles; 0 if there is none.
    pub open spec fn largest_stack_upto(self, player: Player, n: int) -> int
        decreases n,
    {
        if n <= 0 {
            0
        } else {
            let before = self.largest_stack_upto(player, n - 1);
            if self.tiles[n - 1].is_stack_of(player) && self.tiles[n - 1].stack_size() > before {
                self.tiles[n - 1].stack_size() as int
            } else {
                before
            }
        }
    }

    /// The size of the smallest stack of `player` among the first `n`
    /// tiles; 255 if there is none.
    pub open spec fn smallest_stack_upto(self, player: Player, n: int) -> int
        decreases n,
    {
        if n <= 0 {
            255
        } else {
            let before = self.smallest_stack_upto(player, n - 1);
            if self.tiles[n - 1].is_stack_of(player) && self.tiles[n - 1].stack_size() < before {
                self.tiles[n - 1].stack_size() as int
            } else {
                before
            }
        }
    }

    /// Half the difference between the largest and the smallest stack of
    /// `player`, rounded towards zero. A player without stacks has -127.
    pub open spec fn uneven_score(self, player: Player) -> int {
        let len = self.tiles.len() as int;
        half(self.largest_stack_upto(player, len) - self.smallest_stack_upto(player, len))
    }

    /// The value of a board on which the game goes on: every stack counts
    /// against its owner by its blocked score, and every player's uneven
    /// score counts against that player.
    pub open spec fn running_value(self) -> int {
        self.blocked_value_upto(self.tiles.len() as int) - self.uneven_score(Player(0)) * Player(
            0,
        ).spec_direction() - self.uneven_score(Player(1)) * Player(1).spec_direction()
    }

    /// The stack at index `i` belongs to `player`, has more than one sheep
    /// and an empty neighbor.
    pub open spec fn can_split(self, i: int, player: Player) -> bool {
        self.is_splittable(i, player) && self.empty_neighbors(self.to_coords(i)) > 0
    }

    /// None of the first `n` tiles holds a stack that `player` can split.
    pub open spec fn is_blocked_upto(self, player: Player, n: int) -> bool
        decreases n,
    {
        if n <= 0 {
            true
        } else {
            self.is_blocked_upto(player, n - 1) && !self.can_split(n - 1, player)
        }
    }

    pub open spec fn is_blocked(self, player: Player) -> bool {
        self.is_blocked_upto(player, self.tiles.len() as int)
    }

    /// No player can split a stack.
    pub open spec fn game_over(self) -> bool {
        self.is_blocked(Player(0)) && self.is_blocked(Player(1))
    }

    /// No player has more stacks than `player`.
    pub open spec fn holds_most_stacks(self, player: Player) -> bool {
        forall|other: Player|
            other.valid() ==> #[trigger] self.stack_count(other) <= self.stack_count(player)
    }

    /// `player` holds the most stacks, and of the players that do, none
    /// has a larger connected field.
    pub open spec fn wins(self, player: Player) -> bool {
        &&& self.holds_most_stacks(player)
        &&& forall|other: Player|
            other.valid() && #[trigger] self.holds_most_stacks(other) ==> self.largest_field(other)
                <= self.largest_field(player)
    }

    /// The value of a board on which the game is over: one million in the
    /// direction of every winner.
    pub open spec fn final_value(self) -> int {
        (if self.wins(Player(0)) {
            WIN_VALUE * Player(0).spec_direction()
        } else {
            0
        }) + (if self.wins(Player(1)) {
            WIN_VALUE * Player(1).spec_direction()
        } else {
            0
        })
    }

    /// The value of the board. The more it lies in a player's direction,
    /// the better for that player.
    pub open spec fn heuristic(self) -> int {
        if self.game_over() {
            self.final_value()
        } else {
            self.running_value()
        }
    }

    pub proof fn lemma_empty_neighbors_bound(self, c: (int, int), k: int)
        requires
            0 <= k,
        ensures
            0 <= self.empty_neighbors_upto(c, k) <= k,
        decreases k,
    {
        if k > 0 {
            self.lemma_empty_neighbors_bound(c, k - 1);
        }
    }

    pub proof fn lemma_blocked_value_bound(self, n: int)
        requires
            0 <= n <= self.tiles.len(),
        ensures
            -186 * n <= self.blocked_value_upto(n) <= 186 * n,
        decreases n,
    {
        if n > 0 {
            self.lemma_blocked_value_bound(n - 1);
            self.lemma_empty_neighbors_bound(self.to_coords(n - 1), 6);
            let size = self.tiles[n - 1].stack_size() as int;
            let blocked = self.blocked_directions(n - 1);
            assert(0 <= (size - 1) * blocked <= 186) by (nonlinear_arith)
                requires
                    1 <= size <= 32,
                    0 <= blocked <= 6,
            ;
            lemma_times_direction(self.tiles[n - 1].player(), self.blocked_score(n - 1));
        }
    }

    pub proof fn lemma_stack_sizes_bound(self, player: Player, n: int)
        requires
            0 <= n <= self.tiles.len(),
        ensures
            0 <= self.largest_stack_upto(player, n) <= 32,
            1 <= self.smallest_stack_upto(player, n) <= 255,
            0 <= self.stack_count_upto(player, n) <= n,
        decreases n,
    {
        if n > 0 {
            self.lemma_stack_sizes_bound(player, n - 1);
        }
    }

    /// Every score fits between the limits.
    pub proof fn lemma_heuristic_bound(self)
        requires
            self.wf(),
        ensures
            -SCORE_LIMIT <= self.heuristic() <= SCORE_LIMIT,
    {
        let len = self.tiles.len() as int;
        self.lemma_blocked_value_bound(len);
        self.lemma_stack_sizes_bound(Player(0), len);
        self.lemma_stack_sizes_bound(Player(1), len);
        lemma_times_direction(Player(0), self.uneven_score(Player(0)));
        lemma_times_direction(Player(1), self.uneven_score(Player(1)));
        lemma_times_direction(Player(0), WIN_VALUE as int);
        lemma_times_direction(Player(1), WIN_VALUE as int);
    }
}

impl Board {
    /// The number of empty tiles among the neighbors of a tile of the board.
    fn count_empty_neighbors(&self, coords: (isize, isize)) -> (count: i32)
        requires
            self.wf(),
            self@.in_range(crate::board::coords(coords)),
        ensures
            count == self@.empty_neighbors(crate::board::coords(coords)),
            0 <= count <= 6,
    {
        proof {
            self@.lemma_len();
        }
        let mut count: i32 = 0;
        let mut k: usize = 0;
        while k < 6
            invariant
                self.wf(),
                0 <= coords.0 <= MAX_TILES,
                0 <= coords.1 <= MAX_TILES,
                k <= 6,
                count == self@.empty_neighbors_upto(crate::board::coords(coords), k as int),
                0 <= count <= k,
            decreases 6 - k,
        {
            assert(crate::board::coords(crate::board::DIRECTION_OFFSETS[k as int])
                == crate::board::direction_offset(k as int));
            let neighbor = crate::board::add_offset(coords, crate::board::DIRECTION_OFFSETS[k]);
            if self.index(neighbor).is_empty() {
                count += 1;
            }
            k += 1;
        }
        count
    }

    /// Evaluates the current board state. The more the value is in one
    /// player's direction, the more advantage they have. While the game
    /// goes on, the value tells how blocked the stacks are by their
    /// neighbors and how evenly they are split. Once no player can move,
    /// it tells who has won.
    pub fn heuristic_evaluate(&self) -> (value: i32)
        requires
            self.wf(),
        ensures
            value == self@.heuristic(),
            -SCORE_LIMIT <= value <= SCORE_LIMIT,
    {
        let ghost grid = self@;
        let len = self.tiles.len();
        let mut value: i32 = 0;
        let mut all_blocked_0 = true;
        let mut all_blocked_1 = true;
        let mut stacks_0: usize = 0;
        let mut stacks_1: usize = 0;
        let mut smallest_0: u8 = u8::MAX;
        let mut smallest_1: u8 = u8::MAX;
        let mut largest_0: u8 = 0;
        let mut largest_1: u8 = 0;
        let mut i: usize = 0;
        while i < len
            invariant
                self.wf(),
                grid == self@,
                len == self.tiles.len(),
                i <= len,
                value == grid.blocked_value_upto(i as int),
                -186 * i <= value <= 186 * i,
                all_blocked_0 == grid.is_blocked_upto(Player(0), i as int),
                all_blocked_1 == grid.is_blocked_upto(Player(1), i as int),
                stacks_0 == grid.stack_count_upto(Player(0), i as int),
                stacks_1 == grid.stack_count_upto(Player(1), i as int),
                stacks_0 <= i,
                stacks_1 <= i,
                smallest_0 == grid.smallest_stack_upto(Player(0), i as int),
                smallest_1 == grid.smallest_stack_upto(Player(1), i as int),
                largest_0 == grid.largest_stack_upto(Player(0), i as int),
                largest_1 == grid.largest_stack_upto(Player(1), i as int),
            decreases len - i,
        {
            let tile = self.tiles[i];
            if tile.is_stack() {
                let size = tile.stack_size();
                proof {
                    grid.lemma_to_coords(i as int);
                }
                /* A maximum of 6 directions are blocked. */
                let blocked_directions: i32 = 6 - self.count_empty_neighbors(
                    self.index_to_coords(i),
                );
                /* Being surrounded from more sides and having more sheep in the stack increase
                 * its blocked score. */
                assert(0 <= (size - 1) * blocked_directions <= 186) by (nonlinear_arith)
                    requires
                        1 <= size <= 32,
                        0 <= blocked_directions <= 6,
                ;
                let blocked_score: i32 = (size as i32 - 1) * blocked_directions;
                proof {
                    lemma_times_direction(tile.player(), blocked_score as int);
                }
                if tile.player().0 == 0 {
                    stacks_0 += 1;
                    if size > largest_0 {
                        largest_0 = size;
                    }
                    if size < smallest_0 {
                        smallest_0 = size;
                    }
                    if size > 1 && blocked_directions < 6 {
                        all_blocked_0 = false;
                    }
                    value = value + blocked_score;
                } else {
                    stacks_1 += 1;
                    if size > largest_1 {
                        largest_1 = size;
                    }
                    if size < smallest_1 {
                        smallest_1 = size;
                    }
                    if size > 1 && blocked_directions < 6 {
                        all_blocked_1 = false;
                    }
                    value = value - blocked_score;
                }
            }
            i += 1;
        }
        proof {
            grid.lemma_heuristic_bound();
            lemma_times_direction(Player(0), grid.uneven_score(Player(0)));
            lemma_times_direction(Player(1), grid.uneven_score(Player(1)));
            lemma_times_direction(Player(0), WIN_VALUE as int);
            lemma_times_direction(Player(1), WIN_VALUE as int);
        }
        /* If all players are blocked, the game is over and the winner can be determined. */
        if all_blocked_0 && all_blocked_1 {
            let fields = self.largest_connected_fields();
            let most_0 = stacks_0 >= stacks_1;
            let most_1 = stacks_1 >= stacks_0;
            let wins_0 = most_0 && (!most_1 || fields[0] >= fields[1]);
            let wins_1 = most_1 && (!most_0 || fields[1] >= fields[0]);
            proof {
                assert(grid.stack_count(Player(0)) == stacks_0);
                assert(grid.stack_count(Player(1)) == stacks_1);
                assert(most_0 == grid.holds_most_stacks(Player(0))) by {
                    if most_0 {
                        assert forall|other: Player| other.valid() implies #[trigger] grid.stack_count(
                            other,
                        ) <= grid.stack_count(Player(0)) by {
                            assert(other == Player(0) || other == Player(1));
                        }
                    } else {
                        assert(Player(1).valid());
                    }
                }
                assert(most_1 == grid.holds_most_stacks(Player(1))) by {
                    if most_1 {
                        assert forall|other: Player| other.valid() implies #[trigger] grid.stack_count(
                            other,
                        ) <= grid.stack_count(Player(1)) by {
                            assert(other == Player(0) || other == Player(1));
                        }
                    } else {
                        assert(Player(0).valid());
                    }
                }
                assert(wins_0 == grid.wins(Player(0))) by {
                    if wins_0 {
                        assert forall|other: Player|
                            other.valid() && #[trigger] grid.holds_most_stacks(
                                other,
                            ) implies grid.largest_field(other) <= grid.largest_field(Player(0)) by {
                            assert(other == Player(0) || other == Player(1));
                        }
                    } else if most_0 {
                        assert(Player(1).valid() && grid.holds_most_stacks(Player(1)));
                    }
                }
                assert(wins_1 == grid.wins(Player(1))) by {
                    if wins_1 {
                        assert forall|other: Player|
                            other.valid() && #[trigger] grid.holds_most_stacks(
                                other,
                            ) implies grid.largest_field(other) <= grid.largest_field(Player(1)) by {
                            assert(other == Player(0) || other == Player(1));
                        }
                    } else if most_1 {
                        assert(Player(0).valid() && grid.holds_most_stacks(Player(0)));
                    }
                }
            }
            /* Set value to one million in the winners' directions. */
            let mut result: i32 = 0;
            if wins_0 {
                result = result - WIN_VALUE;
            }
            if wins_1 {
                result = result + WIN_VALUE;
            }
            return result;
        }
        /* Extra score for splitting stacks evenly. This does not matter as much as being
         * blocked. */
        let uneven_0: i32 = if largest_0 >= smallest_0 {
            (largest_0 - smallest_0) as i32 / 2
        } else {
            -((smallest_0 - largest_0) as i32 / 2)
        };
        let uneven_1: i32 = if largest_1 >= smallest_1 {
            (largest_1 - smallest_1) as i32 / 2
        } else {
            -((smallest_1 - largest_1) as i32 / 2)
        };
        value + uneven_0 - uneven_1
    }
}

/// Terminal detection: where every stack has a single sheep or no empty
/// neighbor, the value is one million times -1, 0 or 1, whatever the
/// blocked and uneven scores are.
pub proof fn lemma_game_over_value(grid: Grid)
    requires
        grid.wf(),
        forall|i: int|
            0 <= i < grid.tiles.len() && (#[trigger] grid.tiles[i]).is_stack() ==> grid.tiles[i].stack_size()
                == 1 || grid.empty_neighbors(grid.to_coords(i)) == 0,
    ensures
        grid.game_over(),
        grid.heuristic() == grid.final_value(),
        grid.heuristic() == -WIN_VALUE || grid.heuristic() == 0 || grid.heuristic() == WIN_VALUE,
{
    lemma_blocked(grid, Player(0), grid.tiles.len() as int);
    lemma_blocked(grid, Player(1), grid.tiles.len() as int);
    lemma_times_direction(Player(0), WIN_VALUE as int);
    lemma_times_direction(Player(1), WIN_VALUE as int);
}

proof fn lemma_blocked(grid: Grid, player: Player, n: int)
    requires
        0 <= n <= grid.tiles.len(),
        forall|i: int|
            0 <= i < grid.tiles.len() && (#[trigger] grid.tiles[i]).is_stack() ==> grid.tiles[i].stack_size()
                == 1 || grid.empty_neighbors(grid.to_coords(i)) == 0,
    ensures
        grid.is_blocked_upto(player, n),
    decreases n,
{
    if n > 0 {
        lemma_blocked(grid, player, n - 1);
        assert(grid.tiles[n - 1].is_stack() ==> grid.tiles[n - 1].stack_size() == 1
            || grid.empty_neighbors(grid.to_coords(n - 1)) == 0);
    }
}


impl Grid {
    /// A straight line from `c` has an end in one of the first `k`
    /// directions where one of the first `k` neighbors of `c` is empty.
    pub proof fn lemma_line_ends_with_neighbors(self, c: (int, int), k: int)
        requires
            0 <= k <= 6,
        ensures
            (self.line_ends_upto(c, k).len() > 0) == (self.empty_neighbors_upto(c, k) > 0),
        decreases k,
    {
        if k > 0 {
            self.lemma_line_ends_with_neighbors(c, k - 1);
            self.lemma_empty_neighbors_bound(c, k - 1);
        }
    }

    /// A stack of more than one sheep has as many moves to the ends of
    /// straight lines as there are ends, times the ways to split it.
    pub proof fn lemma_moves_to_ends_len(self, origin: int, ends: Seq<(int, int)>)
        ensures
            self.moves_to_ends(origin, ends).len() == ends.len() * (self.tiles[origin].stack_size()
                - 1),
        decreases ends.len(),
    {
        let splits = self.tiles[origin].stack_size() - 1;
        if ends.len() > 0 {
            self.lemma_moves_to_ends_len(origin, ends.drop_last());
            assert(ends.len() * splits == (ends.len() - 1) * splits + splits) by (nonlinear_arith);
        } else {
            assert(0 * splits == 0);
        }
    }

    pub proof fn lemma_regular_moves_upto(self, player: Player, n: int)
        requires
            0 <= n <= self.tiles.len(),
        ensures
            (self.regular_moves_upto(player, n).len() == 0) == self.is_blocked_upto(player, n),
        decreases n,
    {
        if n > 0 {
            self.lemma_regular_moves_upto(player, n - 1);
            if self.is_splittable(n - 1, player) {
                let ends = self.line_ends(self.to_coords(n - 1));
                let splits = self.tiles[n - 1].stack_size() - 1;
                self.lemma_line_ends_with_neighbors(self.to_coords(n - 1), 6);
                self.lemma_moves_to_ends_len(n - 1, ends);
                assert((ends.len() * splits == 0) == (ends.len() == 0)) by (nonlinear_arith)
                    requires
                        splits >= 1,
                        ends.len() >= 0,
                ;
            }
        }
    }
}

/// A player is blocked where the player has no regular move: no stack of
/// more than one sheep with an empty tile beside it to move to. The game
/// is over where no player has a regular move.
pub proof fn lemma_blocked_is_without_moves(grid: Grid, player: Player)
    ensures
        grid.is_blocked(player) == (grid.regular_moves(player).len() == 0),
        grid.game_over() == (grid.regular_moves(Player(0)).len() == 0 && grid.regular_moves(
            Player(1),
        ).len() == 0),
{
    grid.lemma_regular_moves_upto(player, grid.tiles.len() as int);
    grid.lemma_regular_moves_upto(Player(0), grid.tiles.len() as int);
    grid.lemma_regular_moves_upto(Player(1), grid.tiles.len() as int);
}

} // verus!
