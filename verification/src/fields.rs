//! Connected fields: the groups of neighboring stacks of one player.

use crate::board::{
    add_offset, coords, direction_offset, Board, Grid, Player, DIRECTION_OFFSETS, MAX_TILES,
};
use vstd::prelude::*;
use vstd::set_lib::{lemma_int_range, lemma_len_subset, set_int_range};

verus! {

impl Grid {
    /// The tiles at the indices `a` and `b` are neighbors and hold stacks
    /// of the same player.
    pub open spec fn linked(self, a: int, b: int) -> bool {
        &&& 0 <= a < self.tiles.len()
        &&& 0 <= b < self.tiles.len()
        &&& self.tiles[a].is_stack()
        &&& self.tiles[b].is_stack()
        &&& self.tiles[a].player() == self.tiles[b].player()
        &&& exists|k: int|
            0 <= k < 6 && self.to_coords(b) == #[trigger] Grid::neighbor(self.to_coords(a), k)
    }

    /// A sequence of stacks, each linked to the next.
    pub open spec fn is_path(self, path: Seq<int>) -> bool {
        &&& path.len() > 0
        &&& 0 <= path[0] < self.tiles.len()
        &&& self.tiles[path[0]].is_stack()
        &&& forall|i: int| 0 <= i < path.len() - 1 ==> self.linked(path[i], #[trigger] path[i + 1])
    }

    /// A path leads from the stack at `a` to the stack at `b`.
    pub open spec fn connected(self, a: int, b: int) -> bool {
        exists|path: Seq<int>| #[trigger] self.is_path(path) && path[0] == a && path.last() == b
    }

    /// The connected field of the stack at `a`: all stacks that a path from
    /// `a` reaches.
    pub open spec fn field(self, a: int) -> Set<int> {
        Set::new(|b: int| self.connected(a, b))
    }

    /// The size of the largest connected field that holds one of the
    /// first `n` tiles and belongs to `player`; 0 without such a field.
    pub open spec fn largest_field_upto(self, player: Player, n: int) -> nat
        decreases n,
    {
        if n <= 0 {
            0
        } else {
            let before = self.largest_field_upto(player, n - 1);
            if self.tiles[n - 1].is_stack_of(player) && self.field(n - 1).len() > before {
                self.field(n - 1).len()
            } else {
                before
            }
        }
    }

    /// The size of the largest connected field of `player`.
    pub open spec fn largest_field(self, player: Player) -> nat {
        self.largest_field_upto(player, self.tiles.len() as int)
    }

    /// No link leads out of the set.
    pub open spec fn closed_under_links(self, s: Set<int>) -> bool {
        forall|a: int, b: int| s.contains(a) && #[trigger] self.linked(a, b) ==> s.contains(b)
    }

    /// The marked tiles are stacks, and no link leads from a marked tile
    /// to one that is not marked.
    pub open spec fn marks_whole_fields(self, visited: Seq<bool>) -> bool {
        &&& visited.len() == self.tiles.len()
        &&& forall|a: int| 0 <= a < visited.len() && #[trigger] visited[a] ==> self.tiles[a].is_stack()
        &&& forall|a: int, b: int|
            0 <= a < visited.len() && visited[a] && #[trigger] self.linked(a, b) ==> visited[b]
    }

    pub proof fn lemma_linked_symmetric(self, a: int, b: int)
        requires
            self.linked(a, b),
        ensures
            self.linked(b, a),
    {
        let k = choose|k: int|
            0 <= k < 6 && self.to_coords(b) == #[trigger] Grid::neighbor(self.to_coords(a), k);
        let back = (k + 3) % 6;
        assert(self.to_coords(a) == Grid::neighbor(self.to_coords(b), back));
    }

    /// A stack is connected to itself.
    pub proof fn lemma_connected_to_itself(self, a: int)
        requires
            0 <= a < self.tiles.len(),
            self.tiles[a].is_stack(),
        ensures
            self.connected(a, a),
    {
        let path = seq![a];
        assert(self.is_path(path));
        assert(path[0] == a && path.last() == a);
    }

    /// A link at the end of a path makes a longer path.
    pub proof fn lemma_connected_step(self, a: int, b: int, c: int)
        requires
            self.connected(a, b),
            self.linked(b, c),
        ensures
            self.connected(a, c),
    {
        let path = choose|path: Seq<int>| #[trigger]
            self.is_path(path) && path[0] == a && path.last() == b;
        let longer = path.push(c);
        assert forall|i: int| 0 <= i < longer.len() - 1 implies self.linked(
            longer[i],
            #[trigger] longer[i + 1],
        ) by {
            if i < path.len() - 1 {
                assert(self.linked(path[i], path[i + 1]));
            }
        }
        assert(self.is_path(longer));
        assert(longer[0] == a && longer.last() == c);
    }

    /// A path that starts inside a closed set stays inside.
    pub proof fn lemma_path_stays(self, path: Seq<int>, s: Set<int>, i: int)
        requires
            self.is_path(path),
            self.closed_under_links(s),
            s.contains(path[0]),
            0 <= i < path.len(),
        ensures
            s.contains(path[i]),
        decreases i,
    {
        if i > 0 {
            self.lemma_path_stays(path, s, i - 1);
            assert(self.linked(path[i - 1], path[i - 1 + 1]));
        }
    }

    /// A path that starts outside of marked whole fields stays outside.
    pub proof fn lemma_path_avoids(self, path: Seq<int>, visited: Seq<bool>, i: int)
        requires
            self.is_path(path),
            self.marks_whole_fields(visited),
            !visited[path[0]],
            0 <= i < path.len(),
        ensures
            0 <= path[i] < self.tiles.len(),
            !visited[path[i]],
        decreases i,
    {
        if i > 0 {
            self.lemma_path_avoids(path, visited, i - 1);
            assert(self.linked(path[i - 1], path[i - 1 + 1]));
            self.lemma_linked_symmetric(path[i - 1], path[i]);
        }
    }

    /// A field is a finite set of stacks of one player, and no link leaves it.
    pub proof fn lemma_field(self, a: int)
        requires
            0 <= a < self.tiles.len(),
            self.tiles[a].is_stack(),
        ensures
            self.field(a).finite(),
            self.field(a).len() <= self.tiles.len(),
            self.field(a).contains(a),
            self.closed_under_links(self.field(a)),
            forall|b: int|
                self.field(a).contains(b) ==> 0 <= b < self.tiles.len() && self.tiles[b].is_stack_of(
                    self.tiles[a].player(),
                ),
    {
        let len = self.tiles.len() as int;
        let player = self.tiles[a].player();
        let same = Set::new(|b: int| 0 <= b < len && self.tiles[b].is_stack_of(player));
        assert(self.closed_under_links(same));
        assert forall|b: int| #[trigger] self.field(a).contains(b) implies 0 <= b < len
            && self.tiles[b].is_stack_of(player) by {
            let path = choose|path: Seq<int>| #[trigger]
                self.is_path(path) && path[0] == a && path.last() == b;
            self.lemma_path_stays(path, same, path.len() - 1);
            assert(same.contains(b));
        }
        lemma_int_range(0, len);
        assert forall|b: int| self.field(a).contains(b) implies set_int_range(0, len).contains(
            b,
        ) by {}
        assert(self.field(a).subset_of(set_int_range(0, len)));
        lemma_len_subset(self.field(a), set_int_range(0, len));
        self.lemma_connected_to_itself(a);
        assert forall|b: int, c: int| self.field(a).contains(b) && #[trigger] self.linked(
            b,
            c,
        ) implies self.field(a).contains(c) by {
            self.lemma_connected_step(a, b, c);
        }
    }

    /// The field of a stack inside a field lies inside that field.
    pub proof fn lemma_field_inside(self, a: int, b: int)
        requires
            0 <= a < self.tiles.len(),
            self.tiles[a].is_stack(),
            self.connected(a, b),
        ensures
            self.field(b).subset_of(self.field(a)),
            self.field(b).len() <= self.field(a).len(),
    {
        self.lemma_field(a);
        assert forall|c: int| self.field(b).contains(c) implies self.field(a).contains(c) by {
            let path = choose|path: Seq<int>| #[trigger]
                self.is_path(path) && path[0] == b && path.last() == c;
            self.lemma_path_stays(path, self.field(a), path.len() - 1);
        }
        lemma_len_subset(self.field(b), self.field(a));
    }
}


impl Board {
    /// Marks the connected field of the stack at index `start` as visited
    /// and returns its size.
    fn mark_field(&self, start: usize, visited: &mut Vec<bool>) -> (size: u32)
        requires
            self.wf(),
            start < self.tiles.len(),
            self.tiles[start as int].is_stack(),
            self@.marks_whole_fields(old(visited)@),
            !old(visited)[start as int],
        ensures
            self@.marks_whole_fields(final(visited)@),
            forall|i: int|
                0 <= i < self.tiles.len() ==> #[trigger] final(visited)[i] == (old(visited)[i]
                    || self@.field(start as int).contains(i)),
            size == self@.field(start as int).len(),
    {
        let ghost grid = self@;
        let ghost before = visited@;
        let ghost len = self.tiles.len() as int;
        let player = self.tiles[start].player();
        let mut size: u32 = 0;
        /* Depth-first search for counting the size of a connected field. */
        let mut dfs_stack: Vec<usize> = Vec::new();
        visited.set(start, true);
        dfs_stack.push(start);
        let ghost mut seen: Set<int> = Set::empty().insert(start as int);
        let ghost mut done: Set<int> = Set::empty();
        proof {
            grid.lemma_field(start as int);
            grid.lemma_len();
            lemma_int_range(0, len);
            assert(seen.subset_of(set_int_range(0, len)));
            lemma_len_subset(seen, set_int_range(0, len));
            assert(dfs_stack[0] == start);
            assert(grid.field(start as int).contains(start as int));
        }
        while dfs_stack.len() > 0
            invariant
                self.wf(),
                grid == self@,
                len == self.tiles.len(),
                start < len,
                grid.tiles[start as int].is_stack_of(player),
                grid.marks_whole_fields(before),
                !before[start as int],
                visited.len() == len,
                forall|i: int| 0 <= i < len ==> #[trigger] visited[i] == (before[i] || seen.contains(i)),
                forall|x: int| #[trigger]
                    seen.contains(x) ==> 0 <= x < len && !before[x] && grid.connected(
                        start as int,
                        x,
                    ) && grid.tiles[x].is_stack_of(player),
                forall|j: int|
                    0 <= j < dfs_stack.len() ==> seen.contains(#[trigger] dfs_stack[j] as int)
                        && !done.contains(dfs_stack[j] as int),
                forall|i: int, j: int|
                    0 <= i < j < dfs_stack.len() ==> #[trigger] dfs_stack[i] != #[trigger] dfs_stack[j],
                forall|x: int|
                    seen.contains(x) && !#[trigger] done.contains(x) ==> exists|j: int|
                        0 <= j < dfs_stack.len() && #[trigger] dfs_stack[j] == x,
                forall|x: int| #[trigger] done.contains(x) ==> seen.contains(x),
                seen.finite(),
                done.finite(),
                size == done.len(),
                seen.len() == done.len() + dfs_stack.len(),
                seen.len() <= len,
                len <= MAX_TILES,
                forall|d: int, b: int|
                    done.contains(d) && #[trigger] grid.linked(d, b) ==> seen.contains(b),
                seen.contains(start as int),
            decreases 2 * (len - seen.len()) + dfs_stack.len(),
        {
            let ghost measure = 2 * (len - seen.len()) + dfs_stack.len();
            let ghost stack_before = dfs_stack@;
            let current = dfs_stack.pop().unwrap();
            let ghost finished = done;
            proof {
                assert(current == stack_before[stack_before.len() - 1]);
                assert(seen.contains(current as int));
                done = done.insert(current as int);
                assert forall|x: int| seen.contains(x) && !#[trigger] done.contains(x) implies exists|
                    j: int,
                | 0 <= j < dfs_stack.len() && #[trigger] dfs_stack[j] == x by {
                    assert(!finished.contains(x));
                    let j = choose|j: int| 0 <= j < stack_before.len() && #[trigger] stack_before[j] == x;
                    assert(dfs_stack[j] == x);
                }
                grid.lemma_to_coords(current as int);
            }
            size += 1;
            let current_coords = self.index_to_coords(current);
            let mut k: usize = 0;
            while k < 6
                invariant
                    self.wf(),
                    grid == self@,
                    len == self.tiles.len(),
                    start < len,
                    current < len,
                    coords(current_coords) == grid.to_coords(current as int),
                    grid.in_range(coords(current_coords)),
                    grid.tiles[start as int].is_stack_of(player),
                    grid.tiles[current as int].is_stack_of(player),
                    grid.marks_whole_fields(before),
                    !before[start as int],
                    visited.len() == len,
                    forall|i: int|
                        0 <= i < len ==> #[trigger] visited[i] == (before[i] || seen.contains(i)),
                    forall|x: int| #[trigger]
                        seen.contains(x) ==> 0 <= x < len && !before[x] && grid.connected(
                            start as int,
                            x,
                        ) && grid.tiles[x].is_stack_of(player),
                    seen.contains(current as int),
                    forall|j: int|
                        0 <= j < dfs_stack.len() ==> seen.contains(#[trigger] dfs_stack[j] as int)
                            && !done.contains(dfs_stack[j] as int),
                    forall|i: int, j: int|
                        0 <= i < j < dfs_stack.len() ==> #[trigger] dfs_stack[i]
                            != #[trigger] dfs_stack[j],
                    forall|x: int|
                        seen.contains(x) && !#[trigger] done.contains(x) ==> exists|j: int|
                            0 <= j < dfs_stack.len() && #[trigger] dfs_stack[j] == x,
                    forall|x: int| #[trigger] done.contains(x) ==> seen.contains(x),
                    seen.finite(),
                    done.finite(),
                    done == finished.insert(current as int),
                    size == done.len(),
                    seen.len() == done.len() + dfs_stack.len(),
                    seen.len() <= len,
                    len <= MAX_TILES,
                    forall|d: int, b: int|
                        finished.contains(d) && #[trigger] grid.linked(d, b) ==> seen.contains(b),
                    seen.contains(start as int),
                    k <= 6,
                    forall|m: int|
                        0 <= m < k && grid.in_range(
                            #[trigger] Grid::neighbor(grid.to_coords(current as int), m),
                        ) && grid.index(
                            Grid::neighbor(grid.to_coords(current as int), m),
                        ).is_stack_of(player) ==> seen.contains(
                            grid.to_index(Grid::neighbor(grid.to_coords(current as int), m)),
                        ),
                    2 * (len - seen.len()) + dfs_stack.len() < measure,
                decreases 6 - k,
            {
                proof {
                    grid.lemma_len();
                }
                assert(coords(DIRECTION_OFFSETS[k as int]) == direction_offset(k as int));
                let neighbor_coords = add_offset(current_coords, DIRECTION_OFFSETS[k]);
                let neighbor = self.index(neighbor_coords);
                assert(coords(neighbor_coords) == Grid::neighbor(
                    grid.to_coords(current as int),
                    k as int,
                ));
                if neighbor.is_stack() && neighbor.player() == player {
                    let index = self.coords_to_index(neighbor_coords);
                    proof {
                        grid.lemma_to_index(coords(neighbor_coords));
                        assert(grid.to_coords(index as int) == Grid::neighbor(
                            grid.to_coords(current as int),
                            k as int,
                        ));
                        assert(grid.linked(current as int, index as int));
                        grid.lemma_linked_symmetric(current as int, index as int);
                        grid.lemma_connected_step(start as int, current as int, index as int);
                    }
                    if !visited[index] {
                        let ghost stack_now = dfs_stack@;
                        let ghost seen_now = seen;
                        visited.set(index, true);
                        dfs_stack.push(index);
                        proof {
                            seen = seen.insert(index as int);
                            assert(seen.subset_of(set_int_range(0, len))) by {
                                assert forall|x: int| seen.contains(x) implies set_int_range(
                                    0,
                                    len,
                                ).contains(x) by {}
                            }
                            lemma_int_range(0, len);
                            lemma_len_subset(seen, set_int_range(0, len));
                            assert forall|x: int|
                                seen.contains(x) && !#[trigger] done.contains(x) implies exists|
                                j: int,
                            | 0 <= j < dfs_stack.len() && #[trigger] dfs_stack[j] == x by {
                                if x == index {
                                    assert(dfs_stack[stack_now.len() as int] == x);
                                } else {
                                    let j = choose|j: int|
                                        0 <= j < stack_now.len() && #[trigger] stack_now[j] == x;
                                    assert(dfs_stack[j] == x);
                                }
                            }
                            assert forall|i: int, j: int|
                                0 <= i < j < dfs_stack.len() implies #[trigger] dfs_stack[i]
                                != #[trigger] dfs_stack[j] by {
                                if j == stack_now.len() {
                                    assert(seen_now.contains(stack_now[i] as int));
                                }
                            }
                        }
                    }
                }
                k += 1;
            }
            proof {
                assert forall|d: int, b: int|
                    done.contains(d) && #[trigger] grid.linked(d, b) implies seen.contains(b) by {
                    if d == current {
                        let m = choose|m: int|
                            0 <= m < 6 && grid.to_coords(b) == #[trigger] Grid::neighbor(
                                grid.to_coords(d),
                                m,
                            );
                        grid.lemma_to_coords(b);
                    }
                }
            }
        }
        proof {
            let field = grid.field(start as int);
            assert(grid.closed_under_links(seen)) by {
                assert forall|a: int, b: int|
                    seen.contains(a) && #[trigger] grid.linked(a, b) implies seen.contains(b) by {
                    assert(done.contains(a));
                }
            }
            assert forall|b: int| field.contains(b) implies seen.contains(b) by {
                let path = choose|path: Seq<int>| #[trigger]
                    grid.is_path(path) && path[0] == start as int && path.last() == b;
                grid.lemma_path_stays(path, seen, path.len() - 1);
            }
            assert(seen =~= field);
            assert(done =~= seen);
            assert(grid.marks_whole_fields(visited@)) by {
                assert forall|a: int, b: int|
                    0 <= a < visited.len() && visited[a] && #[trigger] grid.linked(
                        a,
                        b,
                    ) implies visited[b] by {
                    if before[a] {
                        assert(before[b]);
                    } else {
                        assert(field.contains(a));
                        assert(field.contains(b));
                    }
                }
            }
        }
        size
    }

    /// The size of the largest connected field of every player.
    pub fn largest_connected_fields(&self) -> (fields: [u32; 2])
        requires
            self.wf(),
        ensures
            fields[0] == self@.largest_field(Player(0)),
            fields[1] == self@.largest_field(Player(1)),
    {
        let ghost grid = self@;
        let len = self.tiles.len();
        let mut largest_0: u32 = 0;
        let mut largest_1: u32 = 0;
        let mut visited: Vec<bool> = Vec::with_capacity(len);
        let mut i: usize = 0;
        while i < len
            invariant
                i <= len,
                visited.len() == i,
                forall|j: int| 0 <= j < i ==> !#[trigger] visited[j],
            decreases len - i,
        {
            visited.push(false);
            i += 1;
        }
        let mut start: usize = 0;
        while start < len
            invariant
                self.wf(),
                grid == self@,
                len == self.tiles.len(),
                start <= len,
                grid.marks_whole_fields(visited@),
                forall|j: int| 0 <= j < start && grid.tiles[j].is_stack() ==> #[trigger] visited[j],
                forall|j: int|
                    0 <= j < len && #[trigger] visited[j] ==> (grid.tiles[j].is_stack_of(Player(0))
                        ==> grid.field(j).len() <= largest_0) && (grid.tiles[j].is_stack_of(
                        Player(1),
                    ) ==> grid.field(j).len() <= largest_1),
                largest_0 == grid.largest_field_upto(Player(0), start as int),
                largest_1 == grid.largest_field_upto(Player(1), start as int),
            decreases len - start,
        {
            let tile = self.tiles[start];
            if tile.is_stack() && !visited[start] {
                let ghost before = visited@;
                let field_size = self.mark_field(start, &mut visited);
                proof {
                    grid.lemma_field(start as int);
                }
                if tile.player().0 == 0 {
                    if field_size > largest_0 {
                        largest_0 = field_size;
                    }
                } else {
                    if field_size > largest_1 {
                        largest_1 = field_size;
                    }
                }
                proof {
                    assert forall|j: int| 0 <= j < len && #[trigger] visited[j] implies (
                    grid.tiles[j].is_stack_of(Player(0)) ==> grid.field(j).len() <= largest_0) && (
                    grid.tiles[j].is_stack_of(Player(1)) ==> grid.field(j).len() <= largest_1) by {
                        if !before[j] {
                            assert(grid.field(start as int).contains(j));
                            grid.lemma_field_inside(start as int, j);
                        }
                    }
                }
            }
            start += 1;
        }
        [largest_0, largest_1]
    }
}

} // verus!
