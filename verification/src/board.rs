//! The hex board: a square grid of tiles with coordinate arithmetic,
//! hex adjacency and connectivity-based win detection.
//!
//! Black owns the vertical direction (top row to bottom row), White the
//! horizontal one (left column to right column).

use crate::codec::{is_move_chars, move_col, move_row, parse_move};
use crate::text::{push_char, str_eq};
use vstd::prelude::*;

verus! {

/// One cell of the board.
#[derive(Clone, Copy, Debug, PartialEq, Eq, Structural)]
pub enum Tile {
    Black,
    Empty,
    White,
}

impl Tile {
    /// Full name of the tile owner, as shown to the operator.
    pub fn name(&self) -> (r: &'static str)
        ensures
            *self == Tile::Black ==> r@ == "Black"@,
            *self == Tile::White ==> r@ == "White"@,
            *self == Tile::Empty ==> r@ == "Empty"@,
    {
        match self {
            Tile::Black => "Black",
            Tile::White => "White",
            Tile::Empty => "Empty",
        }
    }
}

/// Character standing for a tile in the compact wire format.
pub open spec fn tile_char(t: Tile) -> char {
    match t {
        Tile::Black => 'B',
        Tile::White => 'W',
        Tile::Empty => '.',
    }
}

pub open spec fn is_tile_char(c: char) -> bool {
    c == 'B' || c == 'W' || c == '.'
}

/// Tile denoted by a compact-format character.
pub open spec fn char_tile(c: char) -> Tile {
    if c == 'B' {
        Tile::Black
    } else if c == 'W' {
        Tile::White
    } else {
        Tile::Empty
    }
}

/// Row-major cell index of coordinate (r, c) on a board of side n.
pub open spec fn idx_of(n: int, r: int, c: int) -> int {
    r * n + c
}

pub open spec fn in_bounds(n: int, r: int, c: int) -> bool {
    0 <= r < n && 0 <= c < n
}

/// The grid of a square board with side `n`, all cells empty.
pub open spec fn blank_grid(n: int) -> Seq<Tile> {
    Seq::new((n * n) as nat, |i: int| Tile::Empty)
}

/// A compact board string of side `n`: `n` rows of `n` tile characters,
/// each row closed by a `|`.
pub open spec fn wf_compact_sized(s: Seq<char>, n: int) -> bool {
    &&& 0 <= n
    &&& s.len() == n * (n + 1)
    &&& forall|k: int| 0 <= k < s.len() && k % (n + 1) == n ==> (#[trigger] s[k]) == '|'
    &&& forall|k: int| 0 <= k < s.len() && k % (n + 1) < n ==> is_tile_char(#[trigger] s[k])
}

/// The grid encoded by a compact board string of side `n`.
pub open spec fn compact_grid(s: Seq<char>, n: int) -> Seq<Tile> {
    Seq::new((n * n) as nat, |i: int| char_tile(s[(i / n) * (n + 1) + (i % n)]))
}

/// The compact string of a grid: one character per cell, row-major, a `|`
/// after every row.
pub open spec fn spec_serialize(g: Seq<Tile>, n: int) -> Seq<char> {
    Seq::new(
        (n * (n + 1)) as nat,
        |k: int|
            if k % (n + 1) == n {
                '|'
            } else {
                tile_char(g[(k / (n + 1)) * n + (k % (n + 1))])
            },
    )
}

/// One row of the staggered human rendering: `r` leading spaces, then each
/// tile character followed by a space, then a newline.
pub open spec fn spec_row_render(g: Seq<Tile>, n: int, r: int) -> Seq<char> {
    Seq::new(r as nat, |i: int| ' ') + Seq::new(
        (2 * n) as nat,
        |k: int|
            if k % 2 == 0 {
                tile_char(g[idx_of(n, r, k / 2)])
            } else {
                ' '
            },
    ) + seq!['\n']
}

/// The first `r` rows of the human rendering, concatenated.
pub open spec fn spec_render_rows(g: Seq<Tile>, n: int, r: int) -> Seq<char>
    decreases r,
{
    if r <= 0 {
        Seq::empty()
    } else {
        spec_render_rows(g, n, r - 1) + spec_row_render(g, n, r - 1)
    }
}

/// The operator display of a board: the staggered rows followed by a rule
/// of eighteen dashes.
pub open spec fn spec_render(g: Seq<Tile>, n: int) -> Seq<char> {
    spec_render_rows(g, n, n) + Seq::new(18, |i: int| '-')
}

/// The tile denoted by a compact-format character.
fn c_tile(c: char) -> (t: Tile)
    requires
        is_tile_char(c),
    ensures
        t == char_tile(c),
{
    if c == 'B' {
        Tile::Black
    } else if c == 'W' {
        Tile::White
    } else {
        Tile::Empty
    }
}

/// A compact string determines its side length: it is the position of the
/// first row terminator.
pub proof fn lemma_wf_side_unique(s: Seq<char>, n: int)
    requires
        0 <= n < s.len(),
        s[n] == '|',
        forall|k: int| 0 <= k < n ==> s[k] != '|',
    ensures
        forall|m: int| #[trigger] wf_compact_sized(s, m) ==> m == n,
{
    assert forall|m: int| #[trigger] wf_compact_sized(s, m) implies m == n by {
        if m == 0 {
            assert(s.len() == 0);
        }
        if m < n {
            vstd::arithmetic::div_mod::lemma_fundamental_div_mod_converse(m, m + 1, 0, m);
            assert(m % (m + 1) == m);
            assert(m < s.len());
            assert(s[m] == '|');
        } else if m > n {
            vstd::arithmetic::div_mod::lemma_fundamental_div_mod_converse(n, m + 1, 0, n);
            assert(n % (m + 1) == n);
            assert(is_tile_char(s[n]));
        }
    }
}

/// A square grid of hexagonal cells, stored row-major.
pub struct Board {
    size: usize,
    board: Vec<Tile>,
}

impl Board {
    /// The side length of the board, as a mathematical integer.
    pub closed spec fn side(self) -> int {
        self.size as int
    }

    /// The grid as a row-major sequence of tiles.
    pub closed spec fn grid(self) -> Seq<Tile> {
        self.board@
    }

    /// Every coordinate pair below `side` names exactly one tile.
    pub open spec fn wf(self) -> bool {
        self.grid().len() == self.side() * self.side()
    }

    /// The tile at row `r`, column `c`.
    pub open spec fn at(self, r: int, c: int) -> Tile {
        self.grid()[idx_of(self.side(), r, c)]
    }

    /// A fresh all-empty board of the given side length.
    pub fn new(size: u8) -> (r: Board)
        ensures
            r.wf(),
            r.side() == size as int,
            r.grid() == blank_grid(size as int),
    {
        let n: usize = size as usize;
        proof {
            assert(n * n <= 255 * 255) by (nonlinear_arith)
                requires
                    n <= 255,
            ;
        }
        let count: usize = n * n;
        let mut tiles: Vec<Tile> = Vec::new();
        let mut i: usize = 0;
        while i < count
            invariant
                i <= count,
                tiles@.len() == i,
                forall|k: int| 0 <= k < i ==> tiles@[k] == Tile::Empty,
            decreases count - i,
        {
            tiles.push(Tile::Empty);
            i += 1;
        }
        let r = Board { size: n, board: tiles };
        proof {
            assert(r.grid() =~= blank_grid(size as int));
        }
        r
    }

    /// The tile at the given cell, or `None` when the coordinate is outside
    /// the board.
    pub fn get(&self, row: usize, col: usize) -> (r: Option<Tile>)
        requires
            self.wf(),
        ensures
            in_bounds(self.side(), row as int, col as int) ==> r == Some(
                self.at(row as int, col as int),
            ),
            !in_bounds(self.side(), row as int, col as int) ==> r is None,
    {
        if row < self.size && col < self.size {
            let i = self.coord_to_index(row, col);
            Some(self.board[i])
        } else {
            None
        }
    }

    /// Overwrites the given cell unconditionally; every other cell keeps its
    /// tile.
    pub fn set(&mut self, row: usize, col: usize, color: Tile)
        requires
            old(self).wf(),
            in_bounds(old(self).side(), row as int, col as int),
        ensures
            final(self).wf(),
            final(self).side() == old(self).side(),
            final(self).grid() == old(self).grid().update(
                idx_of(old(self).side(), row as int, col as int),
                color,
            ),
    {
        let i = self.coord_to_index(row, col);
        self.board.set(i, color);
    }

    /// Row-major index of an in-bounds coordinate pair.
    pub fn coord_to_index(&self, r: usize, c: usize) -> (i: usize)
        requires
            self.wf(),
            in_bounds(self.side(), r as int, c as int),
        ensures
            i == idx_of(self.side(), r as int, c as int),
            i < self.grid().len(),
    {
        let len = self.board.len();
        proof {
            lemma_idx_in_range(self.side(), r as int, c as int);
            assert(len == self.side() * self.side());
        }
        r * self.size + c
    }

    /// The row-major indices of all in-bounds hex neighbours of the given
    /// cell, in template order: between two (corner) and six (interior).
    pub fn get_adj(&self, row: usize, column: usize) -> (r: Vec<usize>)
        requires
            self.wf(),
            in_bounds(self.side(), row as int, column as int),
        ensures
            r@.map_values(|x: usize| x as int) == adj_indices(
                self.side(),
                row as int,
                column as int,
            ),
            forall|k: int| 0 <= k < r@.len() ==> (r@[k] as int) < self.grid().len(),
    {
        let n = self.size;
        let mut v: Vec<usize> = Vec::new();
        if column > 0 {
            v.push(self.coord_to_index(row, column - 1));
        }
        if row + 1 < n && column > 0 {
            v.push(self.coord_to_index(row + 1, column - 1));
        }
        if row > 0 {
            v.push(self.coord_to_index(row - 1, column));
        }
        if row + 1 < n {
            v.push(self.coord_to_index(row + 1, column));
        }
        if row > 0 && column + 1 < n {
            v.push(self.coord_to_index(row - 1, column + 1));
        }
        if column + 1 < n {
            v.push(self.coord_to_index(row, column + 1));
        }
        proof {
            assert(v@.map_values(|x: usize| x as int) =~= adj_indices(
                self.side(),
                row as int,
                column as int,
            ));
        }
        v
    }

    /// The coordinate pair of a cell index, or `None` when the index lies
    /// beyond the grid.
    pub fn index_to_coord(&self, i: usize) -> (r: Option<(usize, usize)>)
        requires
            self.wf(),
        ensures
            i < self.grid().len() ==> r == Some(
                ((i as int / self.side()) as usize, (i as int % self.side()) as usize),
            ),
            i >= self.grid().len() ==> r is None,
    {
        if i < self.board.len() {
            proof {
                assert(self.size > 0) by (nonlinear_arith)
                    requires
                        (i as int) < self.side() * self.side(),
                        0 <= i,
                        self.side() == self.size as int,
                ;
            }
            Some((i / self.size, i % self.size))
        } else {
            None
        }
    }

    /// Whether `color` owns a chain of hex-adjacent cells from its start
    /// edge to its end edge, by an iterative depth-first search with an
    /// explicit work stack and a marked-cell array.
    #[verifier::loop_isolation(false)]
    #[verifier::rlimit(60)]
    fn has_path(&self, color: Tile) -> (r: bool)
        requires
            self.wf(),
            color != Tile::Empty,
        ensures
            r == has_winning_path(self.grid(), self.side(), color),
    {
        let ghost g = self.grid();
        let ghost ni = self.side();
        let n = self.size;
        if n == 0 {
            proof {
                if has_winning_path(g, ni, color) {
                    let (er, ec): (int, int) = choose|er: int, ec: int|
                        #![auto]
                        reaches(g, ni, color, er, ec) && end_ok(ni, color, er, ec);
                    let p = choose|p: Seq<(int, int)>| connects(g, ni, color, p, er, ec);
                    assert(in_bounds(ni, p[0].0, p[0].1));
                }
            }
            return false;
        }
        let len = self.board.len();
        let mut visited: Vec<bool> = Vec::new();
        let mut i: usize = 0;
        while i < len
            invariant
                i <= len,
                visited@.len() == i,
                forall|k: int| 0 <= k < i ==> !(#[trigger] visited@[k]),
            decreases len - i,
        {
            visited.push(false);
            i += 1;
        }
        let mut stack: Vec<usize> = Vec::new();
        // Seed with the coloured cells of this colour's start edge.
        let mut j: usize = 0;
        while j < n
            invariant
                j <= n,
                visited@.len() == len,
                dfs_core(g, ni, color, visited@, stack@),
                dfs_closed(g, ni, color, visited@, stack@),
                forall|jj: int|
                    #![trigger seed_idx(ni, color, jj)]
                    0 <= jj < j && g[seed_idx(ni, color, jj)] == color ==> visited@[seed_idx(
                        ni,
                        color,
                        jj,
                    )],
            decreases n - j,
        {
            let (sr, sc): (usize, usize) = if color == Tile::Black {
                (0, j)
            } else {
                (j, 0)
            };
            let si = self.coord_to_index(sr, sc);
            if self.board[si] == color && !visited[si] {
                let ghost visited0 = visited@;
                let ghost stack0 = stack@;
                visited.set(si, true);
                stack.push(si);
                proof {
                    lemma_reaches_start(g, ni, color, sr as int, sc as int);
                    vstd::arithmetic::div_mod::lemma_fundamental_div_mod_converse(
                        si as int,
                        ni,
                        sr as int,
                        sc as int,
                    );
                    assert(stack@[stack@.len() - 1] == si);
                    assert(in_stack(stack@, si as int));
                    assert forall|i2: int|
                        0 <= i2 < ni * ni && #[trigger] visited@[i2] && !in_stack(
                            stack@,
                            i2,
                        ) implies !end_ok(ni, color, i2 / ni, i2 % ni) && neighbours_visited(
                        g,
                        ni,
                        color,
                        visited@,
                        i2 / ni,
                        i2 % ni,
                    ) by {
                        assert(i2 != si as int);
                        assert(visited0[i2]);
                        if in_stack(stack0, i2) {
                            let k = choose|k: int|
                                0 <= k < stack0.len() && stack0[k] as int == i2;
                            assert(stack@[k] as int == i2);
                            assert(in_stack(stack@, i2));
                        }
                        assert(!in_stack(stack0, i2));
                        assert(neighbours_visited(g, ni, color, visited0, i2 / ni, i2 % ni));
                        assert forall|r2: int, c2: int|
                            in_bounds(ni, r2, c2) && #[trigger] hex_adjacent(
                                i2 / ni,
                                i2 % ni,
                                r2,
                                c2,
                            ) && g[idx_of(ni, r2, c2)] == color implies visited@[idx_of(
                            ni,
                            r2,
                            c2,
                        )] by {
                            lemma_idx_in_range(ni, r2, c2);
                            assert(visited0[idx_of(ni, r2, c2)]);
                        }
                        assert(neighbours_visited(g, ni, color, visited@, i2 / ni, i2 % ni));
                    }
                    assert(seed_idx(ni, color, j as int) == si as int);
                    assert forall|jj: int|
                        #![trigger seed_idx(ni, color, jj)]
                        0 <= jj < j + 1 && g[seed_idx(ni, color, jj)]
                            == color implies visited@[seed_idx(ni, color, jj)] by {
                        if color == Tile::Black {
                            lemma_idx_in_range(ni, 0, jj);
                        } else {
                            lemma_idx_in_range(ni, jj, 0);
                        }
                        if jj < j {
                            assert(visited0[seed_idx(ni, color, jj)]);
                        } else {
                            assert(seed_idx(ni, color, jj) == si as int);
                        }
                    }
                }
            } else {
                proof {
                    assert(seed_idx(ni, color, j as int) == si as int);
                }
            }
            j += 1;
        }
        // Expand until the stack empties or the end edge is reached.
        while stack.len() > 0
            invariant
                visited@.len() == len,
                dfs_core(g, ni, color, visited@, stack@),
                dfs_closed(g, ni, color, visited@, stack@),
                seeds_done(g, ni, color, visited@),
            decreases count_false(visited@) + stack@.len(),
        {
            let ghost m0 = count_false(visited@) + stack@.len();
            let ghost stack_pre = stack@;
            let cur = stack.pop().unwrap();
            proof {
                assert(stack_pre[stack_pre.len() - 1] == cur);
                assert((cur as int) < ni * ni && visited@[cur as int]);
            }
            let rr = cur / n;
            let cc = cur % n;
            proof {
                lemma_coords_of_index(ni, cur as int);
            }
            if (color == Tile::Black && rr == n - 1) || (color != Tile::Black && cc == n - 1) {
                proof {
                    assert(reaches(g, ni, color, rr as int, cc as int));
                    assert(end_ok(ni, color, rr as int, cc as int));
                    assert(has_winning_path(g, ni, color));
                }
                return true;
            }
            let ghost visited0 = visited@;
            let ghost stack0 = stack@;
            proof {
                // dropping the popped cell from the stack keeps every other
                // marked off-stack cell closed
                assert forall|i2: int|
                    0 <= i2 < ni * ni && #[trigger] visited@[i2] && !in_stack(stack@, i2) && i2
                        != cur as int implies !end_ok(ni, color, i2 / ni, i2 % ni)
                    && neighbours_visited(g, ni, color, visited@, i2 / ni, i2 % ni) by {
                    if in_stack(stack_pre, i2) {
                        let k = choose|k: int|
                            0 <= k < stack_pre.len() && stack_pre[k] as int == i2;
                        assert(k < stack_pre.len() - 1);
                        assert(stack@[k] as int == i2);
                        assert(in_stack(stack@, i2));
                    }
                    assert(!in_stack(stack_pre, i2));
                }
            }
            let adj = self.get_adj(rr, cc);
            let mut a: usize = 0;
            while a < adj.len()
                invariant
                    a <= adj@.len(),
                    visited@.len() == len,
                    dfs_core(g, ni, color, visited@, stack@),
                    dfs_closed_except(g, ni, color, visited@, stack@, cur as int),
                    seeds_done(g, ni, color, visited@),
                    forall|i2: int| 0 <= i2 < ni * ni && visited0[i2] ==> #[trigger] visited@[i2],
                    forall|i2: int| #[trigger] in_stack(stack0, i2) ==> in_stack(stack@, i2),
                    forall|i2: int|
                        0 <= i2 < ni * ni && #[trigger] visited@[i2] && !visited0[i2] ==> in_stack(
                            stack@,
                            i2,
                        ),
                    forall|k: int|
                        0 <= k < a ==> (g[(#[trigger] adj@[k]) as int] == color ==> visited@[adj@[k] as int]),
                    count_false(visited@) + stack@.len() <= count_false(visited0) + stack0.len(),
                decreases adj@.len() - a,
            {
                let t = adj[a];
                if self.board[t] != color || !visited[t] {
                    // nothing to expand through this neighbour
                    if self.board[t] == color && !visited[t] {
                        let ghost visited1 = visited@;
                        let ghost stack1 = stack@;
                        visited.set(t, true);
                        stack.push(t);
                        proof {
                            lemma_count_false_update(visited1, t as int);
                            lemma_adj_sound(ni, rr as int, cc as int, a as int);
                            let (r2, c2): (int, int) = choose|r2: int, c2: int|
                                in_bounds(ni, r2, c2) && #[trigger] hex_adjacent(
                                    rr as int,
                                    cc as int,
                                    r2,
                                    c2,
                                ) && adj_indices(ni, rr as int, cc as int)[a as int] == idx_of(
                                    ni,
                                    r2,
                                    c2,
                                );
                            assert(adj@.map_values(|x: usize| x as int)[a as int] == t as int);
                            assert(t as int == idx_of(ni, r2, c2));
                            vstd::arithmetic::div_mod::lemma_fundamental_div_mod_converse(
                                t as int,
                                ni,
                                r2,
                                c2,
                            );
                            lemma_reaches_step(g, ni, color, rr as int, cc as int, r2, c2);
                            assert(stack@[stack@.len() - 1] == t);
                            assert(in_stack(stack@, t as int));
                            assert forall|i2: int|
                                0 <= i2 < ni * ni && #[trigger] visited@[i2] && !in_stack(
                                    stack@,
                                    i2,
                                ) && i2 != cur as int implies !end_ok(ni, color, i2 / ni, i2 % ni)
                                && neighbours_visited(g, ni, color, visited@, i2 / ni, i2 % ni) by {
                                assert(i2 != t as int);
                                assert(visited1[i2]);
                                if in_stack(stack1, i2) {
                                    let k = choose|k: int|
                                        0 <= k < stack1.len() && stack1[k] as int == i2;
                                    assert(stack@[k] as int == i2);
                                    assert(in_stack(stack@, i2));
                                }
                                assert(!in_stack(stack1, i2));
                                assert(neighbours_visited(g, ni, color, visited1, i2 / ni, i2 % ni));
                                assert forall|r3: int, c3: int|
                                    in_bounds(ni, r3, c3) && #[trigger] hex_adjacent(
                                        i2 / ni,
                                        i2 % ni,
                                        r3,
                                        c3,
                                    ) && g[idx_of(ni, r3, c3)] == color implies visited@[idx_of(
                                    ni,
                                    r3,
                                    c3,
                                )] by {
                                    lemma_idx_in_range(ni, r3, c3);
                                    assert(visited1[idx_of(ni, r3, c3)]);
                                }
                                assert(neighbours_visited(g, ni, color, visited@, i2 / ni, i2 % ni));
                            }
                            assert forall|jj: int|
                                #![trigger seed_idx(ni, color, jj)]
                                0 <= jj < ni && g[seed_idx(ni, color, jj)]
                                    == color implies visited@[seed_idx(ni, color, jj)] by {
                                if color == Tile::Black {
                                    lemma_idx_in_range(ni, 0, jj);
                                } else {
                                    lemma_idx_in_range(ni, jj, 0);
                                }
                                assert(visited1[seed_idx(ni, color, jj)]);
                            }
                            assert(seeds_done(g, ni, color, visited@));
                            assert forall|i2: int| in_stack(stack1, i2) implies in_stack(
                                stack@,
                                i2,
                            ) by {
                                let k = choose|k: int|
                                    0 <= k < stack1.len() && stack1[k] as int == i2;
                                assert(stack@[k] as int == i2);
                            }
                        }
                    }
                }
                a += 1;
            }
            proof {
                // cur is now fully expanded: every coloured in-bounds
                // neighbour was marked by the loop above
                assert forall|r2: int, c2: int|
                    in_bounds(ni, r2, c2) && #[trigger] hex_adjacent(rr as int, cc as int, r2, c2)
                        && g[idx_of(ni, r2, c2)] == color implies visited@[idx_of(ni, r2, c2)] by {
                    lemma_adj_complete(ni, rr as int, cc as int, r2, c2);
                    let s = adj_indices(ni, rr as int, cc as int);
                    let k = choose|k: int| 0 <= k < s.len() && s[k] == idx_of(ni, r2, c2);
                    assert(adj@.map_values(|x: usize| x as int)[k] == s[k]);
                    assert((adj@[k] as int) == idx_of(ni, r2, c2));
                }
                assert(neighbours_visited(g, ni, color, visited@, rr as int, cc as int));
                assert(!end_ok(ni, color, cur as int / ni, cur as int % ni));
                assert forall|i2: int|
                    0 <= i2 < ni * ni && #[trigger] visited@[i2] && !in_stack(
                        stack@,
                        i2,
                    ) implies !end_ok(ni, color, i2 / ni, i2 % ni) && neighbours_visited(
                    g,
                    ni,
                    color,
                    visited@,
                    i2 / ni,
                    i2 % ni,
                ) by {
                    if i2 == cur as int {
                        assert(neighbours_visited(g, ni, color, visited@, i2 / ni, i2 % ni));
                    } else {
                        assert(dfs_closed_except(g, ni, color, visited@, stack@, cur as int));
                    }
                }
                assert(count_false(visited@) + stack@.len() < m0);
            }
        }
        proof {
            if has_winning_path(g, ni, color) {
                let (er, ec): (int, int) = choose|er: int, ec: int|
                    #![auto]
                    reaches(g, ni, color, er, ec) && end_ok(ni, color, er, ec);
                let p = choose|p: Seq<(int, int)>| connects(g, ni, color, p, er, ec);
                let r0 = p[0].0;
                let c0 = p[0].1;
                lemma_idx_in_range(ni, r0, c0);
                if color == Tile::Black {
                    assert(seed_idx(ni, color, c0) == idx_of(ni, r0, c0));
                } else {
                    assert(seed_idx(ni, color, r0) == idx_of(ni, r0, c0));
                }
                assert(visited@[idx_of(ni, r0, c0)]);
                assert forall|i2: int| 0 <= i2 < ni * ni && #[trigger] visited@[i2] implies
                    neighbours_visited(g, ni, color, visited@, i2 / ni, i2 % ni) by {
                    assert(!in_stack(stack@, i2));
                }
                lemma_path_confined(g, ni, color, visited@, p, p.len() - 1);
                let il = idx_of(ni, er, ec);
                assert(p[p.len() - 1] == (er, ec));
                lemma_idx_in_range(ni, er, ec);
                vstd::arithmetic::div_mod::lemma_fundamental_div_mod_converse(il, ni, er, ec);
                assert(!in_stack(stack@, il));
                assert(!end_ok(ni, color, il / ni, il % ni));
                assert(false);
            }
        }
        false
    }

    /// Reads a compact board string; `None` exactly when the string is not
    /// well formed for any side length.
    #[verifier::loop_isolation(false)]
    #[verifier::rlimit(60)]
    pub fn parse_compact(s: &str) -> (r: Option<Board>)
        ensures
            match r {
                Some(b) => b.wf() && wf_compact_sized(s@, b.side()) && b.grid() == compact_grid(
                    s@,
                    b.side(),
                ),
                None => forall|m: int| !wf_compact_sized(s@, m),
            },
    {
        let len = s.unicode_len();
        if len == 0 {
            let b = Board { size: 0, board: Vec::new() };
            proof {
                assert(wf_compact_sized(s@, 0));
                assert(b.grid() =~= compact_grid(s@, 0));
            }
            return Some(b);
        }
        // the first row terminator fixes the side length
        let mut n: usize = 0;
        while n < len && s.get_char(n) != '|'
            invariant
                n <= len,
                forall|k: int| 0 <= k < n ==> s@[k] != '|',
            decreases len - n,
        {
            n += 1;
        }
        if n == len {
            proof {
                assert forall|m: int| !wf_compact_sized(s@, m) by {
                    if wf_compact_sized(s@, m) {
                        if m == 0 {
                            assert(s@.len() == 0);
                        }
                        assert(m >= 1);
                        assert(m < m * (m + 1)) by (nonlinear_arith)
                            requires
                                m >= 1,
                        ;
                        vstd::arithmetic::div_mod::lemma_fundamental_div_mod_converse(
                            m,
                            m + 1,
                            0,
                            m,
                        );
                        assert(s@[m] == '|');
                    }
                }
            }
            return None;
        }
        proof {
            lemma_wf_side_unique(s@, n as int);
        }
        let ghost ni = n as int;
        let mut tiles: Vec<Tile> = Vec::new();
        let mut rows: usize = 0;
        let mut pos: usize = 0;
        while pos < len
            invariant
                pos as int == rows as int * (ni + 1),
                pos <= len,
                tiles@.len() == rows as int * ni,
                forall|i: int|
                    0 <= i < tiles@.len() ==> tiles@[i] == char_tile(
                        s@[(i / ni) * (ni + 1) + (i % ni)],
                    ),
                forall|k: int|
                    0 <= k < pos && k % (ni + 1) == ni ==> (#[trigger] s@[k]) == '|',
                forall|k: int|
                    0 <= k < pos && k % (ni + 1) < ni ==> is_tile_char(#[trigger] s@[k]),
            decreases len - pos,
        {
            if len - pos < n + 1 {
                proof {
                    // the tail is shorter than one full row, so the length
                    // is strictly between two multiples of the row width
                    if wf_compact_sized(s@, ni) {
                        assert(len as int == ni * (ni + 1));
                        assert(rows as int * (ni + 1) < ni * (ni + 1));
                        assert((rows as int + 1) * (ni + 1) == rows as int * (ni + 1) + (ni + 1))
                            by (nonlinear_arith);
                        assert(ni * (ni + 1) < (rows as int + 1) * (ni + 1));
                        assert((rows as int) < ni) by (nonlinear_arith)
                            requires
                                rows as int * (ni + 1) < ni * (ni + 1),
                                ni + 1 > 0,
                        ;
                        assert(ni < rows as int + 1) by (nonlinear_arith)
                            requires
                                ni * (ni + 1) < (rows as int + 1) * (ni + 1),
                                ni + 1 > 0,
                        ;
                    }
                    assert(!wf_compact_sized(s@, ni));
                }
                return None;
            }
            let ghost pos0 = pos as int;
            let mut col: usize = 0;
            let mut bad = false;
            while col < n
                invariant
                    col <= n,
                    !bad ==> tiles@.len() == rows as int * ni + col,
                    !bad ==> forall|i: int|
                        0 <= i < tiles@.len() ==> tiles@[i] == char_tile(
                            s@[(i / ni) * (ni + 1) + (i % ni)],
                        ),
                    !bad ==> forall|k: int|
                        pos0 <= k < pos0 + col ==> is_tile_char(#[trigger] s@[k]),
                    bad ==> (exists|k: int|
                        pos0 <= k < pos0 + ni && !is_tile_char(#[trigger] s@[k]) && k % (ni + 1)
                            < ni),
                decreases n - col,
            {
                let c = s.get_char(pos + col);
                if c == 'B' || c == 'W' || c == '.' {
                    if !bad {
                        tiles.push(c_tile(c));
                        proof {
                            let i = rows as int * ni + col;
                            vstd::arithmetic::div_mod::lemma_fundamental_div_mod_converse(
                                i,
                                ni,
                                rows as int,
                                col as int,
                            );
                            assert((i / ni) * (ni + 1) + (i % ni) == pos0 + col);
                        }
                    }
                } else {
                    proof {
                        let k = pos0 + col;
                        vstd::arithmetic::div_mod::lemma_fundamental_div_mod_converse(
                            k,
                            ni + 1,
                            rows as int,
                            col as int,
                        );
                        assert(!is_tile_char(s@[k]) && k % (ni + 1) < ni);
                    }
                    bad = true;
                }
                col += 1;
            }
            if bad {
                proof {
                    let k = choose|k: int|
                        pos0 <= k < pos0 + ni && !is_tile_char(#[trigger] s@[k]) && k % (ni + 1)
                            < ni;
                    if wf_compact_sized(s@, ni) {
                        assert(is_tile_char(s@[k]));
                    }
                    assert(!wf_compact_sized(s@, ni));
                }
                return None;
            }
            let barc = s.get_char(pos + n);
            if barc != '|' {
                proof {
                    let k = pos0 + ni;
                    vstd::arithmetic::div_mod::lemma_fundamental_div_mod_converse(
                        k,
                        ni + 1,
                        rows as int,
                        ni,
                    );
                    if wf_compact_sized(s@, ni) {
                        assert(s@[k] == '|');
                    }
                    assert(!wf_compact_sized(s@, ni));
                }
                return None;
            }
            proof {
                assert(rows as int <= pos0) by (nonlinear_arith)
                    requires
                        pos0 == rows as int * (ni + 1),
                        ni >= 0,
                        rows >= 0,
                ;
            }
            pos += n + 1;
            rows += 1;
            proof {
                assert(pos as int == rows as int * (ni + 1)) by (nonlinear_arith)
                    requires
                        pos as int == pos0 + ni + 1,
                        pos0 == (rows as int - 1) * (ni + 1),
                ;
                assert(rows as int * ni == (rows as int - 1) * ni + ni) by (nonlinear_arith);
                assert forall|k: int|
                    0 <= k < pos && k % (ni + 1) == ni implies (#[trigger] s@[k]) == '|' by {
                    if pos0 <= k < pos0 + ni {
                        vstd::arithmetic::div_mod::lemma_fundamental_div_mod_converse(
                            k,
                            ni + 1,
                            rows as int - 1,
                            k - pos0,
                        );
                    }
                }
                assert forall|k: int|
                    0 <= k < pos && k % (ni + 1) < ni implies is_tile_char(#[trigger] s@[k]) by {
                    if k == pos0 + ni {
                        vstd::arithmetic::div_mod::lemma_fundamental_div_mod_converse(
                            k,
                            ni + 1,
                            rows as int - 1,
                            ni,
                        );
                    }
                }
            }
        }
        if rows != n {
            proof {
                if wf_compact_sized(s@, ni) {
                    assert(rows as int * (ni + 1) == ni * (ni + 1));
                    assert(rows as int == ni) by (nonlinear_arith)
                        requires
                            rows as int * (ni + 1) == ni * (ni + 1),
                            ni + 1 > 0,
                    ;
                }
                assert(!wf_compact_sized(s@, ni));
            }
            return None;
        }
        let b = Board { size: n, board: tiles };
        proof {
            assert(wf_compact_sized(s@, ni));
            assert(b.wf());
            assert(b.grid() =~= compact_grid(s@, ni));
        }
        Some(b)
    }

    /// Reads a compact board string that is known to be well formed; the
    /// board it denotes.
    pub fn from(compressed: &str) -> (r: Board)
        requires
            exists|m: int| wf_compact_sized(compressed@, m),
        ensures
            r.wf(),
            wf_compact_sized(compressed@, r.side()),
            r.grid() == compact_grid(compressed@, r.side()),
    {
        let b = Board::parse_compact(compressed);
        proof {
            if b is None {
                let m = choose|m: int| wf_compact_sized(compressed@, m);
                assert(!wf_compact_sized(compressed@, m));
            }
        }
        b.unwrap()
    }

    /// The compact wire form of the board, as the bots report it.
    #[verifier::loop_isolation(false)]
    pub fn serialize(&self) -> (r: String)
        requires
            self.wf(),
        ensures
            r@ == spec_serialize(self.grid(), self.side()),
    {
        let ghost g = self.grid();
        let ghost ni = self.side();
        let n = self.size;
        let mut s = String::new();
        let mut row: usize = 0;
        while row < n
            invariant
                row <= n,
                s@.len() == row as int * (ni + 1),
                forall|k: int| 0 <= k < s@.len() ==> s@[k] == spec_serialize(g, ni)[k],
            decreases n - row,
        {
            let mut col: usize = 0;
            while col < n
                invariant
                    col <= n,
                    s@.len() == row as int * (ni + 1) + col,
                    forall|k: int| 0 <= k < s@.len() ==> s@[k] == spec_serialize(g, ni)[k],
                decreases n - col,
            {
                let i = self.coord_to_index(row, col);
                let c = match self.board[i] {
                    Tile::Black => 'B',
                    Tile::White => 'W',
                    Tile::Empty => '.',
                };
                push_char(&mut s, c);
                proof {
                    let k = row as int * (ni + 1) + col;
                    vstd::arithmetic::div_mod::lemma_fundamental_div_mod_converse(
                        k,
                        ni + 1,
                        row as int,
                        col as int,
                    );
                    assert(0 <= k < ni * (ni + 1)) by (nonlinear_arith)
                        requires
                            0 <= row < ni,
                            0 <= col < ni,
                            k == row * (ni + 1) + col,
                    ;
                    assert(spec_serialize(g, ni)[k] == tile_char(g[idx_of(ni, row as int, col as int)]));
                }
                col += 1;
            }
            push_char(&mut s, '|');
            proof {
                let k = row as int * (ni + 1) + ni;
                vstd::arithmetic::div_mod::lemma_fundamental_div_mod_converse(
                    k,
                    ni + 1,
                    row as int,
                    ni,
                );
                assert(0 <= k < ni * (ni + 1)) by (nonlinear_arith)
                    requires
                        0 <= row < ni,
                        k == row * (ni + 1) + ni,
                ;
                assert(spec_serialize(g, ni)[k] == '|');
                assert((row as int + 1) * (ni + 1) == row as int * (ni + 1) + ni + 1)
                    by (nonlinear_arith);
            }
            row += 1;
        }
        proof {
            assert(s@ =~= spec_serialize(g, ni));
        }
        s
    }

    /// The cell index a move string names on this board; `None` when the
    /// string does not match the move grammar or names a cell outside the
    /// board.
    pub fn move_to_index(&self, mv: &str) -> (r: Option<usize>)
        requires
            self.wf(),
        ensures
            match r {
                Some(i) => is_move_chars(mv@) && in_bounds(
                    self.side(),
                    move_row(mv@),
                    move_col(mv@),
                ) && i as int == idx_of(self.side(), move_row(mv@), move_col(mv@)),
                None => !is_move_chars(mv@) || !in_bounds(
                    self.side(),
                    move_row(mv@),
                    move_col(mv@),
                ),
            },
    {
        match parse_move(mv) {
            None => None,
            Some((row, col)) => {
                if row < self.size && col < self.size {
                    Some(self.coord_to_index(row, col))
                } else {
                    None
                }
            },
        }
    }

    /// A move string this board accepts: the swap token, or a grammatical
    /// move naming an in-bounds empty cell.
    pub open spec fn spec_valid_move(self, s: Seq<char>) -> bool {
        ||| s == "swap"@
        ||| (is_move_chars(s) && in_bounds(self.side(), move_row(s), move_col(s)) && self.at(
            move_row(s),
            move_col(s),
        ) == Tile::Empty)
    }

    /// Whether the given move may be played on this board.  The swap token
    /// is always well formed here; whether swapping is allowed at this
    /// point of the match is the controller's rule, not the board's.
    pub fn is_valid_move(&self, mv: &str) -> (r: bool)
        requires
            self.wf(),
        ensures
            r == self.spec_valid_move(mv@),
    {
        if str_eq(mv, "swap") {
            return true;
        }
        match self.move_to_index(mv) {
            None => false,
            Some(i) => {
                proof {
                    lemma_idx_in_range(self.side(), move_row(mv@), move_col(mv@));
                }
                self.board[i] == Tile::Empty
            },
        }
    }

    /// Plays a move: the swap token leaves the board unchanged, any other
    /// move overwrites the cell it names with `color`.
    pub fn set_move(&mut self, mv: &str, color: Tile)
        requires
            old(self).wf(),
            mv@ == "swap"@ || (is_move_chars(mv@) && in_bounds(
                old(self).side(),
                move_row(mv@),
                move_col(mv@),
            )),
        ensures
            final(self).wf(),
            final(self).side() == old(self).side(),
            mv@ == "swap"@ ==> final(self).grid() == old(self).grid(),
            mv@ != "swap"@ ==> final(self).grid() == old(self).grid().update(
                idx_of(old(self).side(), move_row(mv@), move_col(mv@)),
                color,
            ),
    {
        if str_eq(mv, "swap") {
            return ;
        }
        let i = self.move_to_index(mv).unwrap();
        proof {
            lemma_idx_in_range(self.side(), move_row(mv@), move_col(mv@));
        }
        self.board.set(i, color);
    }

    /// The operator display of the board: staggered rows that suggest the
    /// hex layout, closed by a dashed rule.
    #[verifier::loop_isolation(false)]
    pub fn render(&self) -> (r: String)
        requires
            self.wf(),
        ensures
            r@ == spec_render(self.grid(), self.side()),
    {
        let ghost g = self.grid();
        let ghost ni = self.side();
        let n = self.size;
        let mut s = String::new();
        let mut row: usize = 0;
        while row < n
            invariant
                row <= n,
                s@ == spec_render_rows(g, ni, row as int),
            decreases n - row,
        {
            let ghost base = s@;
            let mut k: usize = 0;
            while k < row
                invariant
                    k <= row,
                    s@ == base + Seq::new(k as nat, |i: int| ' '),
                decreases row - k,
            {
                push_char(&mut s, ' ');
                proof {
                    assert(s@ =~= base + Seq::new((k + 1) as nat, |i: int| ' '));
                }
                k += 1;
            }
            let ghost cellpat = Seq::new(
                (2 * ni) as nat,
                |k: int|
                    if k % 2 == 0 {
                        tile_char(g[idx_of(ni, row as int, k / 2)])
                    } else {
                        ' '
                    },
            );
            let ghost base2 = s@;
            let mut col: usize = 0;
            while col < n
                invariant
                    col <= n,
                    s@ == base2 + cellpat.subrange(0, 2 * col as int),
                decreases n - col,
            {
                let i = self.coord_to_index(row, col);
                let c = match self.board[i] {
                    Tile::Black => 'B',
                    Tile::White => 'W',
                    Tile::Empty => '.',
                };
                push_char(&mut s, c);
                push_char(&mut s, ' ');
                proof {
                    vstd::arithmetic::div_mod::lemma_fundamental_div_mod_converse(
                        2 * col as int,
                        2,
                        col as int,
                        0,
                    );
                    vstd::arithmetic::div_mod::lemma_fundamental_div_mod_converse(
                        2 * col as int + 1,
                        2,
                        col as int,
                        1,
                    );
                    assert(cellpat[2 * col as int] == c);
                    assert(cellpat[2 * col as int + 1] == ' ');
                    assert(s@ =~= base2 + cellpat.subrange(0, 2 * (col + 1) as int));
                }
                col += 1;
            }
            push_char(&mut s, '\n');
            proof {
                assert(cellpat.subrange(0, 2 * ni) =~= cellpat);
                assert(s@ =~= spec_render_rows(g, ni, row as int) + spec_row_render(
                    g,
                    ni,
                    row as int,
                ));
                assert(s@ == spec_render_rows(g, ni, row as int + 1));
            }
            row += 1;
        }
        let ghost base3 = s@;
        let mut d: usize = 0;
        while d < 18
            invariant
                d <= 18,
                s@ == base3 + Seq::new(d as nat, |i: int| '-'),
            decreases 18 - d,
        {
            push_char(&mut s, '-');
            proof {
                assert(s@ =~= base3 + Seq::new((d + 1) as nat, |i: int| '-'));
            }
            d += 1;
        }
        proof {
            assert(s@ =~= spec_render(g, ni));
        }
        s
    }

    /// Whether Black connects the top row to the bottom row.
    pub fn is_black_win(&self) -> (r: bool)
        requires
            self.wf(),
        ensures
            r == has_winning_path(self.grid(), self.side(), Tile::Black),
    {
        self.has_path(Tile::Black)
    }

    /// Whether White connects the left column to the right column.
    pub fn is_white_win(&self) -> (r: bool)
        requires
            self.wf(),
        ensures
            r == has_winning_path(self.grid(), self.side(), Tile::White),
    {
        self.has_path(Tile::White)
    }

    /// The colour of the player with an edge-to-edge chain, `Empty` when
    /// there is none; Black is tested first.
    pub fn has_win(&self) -> (r: Tile)
        requires
            self.wf(),
        ensures
            r == spec_winner(self.grid(), self.side()),
    {
        if self.is_black_win() {
            Tile::Black
        } else if self.is_white_win() {
            Tile::White
        } else {
            Tile::Empty
        }
    }
}

/// The axial-hex neighbourhood: six fixed offsets, not the four- or
/// eight-neighbour rule of a square grid.
pub open spec fn hex_adjacent(r1: int, c1: int, r2: int, c2: int) -> bool {
    ||| (r2 == r1 && c2 == c1 - 1)
    ||| (r2 == r1 + 1 && c2 == c1 - 1)
    ||| (r2 == r1 - 1 && c2 == c1)
    ||| (r2 == r1 + 1 && c2 == c1)
    ||| (r2 == r1 - 1 && c2 == c1 + 1)
    ||| (r2 == r1 && c2 == c1 + 1)
}

/// The row-major indices of the in-bounds hex neighbours of (r, c), in the
/// fixed template order.
pub open spec fn adj_indices(n: int, r: int, c: int) -> Seq<int> {
    let t0: Seq<int> = if in_bounds(n, r, c - 1) {
        seq![idx_of(n, r, c - 1)]
    } else {
        seq![]
    };
    let t1: Seq<int> = if in_bounds(n, r + 1, c - 1) {
        seq![idx_of(n, r + 1, c - 1)]
    } else {
        seq![]
    };
    let t2: Seq<int> = if in_bounds(n, r - 1, c) {
        seq![idx_of(n, r - 1, c)]
    } else {
        seq![]
    };
    let t3: Seq<int> = if in_bounds(n, r + 1, c) {
        seq![idx_of(n, r + 1, c)]
    } else {
        seq![]
    };
    let t4: Seq<int> = if in_bounds(n, r - 1, c + 1) {
        seq![idx_of(n, r - 1, c + 1)]
    } else {
        seq![]
    };
    let t5: Seq<int> = if in_bounds(n, r, c + 1) {
        seq![idx_of(n, r, c + 1)]
    } else {
        seq![]
    };
    t0 + t1 + t2 + t3 + t4 + t5
}

/// Every entry of `adj_indices` is the index of an in-bounds cell
/// hex-adjacent to (r, c).
pub proof fn lemma_adj_sound(n: int, r: int, c: int, k: int)
    requires
        in_bounds(n, r, c),
        0 <= k < adj_indices(n, r, c).len(),
    ensures
        exists|r2: int, c2: int|
            in_bounds(n, r2, c2) && #[trigger] hex_adjacent(r, c, r2, c2) && adj_indices(n, r, c)[k]
                == idx_of(n, r2, c2),
{
    let s = adj_indices(n, r, c);
    if s[k] == idx_of(n, r, c - 1) && in_bounds(n, r, c - 1) && hex_adjacent(r, c, r, c - 1) {
    } else if s[k] == idx_of(n, r + 1, c - 1) && in_bounds(n, r + 1, c - 1) && hex_adjacent(
        r,
        c,
        r + 1,
        c - 1,
    ) {
    } else if s[k] == idx_of(n, r - 1, c) && in_bounds(n, r - 1, c) && hex_adjacent(
        r,
        c,
        r - 1,
        c,
    ) {
    } else if s[k] == idx_of(n, r + 1, c) && in_bounds(n, r + 1, c) && hex_adjacent(
        r,
        c,
        r + 1,
        c,
    ) {
    } else if s[k] == idx_of(n, r - 1, c + 1) && in_bounds(n, r - 1, c + 1) && hex_adjacent(
        r,
        c,
        r - 1,
        c + 1,
    ) {
    } else {
        assert(s[k] == idx_of(n, r, c + 1) && in_bounds(n, r, c + 1));
        assert(hex_adjacent(r, c, r, c + 1));
    }
}

/// Every in-bounds cell hex-adjacent to (r, c) appears in `adj_indices`.
pub proof fn lemma_adj_complete(n: int, r: int, c: int, r2: int, c2: int)
    requires
        in_bounds(n, r, c),
        in_bounds(n, r2, c2),
        hex_adjacent(r, c, r2, c2),
    ensures
        adj_indices(n, r, c).contains(idx_of(n, r2, c2)),
{
    let s = adj_indices(n, r, c);
    if r2 == r && c2 == c - 1 {
        assert(s[0] == idx_of(n, r2, c2));
    } else {
        let t0: Seq<int> = if in_bounds(n, r, c - 1) {
            seq![idx_of(n, r, c - 1)]
        } else {
            seq![]
        };
        let p1 = t0.len() as int;
        if r2 == r + 1 && c2 == c - 1 {
            assert(s[p1] == idx_of(n, r2, c2));
        } else {
            let t1: Seq<int> = if in_bounds(n, r + 1, c - 1) {
                seq![idx_of(n, r + 1, c - 1)]
            } else {
                seq![]
            };
            let p2 = p1 + t1.len();
            if r2 == r - 1 && c2 == c {
                assert(s[p2] == idx_of(n, r2, c2));
            } else {
                let t2: Seq<int> = if in_bounds(n, r - 1, c) {
                    seq![idx_of(n, r - 1, c)]
                } else {
                    seq![]
                };
                let p3 = p2 + t2.len();
                if r2 == r + 1 && c2 == c {
                    assert(s[p3] == idx_of(n, r2, c2));
                } else {
                    let t3: Seq<int> = if in_bounds(n, r + 1, c) {
                        seq![idx_of(n, r + 1, c)]
                    } else {
                        seq![]
                    };
                    let p4 = p3 + t3.len();
                    if r2 == r - 1 && c2 == c + 1 {
                        assert(s[p4] == idx_of(n, r2, c2));
                    } else {
                        let t4: Seq<int> = if in_bounds(n, r - 1, c + 1) {
                            seq![idx_of(n, r - 1, c + 1)]
                        } else {
                            seq![]
                        };
                        let p5 = p4 + t4.len();
                        assert(r2 == r && c2 == c + 1);
                        assert(s[p5] == idx_of(n, r2, c2));
                    }
                }
            }
        }
    }
}

/// An in-bounds coordinate's row-major index lies inside the grid.
pub proof fn lemma_idx_in_range(n: int, r: int, c: int)
    requires
        in_bounds(n, r, c),
    ensures
        0 <= idx_of(n, r, c) < n * n,
{
    assert(0 <= r * n + c < n * n) by (nonlinear_arith)
        requires
            0 <= r < n,
            0 <= c < n,
    ;
}

/// A cell index inside the grid decomposes into the unique in-bounds
/// coordinate pair that maps back to it.
pub proof fn lemma_coords_of_index(n: int, i: int)
    requires
        n >= 1,
        0 <= i < n * n,
    ensures
        in_bounds(n, i / n, i % n),
        idx_of(n, i / n, i % n) == i,
{
    vstd::arithmetic::div_mod::lemma_fundamental_div_mod(i, n);
    assert(0 <= i % n < n) by (nonlinear_arith)
        requires
            n >= 1,
            0 <= i,
    ;
    assert(0 <= i / n < n) by (nonlinear_arith)
        requires
            n >= 1,
            0 <= i < n * n,
            i == n * (i / n) + i % n,
            0 <= i % n < n,
    ;
    vstd::arithmetic::mul::lemma_mul_is_commutative(i / n, n);
}

/// Which edge a colour's winning path must start on: Black the top row,
/// White the left column.
pub open spec fn start_ok(color: Tile, r: int, c: int) -> bool {
    if color == Tile::Black {
        r == 0
    } else {
        c == 0
    }
}

/// Which edge a colour's winning path must reach: Black the bottom row,
/// White the right column.
pub open spec fn end_ok(n: int, color: Tile, r: int, c: int) -> bool {
    if color == Tile::Black {
        r == n - 1
    } else {
        c == n - 1
    }
}

/// A chain of in-bounds cells all holding `color`, each hex-adjacent to the
/// next.
pub open spec fn is_tile_path(g: Seq<Tile>, n: int, color: Tile, p: Seq<(int, int)>) -> bool {
    &&& p.len() > 0
    &&& forall|i: int|
        0 <= i < p.len() ==> in_bounds(n, (#[trigger] p[i]).0, p[i].1) && g[idx_of(
            n,
            p[i].0,
            p[i].1,
        )] == color
    &&& forall|i: int|
        0 <= i < p.len() - 1 ==> hex_adjacent((#[trigger] p[i]).0, p[i].1, p[i + 1].0, p[i + 1].1)
}

/// `p` carries `color` from its start edge to the cell (r, c).
pub open spec fn connects(
    g: Seq<Tile>,
    n: int,
    color: Tile,
    p: Seq<(int, int)>,
    r: int,
    c: int,
) -> bool {
    &&& is_tile_path(g, n, color, p)
    &&& start_ok(color, p[0].0, p[0].1)
    &&& p[p.len() - 1] == (r, c)
}

/// Some chain of `color` tiles links that colour's start edge to (r, c).
pub open spec fn reaches(g: Seq<Tile>, n: int, color: Tile, r: int, c: int) -> bool {
    exists|p: Seq<(int, int)>| connects(g, n, color, p, r, c)
}

/// `color` owns a chain from its start edge to its end edge.
pub open spec fn has_winning_path(g: Seq<Tile>, n: int, color: Tile) -> bool {
    exists|r: int, c: int| #![auto] reaches(g, n, color, r, c) && end_ok(n, color, r, c)
}

/// The winner of the position: Black is tested before White, and `Empty`
/// stands for "nobody yet".
pub open spec fn spec_winner(g: Seq<Tile>, n: int) -> Tile {
    if has_winning_path(g, n, Tile::Black) {
        Tile::Black
    } else if has_winning_path(g, n, Tile::White) {
        Tile::White
    } else {
        Tile::Empty
    }
}

/// A coloured cell on its own start edge is reached by the one-cell chain.
pub proof fn lemma_reaches_start(g: Seq<Tile>, n: int, color: Tile, r: int, c: int)
    requires
        in_bounds(n, r, c),
        g[idx_of(n, r, c)] == color,
        start_ok(color, r, c),
    ensures
        reaches(g, n, color, r, c),
{
    let p = seq![(r, c)];
    assert(connects(g, n, color, p, r, c));
}

/// Reachability extends across one hex-adjacency step onto a coloured cell.
pub proof fn lemma_reaches_step(g: Seq<Tile>, n: int, color: Tile, r: int, c: int, r2: int, c2: int)
    requires
        reaches(g, n, color, r, c),
        in_bounds(n, r2, c2),
        g[idx_of(n, r2, c2)] == color,
        hex_adjacent(r, c, r2, c2),
    ensures
        reaches(g, n, color, r2, c2),
{
    let p = choose|p: Seq<(int, int)>| connects(g, n, color, p, r, c);
    let p2 = p.push((r2, c2));
    assert forall|i: int| 0 <= i < p2.len() implies in_bounds(n, (#[trigger] p2[i]).0, p2[i].1)
        && g[idx_of(n, p2[i].0, p2[i].1)] == color by {
        if i < p.len() {
            assert(p2[i] == p[i]);
        }
    }
    assert forall|i: int| 0 <= i < p2.len() - 1 implies hex_adjacent(
        (#[trigger] p2[i]).0,
        p2[i].1,
        p2[i + 1].0,
        p2[i + 1].1,
    ) by {
        if i < p.len() - 1 {
            assert(p2[i] == p[i]);
            assert(p2[i + 1] == p[i + 1]);
        } else {
            assert(p2[i] == p[p.len() - 1]);
            assert(p2[i] == (r, c));
            assert(p2[i + 1] == (r2, c2));
        }
    }
    assert(p2[0] == p[0]);
    assert(connects(g, n, color, p2, r2, c2));
}

/// Every in-bounds coloured hex-neighbour of (r, c) is marked in `visited`.
pub open spec fn neighbours_visited(
    g: Seq<Tile>,
    n: int,
    color: Tile,
    visited: Seq<bool>,
    r: int,
    c: int,
) -> bool {
    forall|r2: int, c2: int|
        in_bounds(n, r2, c2) && #[trigger] hex_adjacent(r, c, r2, c2) && g[idx_of(n, r2, c2)]
            == color ==> visited[idx_of(n, r2, c2)]
}

/// A chain of coloured cells that starts inside a closed marked set never
/// leaves it.
proof fn lemma_path_confined(
    g: Seq<Tile>,
    n: int,
    color: Tile,
    visited: Seq<bool>,
    p: Seq<(int, int)>,
    k: int,
)
    requires
        n >= 1,
        visited.len() == n * n,
        is_tile_path(g, n, color, p),
        visited[idx_of(n, p[0].0, p[0].1)],
        forall|i: int|
            0 <= i < n * n && #[trigger] visited[i] ==> neighbours_visited(
                g,
                n,
                color,
                visited,
                i / n,
                i % n,
            ),
        0 <= k < p.len(),
    ensures
        visited[idx_of(n, p[k].0, p[k].1)],
    decreases k,
{
    if k > 0 {
        lemma_path_confined(g, n, color, visited, p, k - 1);
        let r1 = p[k - 1].0;
        let c1 = p[k - 1].1;
        let r2 = p[k].0;
        let c2 = p[k].1;
        let i = idx_of(n, r1, c1);
        lemma_idx_in_range(n, r1, c1);
        vstd::arithmetic::div_mod::lemma_fundamental_div_mod_converse(i, n, r1, c1);
        assert(neighbours_visited(g, n, color, visited, r1, c1));
        assert(hex_adjacent(r1, c1, r2, c2));
    }
}

/// Number of unmarked entries: the termination measure of the search.
spec fn count_false(s: Seq<bool>) -> nat
    decreases s.len(),
{
    if s.len() == 0 {
        0nat
    } else {
        (if s[0] {
            0nat
        } else {
            1nat
        }) + count_false(s.skip(1))
    }
}

/// Marking an unmarked entry strictly shrinks the measure.
proof fn lemma_count_false_update(s: Seq<bool>, i: int)
    requires
        0 <= i < s.len(),
        !s[i],
    ensures
        count_false(s.update(i, true)) < count_false(s),
    decreases s.len(),
{
    if i == 0 {
        assert(s.update(0, true).skip(1) =~= s.skip(1));
    } else {
        assert(s.update(i, true).skip(1) =~= s.skip(1).update(i - 1, true));
        assert(s.skip(1)[i - 1] == s[i]);
        lemma_count_false_update(s.skip(1), i - 1);
    }
}

/// True when some entry of `stack` names cell index `i`.
spec fn in_stack(stack: Seq<usize>, i: int) -> bool {
    exists|k: int| 0 <= k < stack.len() && stack[k] as int == i
}

/// Index of the j-th cell on a colour's start edge.
spec fn seed_idx(n: int, color: Tile, j: int) -> int {
    if color == Tile::Black {
        idx_of(n, 0, j)
    } else {
        idx_of(n, j, 0)
    }
}

/// All coloured start-edge cells are marked.
spec fn seeds_done(g: Seq<Tile>, n: int, color: Tile, visited: Seq<bool>) -> bool {
    forall|j: int|
        #![trigger seed_idx(n, color, j)]
        0 <= j < n && g[seed_idx(n, color, j)] == color ==> visited[seed_idx(n, color, j)]
}

/// The bookkeeping part of the search invariant: marked cells are coloured
/// and reached from the start edge, and stack entries are marked cells.
spec fn dfs_core(g: Seq<Tile>, n: int, color: Tile, visited: Seq<bool>, stack: Seq<usize>) -> bool {
    &&& visited.len() == n * n
    &&& forall|i: int|
        0 <= i < n * n && #[trigger] visited[i] ==> g[i] == color && reaches(
            g,
            n,
            color,
            i / n,
            i % n,
        )
    &&& forall|k: int|
        0 <= k < stack.len() ==> ((#[trigger] stack[k]) as int) < n * n && visited[stack[k] as int]
}

/// Every marked cell off the stack, other than `ex`, is fully expanded and
/// does not touch the end edge.
spec fn dfs_closed_except(
    g: Seq<Tile>,
    n: int,
    color: Tile,
    visited: Seq<bool>,
    stack: Seq<usize>,
    ex: int,
) -> bool {
    forall|i: int|
        0 <= i < n * n && #[trigger] visited[i] && !in_stack(stack, i) && i != ex ==> !end_ok(
            n,
            color,
            i / n,
            i % n,
        ) && neighbours_visited(g, n, color, visited, i / n, i % n)
}

/// Every marked cell off the stack is fully expanded and does not touch the
/// end edge.
spec fn dfs_closed(g: Seq<Tile>, n: int, color: Tile, visited: Seq<bool>, stack: Seq<usize>) -> bool {
    forall|i: int|
        0 <= i < n * n && #[trigger] visited[i] && !in_stack(stack, i) ==> !end_ok(
            n,
            color,
            i / n,
            i % n,
        ) && neighbours_visited(g, n, color, visited, i / n, i % n)
}

} // verus!
