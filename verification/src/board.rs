//! The executable board: a square boolean matrix advanced one whole
//! generation at a time. Every cell of the next generation is decided from
//! the same snapshot; the implementation first collects the coordinates that
//! flip, then applies the flips, so no cell ever sees a half-updated grid.
use vstd::prelude::*;

use crate::grid::GRIDLEN;
use crate::grid::alive_at;
use crate::grid::clipped_grid;
use crate::grid::grid_of_coordinates;
use crate::grid::live_neighbours_spec;
use crate::grid::next_cell;
use crate::grid::step;
use crate::grid::wf_grid;
use crate::render::Draw;
use crate::render::glyph;
use crate::render::lines_chars;
use crate::render::render_grid;
use crate::render::render_line;
use crate::render::row_chars;
use crate::render::wall_run;

verus! {

/// Whether the transition rule changes cell (a, b) of g.
pub open spec fn flip_at(g: Seq<Seq<bool>>, a: int, b: int) -> bool {
    step(g)[a][b] != g[a][b]
}

/// Row-major position of a coordinate pair, used to order the flip list.
pub open spec fn cell_idx(p: (usize, usize)) -> int {
    p.0 * GRIDLEN + p.1
}

/// Whether one of the first n entries of s is the pair (a, b).
pub open spec fn in_prefix(s: Seq<(usize, usize)>, n: int, a: int, b: int) -> bool {
    exists|k: int| 0 <= k < n && s[k] == (a as usize, b as usize)
}

pub struct Board {
    grid: Vec<Vec<bool>>,
    swaps: Vec<(usize, usize)>,
}

impl View for Board {
    type V = Seq<Seq<bool>>;

    closed spec fn view(&self) -> Seq<Seq<bool>> {
        self.grid.deep_view()
    }
}

/// Bridges the two readings of a boolean matrix: the deep view as a
/// sequence of boolean rows, and the vector-of-vectors it is stored as.
pub(crate) proof fn lemma_grid_view(v: &Vec<Vec<bool>>)
    ensures
        v.deep_view().len() == v@.len(),
        forall|i: int| 0 <= i < v@.len() ==> #[trigger] v.deep_view()[i] == v@[i]@,
{
    assert forall|i: int| 0 <= i < v@.len() implies #[trigger] v.deep_view()[i] == v@[i]@ by {
        assert(v.deep_view()[i] =~= v@[i]@);
    }
}

/// For a well-shaped matrix, gives the vector-level lengths that indexing needs.
proof fn lemma_wf_grid_vec(v: &Vec<Vec<bool>>)
    requires
        wf_grid(v.deep_view()),
    ensures
        v@.len() == GRIDLEN,
        forall|i: int| 0 <= i < GRIDLEN ==> (#[trigger] v@[i])@.len() == GRIDLEN,
        forall|i: int| 0 <= i < GRIDLEN ==> #[trigger] v.deep_view()[i] == v@[i]@,
{
    lemma_grid_view(v);
    assert forall|i: int| 0 <= i < GRIDLEN implies (#[trigger] v@[i])@.len() == GRIDLEN by {
        assert(v.deep_view()[i] == v@[i]@);
        assert(v.deep_view()[i].len() == GRIDLEN);
    }
}

/// A value copy of a boolean matrix, row by row.
fn copy_grid(v: &Vec<Vec<bool>>) -> (r: Vec<Vec<bool>>)
    ensures
        r.deep_view() == v.deep_view(),
{
    let mut rows: Vec<Vec<bool>> = Vec::new();
    let mut i: usize = 0;
    while i < v.len()
        invariant
            i <= v@.len(),
            rows@.len() == i,
            forall|k: int| 0 <= k < i ==> (#[trigger] rows@[k])@ == v@[k]@,
        decreases v@.len() - i,
    {
        let mut row: Vec<bool> = Vec::new();
        let mut j: usize = 0;
        while j < v[i].len()
            invariant
                i < v@.len(),
                j <= v@[i as int]@.len(),
                row@.len() == j,
                forall|k: int| 0 <= k < j ==> row@[k] == v@[i as int]@[k],
            decreases v@[i as int]@.len() - j,
        {
            row.push(v[i][j]);
            j = j + 1;
        }
        proof {
            assert(row@ =~= v@[i as int]@);
        }
        rows.push(row);
        i = i + 1;
    }
    proof {
        assert(rows.deep_view() =~~= v.deep_view());
    }
    rows
}

impl Board {
    /// The board's invariant: its grid keeps the fixed square shape,
    /// so all indices in [0, GRIDLEN) are valid.
    pub open spec fn wf(&self) -> bool {
        wf_grid(self@)
    }

    /// Number of live cells in the clipped neighbourhood of (x, y): the
    /// eight surrounding slots, fewer on the border, never an out-of-range read.
    pub fn live_neighbours(&self, x: usize, y: usize) -> (ans: u8)
        requires
            self.wf(),
            x < GRIDLEN,
            y < GRIDLEN,
        ensures
            ans as int == live_neighbours_spec(self@, x as int, y as int),
    {
        proof {
            lemma_wf_grid_vec(&self.grid);
        }
        let mut ans: u8 = 0;
        if x > 0 && y > 0 && self.grid[x - 1][y - 1] {
            ans = ans + 1;
        }
        if x > 0 && self.grid[x - 1][y] {
            ans = ans + 1;
        }
        if x > 0 && y + 1 < GRIDLEN && self.grid[x - 1][y + 1] {
            ans = ans + 1;
        }
        if y > 0 && self.grid[x][y - 1] {
            ans = ans + 1;
        }
        if y + 1 < GRIDLEN && self.grid[x][y + 1] {
            ans = ans + 1;
        }
        if x + 1 < GRIDLEN && y > 0 && self.grid[x + 1][y - 1] {
            ans = ans + 1;
        }
        if x + 1 < GRIDLEN && self.grid[x + 1][y] {
            ans = ans + 1;
        }
        if x + 1 < GRIDLEN && y + 1 < GRIDLEN && self.grid[x + 1][y + 1] {
            ans = ans + 1;
        }
        ans
    }

    /// Advance the board one generation, synchronously: the new value of every
    /// cell is computed from the old grid before any cell is changed.
    pub fn update(&mut self)
        requires
            old(self).wf(),
        ensures
            final(self).wf(),
            final(self)@ == step(old(self)@),
    {
        let ghost g0 = self@;
        proof {
            lemma_grid_view(&self.grid);
        }
        self.swaps.clear();
        let mut x: usize = 0;
        while x < GRIDLEN
            invariant
                wf_grid(g0),
                self@ == g0,
                x <= GRIDLEN,
                forall|k: int|
                    0 <= k < self.swaps@.len() ==> (#[trigger] self.swaps@[k]).0 < x
                        && self.swaps@[k].1 < GRIDLEN,
                forall|k1: int, k2: int|
                    0 <= k1 < k2 < self.swaps@.len() ==> cell_idx(self.swaps@[k1]) < cell_idx(
                        self.swaps@[k2],
                    ),
                forall|a: int, b: int|
                    0 <= a < x && 0 <= b < GRIDLEN ==> (self.swaps@.contains(
                        (a as usize, b as usize),
                    ) <==> flip_at(g0, a, b)),
            decreases GRIDLEN - x,
        {
            let mut y: usize = 0;
            while y < GRIDLEN
                invariant
                    wf_grid(g0),
                    self@ == g0,
                    x < GRIDLEN,
                    y <= GRIDLEN,
                    forall|k: int|
                        0 <= k < self.swaps@.len() ==> (#[trigger] self.swaps@[k]).0 < GRIDLEN
                            && self.swaps@[k].1 < GRIDLEN && cell_idx(self.swaps@[k]) < x * GRIDLEN
                            + y,
                    forall|k1: int, k2: int|
                        0 <= k1 < k2 < self.swaps@.len() ==> cell_idx(self.swaps@[k1]) < cell_idx(
                            self.swaps@[k2],
                        ),
                    forall|a: int, b: int|
                        0 <= a < GRIDLEN && 0 <= b < GRIDLEN && a * GRIDLEN + b < x * GRIDLEN + y
                            ==> (self.swaps@.contains((a as usize, b as usize)) <==> flip_at(
                            g0,
                            a,
                            b,
                        )),
                decreases GRIDLEN - y,
            {
                let ghost swaps0 = self.swaps@;
                proof {
                    lemma_wf_grid_vec(&self.grid);
                }
                let alive = self.grid[x][y];
                let k = self.live_neighbours(x, y);
                let flips = if alive {
                    !(k == 2 || k == 3)
                } else {
                    k == 3
                };
                proof {
                    assert(step(g0)[x as int][y as int] == next_cell(
                        g0[x as int][y as int],
                        live_neighbours_spec(g0, x as int, y as int),
                    ));
                    assert(flips == flip_at(g0, x as int, y as int));
                }
                if flips {
                    self.swaps.push((x, y));
                }
                proof {
                    assert forall|a: int, b: int|
                        0 <= a < GRIDLEN && 0 <= b < GRIDLEN && a * GRIDLEN + b < x * GRIDLEN + y
                            + 1 implies (self.swaps@.contains((a as usize, b as usize)) <==> flip_at(
                        g0,
                        a,
                        b,
                    )) by {
                        if a == x as int && b == y as int {
                            if flips {
                                assert(self.swaps@[self.swaps@.len() - 1] == (x, y));
                                assert(self.swaps@.contains((a as usize, b as usize)));
                            } else {
                                if self.swaps@.contains((a as usize, b as usize)) {
                                    let i = choose|i: int|
                                        0 <= i < self.swaps@.len() && self.swaps@[i] == (
                                        a as usize,
                                        b as usize,
                                        );
                                    assert(cell_idx(self.swaps@[i]) < x * GRIDLEN + y);
                                }
                            }
                        } else {
                            assert(a * GRIDLEN + b < x * GRIDLEN + y) by {
                                assert(a * GRIDLEN + b != x * GRIDLEN + y) by (nonlinear_arith)
                                    requires
                                        0 <= a < GRIDLEN,
                                        0 <= b < GRIDLEN,
                                        0 <= x < GRIDLEN,
                                        0 <= y < GRIDLEN,
                                        !(a == x && b == y),
                                ;
                            }
                            if swaps0.contains((a as usize, b as usize)) {
                                let i = choose|i: int|
                                    0 <= i < swaps0.len() && swaps0[i] == (a as usize, b as usize);
                                assert(self.swaps@[i] == (a as usize, b as usize));
                                assert(self.swaps@.contains((a as usize, b as usize)));
                            }
                            if self.swaps@.contains((a as usize, b as usize)) {
                                let i = choose|i: int|
                                    0 <= i < self.swaps@.len() && self.swaps@[i] == (
                                    a as usize,
                                    b as usize,
                                    );
                                assert(i < swaps0.len());
                                assert(swaps0.contains((a as usize, b as usize)));
                            }
                        }
                    }
                }
                y = y + 1;
            }
            x = x + 1;
        }
        let ghost flip_list = self.swaps@;
        let mut i: usize = 0;
        while i < self.swaps.len()
            invariant
                wf_grid(g0),
                wf_grid(self@),
                self.swaps@ == flip_list,
                i <= flip_list.len(),
                forall|k: int|
                    0 <= k < flip_list.len() ==> (#[trigger] flip_list[k]).0 < GRIDLEN
                        && flip_list[k].1 < GRIDLEN,
                forall|k1: int, k2: int|
                    0 <= k1 < k2 < flip_list.len() ==> cell_idx(flip_list[k1]) < cell_idx(
                        flip_list[k2],
                    ),
                forall|a: int, b: int|
                    0 <= a < GRIDLEN && 0 <= b < GRIDLEN ==> (flip_list.contains(
                        (a as usize, b as usize),
                    ) <==> flip_at(g0, a, b)),
                forall|a: int, b: int|
                    0 <= a < GRIDLEN && 0 <= b < GRIDLEN ==> self@[a][b] == (if in_prefix(
                        flip_list,
                        i as int,
                        a,
                        b,
                    ) {
                        !g0[a][b]
                    } else {
                        g0[a][b]
                    }),
            decreases flip_list.len() - i,
        {
            let ghost pre = self@;
            let ghost pre_rows = self.grid@;
            proof {
                lemma_wf_grid_vec(&self.grid);
            }
            let p = self.swaps[i];
            proof {
                assert(flip_list[i as int] == p);
                assert(!in_prefix(flip_list, i as int, p.0 as int, p.1 as int)) by {
                    if in_prefix(flip_list, i as int, p.0 as int, p.1 as int) {
                        let k = choose|k: int| 0 <= k < i && flip_list[k] == (p.0, p.1);
                        assert(cell_idx(flip_list[k]) < cell_idx(flip_list[i as int]));
                    }
                }
            }
            let cur = self.grid[p.0][p.1];
            self.grid[p.0][p.1] = !cur;
            proof {
                lemma_grid_view(&self.grid);
                assert(self@[p.0 as int] == self.grid@[p.0 as int]@);
                assert(self.grid@[p.0 as int]@ =~= pre[p.0 as int].update(p.1 as int, !cur));
                assert forall|a: int| 0 <= a < GRIDLEN && a != p.0 as int implies self@[a] == pre[a] by {
                    assert(self.grid@[a] == pre_rows[a]);
                    assert(self@[a] == self.grid@[a]@);
                    assert(pre[a] == pre_rows[a]@);
                }
                assert(wf_grid(self@));
                assert forall|a: int, b: int| 0 <= a < GRIDLEN && 0 <= b < GRIDLEN implies self@[a][b]
                    == (if in_prefix(flip_list, i as int + 1, a, b) {
                    !g0[a][b]
                } else {
                    g0[a][b]
                }) by {
                    if a == p.0 as int && b == p.1 as int {
                        assert(flip_list[i as int] == (a as usize, b as usize));
                        assert(in_prefix(flip_list, i as int + 1, a, b));
                        assert(self@[a][b] == !cur);
                    } else {
                        assert(self@[a][b] == pre[a][b]);
                        assert(in_prefix(flip_list, i as int + 1, a, b) <==> in_prefix(
                            flip_list,
                            i as int,
                            a,
                            b,
                        )) by {
                            if in_prefix(flip_list, i as int + 1, a, b) {
                                let k = choose|k: int|
                                    0 <= k < i + 1 && flip_list[k] == (a as usize, b as usize);
                                assert(k != i);
                                assert(in_prefix(flip_list, i as int, a, b));
                            }
                        }
                    }
                }
            }
            i = i + 1;
        }
        proof {
            assert forall|a: int, b: int| 0 <= a < GRIDLEN && 0 <= b < GRIDLEN implies self@[a][b]
                == step(g0)[a][b] by {
                assert(self@[a][b] == (if in_prefix(flip_list, i as int, a, b) {
                    !g0[a][b]
                } else {
                    g0[a][b]
                }));
                assert(in_prefix(flip_list, flip_list.len() as int, a, b) <==> flip_list.contains(
                    (a as usize, b as usize),
                ));
                assert(flip_list.contains((a as usize, b as usize)) <==> flip_at(g0, a, b));
                assert(flip_at(g0, a, b) == (step(g0)[a][b] != g0[a][b]));
            }
            assert(self@ =~~= step(g0));
        }
    }

    /// A value copy of the grid, usable as a history key.
    pub fn get_state(&self) -> (r: Vec<Vec<bool>>)
        ensures
            r.deep_view() == self@,
    {
        copy_grid(&self.grid)
    }

    /// Build a board from a sparse list of alive coordinates; a pair with a
    /// coordinate outside the grid is silently discarded.
    pub fn from_coordinates(coordinates: Vec<(usize, usize)>) -> (r: Board)
        ensures
            r.wf(),
            r@ == grid_of_coordinates(coordinates@),
    {
        let mut grid: Vec<Vec<bool>> = Vec::new();
        let mut i: usize = 0;
        while i < GRIDLEN
            invariant
                i <= GRIDLEN,
                grid@.len() == i,
                forall|k: int|
                    0 <= k < i ==> (#[trigger] grid@[k])@.len() == GRIDLEN && forall|b: int|
                        0 <= b < GRIDLEN ==> grid@[k]@[b] == false,
            decreases GRIDLEN - i,
        {
            let mut row: Vec<bool> = Vec::new();
            let mut j: usize = 0;
            while j < GRIDLEN
                invariant
                    j <= GRIDLEN,
                    row@.len() == j,
                    forall|b: int| 0 <= b < j ==> row@[b] == false,
                decreases GRIDLEN - j,
            {
                row.push(false);
                j = j + 1;
            }
            grid.push(row);
            i = i + 1;
        }
        let mut k: usize = 0;
        while k < coordinates.len()
            invariant
                k <= coordinates@.len(),
                grid@.len() == GRIDLEN,
                forall|a: int| 0 <= a < GRIDLEN ==> (#[trigger] grid@[a])@.len() == GRIDLEN,
                forall|a: int, b: int|
                    0 <= a < GRIDLEN && 0 <= b < GRIDLEN ==> (grid.deep_view()[a][b] <==> in_prefix(
                        coordinates@,
                        k as int,
                        a,
                        b,
                    )),
            decreases coordinates@.len() - k,
        {
            let ghost pre = grid.deep_view();
            let ghost pre_rows = grid@;
            proof {
                lemma_wf_grid_vec(&grid);
            }
            let c = coordinates[k];
            if c.0 < GRIDLEN && c.1 < GRIDLEN {
                grid[c.0][c.1] = true;
            }
            proof {
                lemma_grid_view(&grid);
                if c.0 < GRIDLEN && c.1 < GRIDLEN {
                    assert(grid.deep_view()[c.0 as int] == grid@[c.0 as int]@);
                    assert(grid@[c.0 as int]@ =~= pre[c.0 as int].update(c.1 as int, true));
                }
                assert forall|a: int|
                    0 <= a < GRIDLEN && !(c.0 < GRIDLEN && c.1 < GRIDLEN && a == c.0 as int) implies grid.deep_view()[a]
                    == pre[a] by {
                    assert(grid@[a] == pre_rows[a]);
                    assert(grid.deep_view()[a] == grid@[a]@);
                    assert(pre[a] == pre_rows[a]@);
                }
                assert(grid@.len() == GRIDLEN);
                assert forall|a: int| 0 <= a < GRIDLEN implies (#[trigger] grid@[a])@.len() == GRIDLEN by {
                    if c.0 < GRIDLEN && c.1 < GRIDLEN && a == c.0 as int {
                    } else {
                        assert(grid@[a] == pre_rows[a]);
                    }
                }
                assert forall|a: int, b: int| 0 <= a < GRIDLEN && 0 <= b < GRIDLEN implies (
                grid.deep_view()[a][b] <==> in_prefix(coordinates@, k as int + 1, a, b)) by {
                    if c.0 < GRIDLEN && c.1 < GRIDLEN && a == c.0 as int && b == c.1 as int {
                        assert(coordinates@[k as int] == (a as usize, b as usize));
                        assert(in_prefix(coordinates@, k as int + 1, a, b));
                        assert(grid.deep_view()[a][b]);
                    } else {
                        assert(grid.deep_view()[a][b] == pre[a][b]);
                        assert(in_prefix(coordinates@, k as int + 1, a, b) <==> in_prefix(
                            coordinates@,
                            k as int,
                            a,
                            b,
                        )) by {
                            if in_prefix(coordinates@, k as int + 1, a, b) {
                                let k2 = choose|k2: int|
                                    0 <= k2 < k + 1 && coordinates@[k2] == (a as usize, b as usize);
                                assert(k2 != k);
                            }
                        }
                    }
                }
            }
            k = k + 1;
        }
        proof {
            lemma_grid_view(&grid);
            assert forall|a: int, b: int| 0 <= a < GRIDLEN && 0 <= b < GRIDLEN implies grid.deep_view()[a][b]
                == grid_of_coordinates(coordinates@)[a][b] by {
                assert(grid.deep_view()[a][b] <==> in_prefix(
                    coordinates@,
                    coordinates@.len() as int,
                    a,
                    b,
                ));
            }
            assert(grid.deep_view() =~~= grid_of_coordinates(coordinates@));
        }
        let r = Board { grid, swaps: Vec::new() };
        r
    }

    /// Build a board from a full matrix; whatever lies outside the fixed
    /// square shape is ignored, missing cells count as dead.
    pub fn from_grid(grid: Vec<Vec<bool>>) -> (r: Board)
        ensures
            r.wf(),
            r@ == clipped_grid(grid.deep_view()),
    {
        let ghost g = grid.deep_view();
        let mut rows: Vec<Vec<bool>> = Vec::new();
        let mut i: usize = 0;
        while i < GRIDLEN
            invariant
                g == grid.deep_view(),
                i <= GRIDLEN,
                rows@.len() == i,
                forall|k: int|
                    0 <= k < i ==> (#[trigger] rows@[k])@.len() == GRIDLEN && forall|b: int|
                        0 <= b < GRIDLEN ==> rows@[k]@[b] == alive_at(g, k, b),
            decreases GRIDLEN - i,
        {
            let mut row: Vec<bool> = Vec::new();
            let mut j: usize = 0;
            while j < GRIDLEN
                invariant
                    g == grid.deep_view(),
                    i < GRIDLEN,
                    j <= GRIDLEN,
                    row@.len() == j,
                    forall|b: int| 0 <= b < j ==> row@[b] == alive_at(g, i as int, b),
                decreases GRIDLEN - j,
            {
                let cell = if i < grid.len() && j < grid[i].len() {
                    grid[i][j]
                } else {
                    false
                };
                row.push(cell);
                j = j + 1;
            }
            rows.push(row);
            i = i + 1;
        }
        let r = Board { grid: rows, swaps: Vec::new() };
        proof {
            assert(r.grid.deep_view() =~~= clipped_grid(g));
        }
        r
    }
}

impl Draw for Board {
    /// The picture needs the fixed square shape.
    open spec fn draw_requires(&self) -> bool {
        self.wf()
    }

    open spec fn draw_spec(&self) -> Seq<char> {
        render_grid(self@)
    }

    /// The bordered text picture of the grid: a wall row, one line per row
    /// of cells with walls at both ends, and a closing wall row.
    fn draw(&self) -> (s: String) {
        proof {
            lemma_wf_grid_vec(&self.grid);
        }
        let mut s = String::new();
        let mut w: usize = 0;
        while w < GRIDLEN + 2
            invariant
                w <= GRIDLEN + 2,
                s@ == wall_run(w as nat),
            decreases GRIDLEN + 2 - w,
        {
            s.append("# ");
            w = w + 1;
        }
        s.append("\n");
        let ghost header = s@;
        let mut i: usize = 0;
        while i < GRIDLEN
            invariant
                wf_grid(self@),
                self.grid@.len() == GRIDLEN,
                forall|k: int| 0 <= k < GRIDLEN ==> (#[trigger] self.grid@[k])@.len() == GRIDLEN,
                forall|k: int| 0 <= k < GRIDLEN ==> #[trigger] self.grid.deep_view()[k] == self.grid@[k]@,
                header == wall_run((GRIDLEN + 2) as nat) + "\n"@,
                i <= GRIDLEN,
                s@ == header + lines_chars(self@.take(i as int)),
            decreases GRIDLEN - i,
        {
            s.append("# ");
            let ghost line_start = s@;
            let mut j: usize = 0;
            while j < GRIDLEN
                invariant
                    wf_grid(self@),
                    self.grid@.len() == GRIDLEN,
                    forall|k: int| 0 <= k < GRIDLEN ==> (#[trigger] self.grid@[k])@.len() == GRIDLEN,
                    forall|k: int| 0 <= k < GRIDLEN ==> #[trigger] self.grid.deep_view()[k] == self.grid@[k]@,
                    i < GRIDLEN,
                    j <= GRIDLEN,
                    line_start == header + lines_chars(self@.take(i as int)) + "# "@,
                    s@ == line_start + row_chars(self@[i as int].take(j as int)),
                decreases GRIDLEN - j,
            {
                if self.grid[i][j] {
                    s.append("# ");
                } else {
                    s.append("  ");
                }
                proof {
                    let row = self@[i as int];
                    assert(row.take(j + 1).drop_last() =~= row.take(j as int));
                    assert(row.take(j + 1).last() == row[j as int]);
                    assert(row_chars(row.take(j + 1)) == row_chars(row.take(j as int)) + glyph(
                        row[j as int],
                    ));
                    assert(self.grid.deep_view()[i as int] == self.grid@[i as int]@);
                    assert(s@ =~= line_start + row_chars(row.take(j + 1)));
                }
                j = j + 1;
            }
            s.append("# \n");
            proof {
                let row = self@[i as int];
                assert(row.take(GRIDLEN as int) =~= row);
                assert(self@.take(i + 1).drop_last() =~= self@.take(i as int));
                assert(self@.take(i + 1).last() == row);
                assert(lines_chars(self@.take(i + 1)) == lines_chars(self@.take(i as int))
                    + render_line(row));
                assert(s@ =~= header + lines_chars(self@.take(i + 1)));
            }
            i = i + 1;
        }
        proof {
            assert(self@.take(GRIDLEN as int) =~= self@);
        }
        let ghost body_done = s@;
        let mut w2: usize = 0;
        while w2 < GRIDLEN + 2
            invariant
                w2 <= GRIDLEN + 2,
                s@ == body_done + wall_run(w2 as nat),
            decreases GRIDLEN + 2 - w2,
        {
            s.append("# ");
            w2 = w2 + 1;
        }
        proof {
            assert(s@ =~= render_grid(self@));
        }
        s
    }
}

impl Clone for Board {
    /// A value copy: the clone shows the same grid.
    fn clone(&self) -> (r: Self)
        ensures
            r@ == self@,
    {
        Board { grid: copy_grid(&self.grid), swaps: Vec::new() }
    }
}

impl From<Vec<(usize, usize)>> for Board {
    fn from(coordinates: Vec<(usize, usize)>) -> Self {
        Board::from_coordinates(coordinates)
    }
}

impl vstd::std_specs::convert::FromSpecImpl<Vec<(usize, usize)>> for Board {
    open spec fn obeys_from_spec() -> bool {
        false
    }

    open spec fn from_spec(v: Vec<(usize, usize)>) -> Self {
        arbitrary()
    }
}

impl From<Vec<Vec<bool>>> for Board {
    fn from(grid: Vec<Vec<bool>>) -> Self {
        Board::from_grid(grid)
    }
}

impl vstd::std_specs::convert::FromSpecImpl<Vec<Vec<bool>>> for Board {
    open spec fn obeys_from_spec() -> bool {
        false
    }

    open spec fn from_spec(v: Vec<Vec<bool>>) -> Self {
        arbitrary()
    }
}

} // verus!
