//! The mathematical model of the game: grids as sequences of boolean rows,
//! the clipped neighbourhood, the transition rule, and iterated transitions.
//! The counting argument at the end bounds how long a trajectory can go
//! without repeating a state, which is what makes the runner terminate.
use vstd::prelude::*;

verus! {

/// Side length of the square grid.
pub const GRIDLEN: usize = 40;

/// A well-formed grid is a square boolean matrix of side `GRIDLEN`.
pub open spec fn wf_grid(g: Seq<Seq<bool>>) -> bool {
    &&& g.len() == GRIDLEN
    &&& forall|i: int| 0 <= i < g.len() ==> (#[trigger] g[i]).len() == GRIDLEN
}

/// Whether (x, y) names a live cell; coordinates outside the grid count as dead,
/// which is exactly the boundary clipping: there is no wrap-around.
pub open spec fn alive_at(g: Seq<Seq<bool>>, x: int, y: int) -> bool {
    0 <= x < g.len() && 0 <= y < g[x].len() && g[x][y]
}

/// 1 for a live cell, 0 for a dead or out-of-range one.
pub open spec fn neighbour(g: Seq<Seq<bool>>, x: int, y: int) -> int {
    if alive_at(g, x, y) {
        1
    } else {
        0
    }
}

/// Number of live cells in the clipped Moore neighbourhood of (x, y):
/// the eight surrounding slots, minus whatever falls outside the grid.
pub open spec fn live_neighbours_spec(g: Seq<Seq<bool>>, x: int, y: int) -> int {
    neighbour(g, x - 1, y - 1) + neighbour(g, x - 1, y) + neighbour(g, x - 1, y + 1) + neighbour(
        g,
        x,
        y - 1,
    ) + neighbour(g, x, y + 1) + neighbour(g, x + 1, y - 1) + neighbour(g, x + 1, y) + neighbour(
        g,
        x + 1,
        y + 1,
    )
}

/// The rule for one cell: a live cell survives on 2 or 3 neighbours,
/// a dead cell comes alive on exactly 3.
pub open spec fn next_cell(alive: bool, k: int) -> bool {
    if alive {
        k == 2 || k == 3
    } else {
        k == 3
    }
}

/// One synchronous generation: every cell is decided from the same snapshot.
pub open spec fn step(g: Seq<Seq<bool>>) -> Seq<Seq<bool>> {
    Seq::new(
        GRIDLEN as nat,
        |x: int| Seq::new(GRIDLEN as nat, |y: int| next_cell(g[x][y], live_neighbours_spec(g, x, y))),
    )
}

/// n generations from g.
pub open spec fn iterate(g: Seq<Seq<bool>>, n: nat) -> Seq<Seq<bool>>
    decreases n,
{
    if n == 0 {
        g
    } else {
        step(iterate(g, (n - 1) as nat))
    }
}

/// The run starting at g0 stops after its k-th generation, having met the
/// state it had just after generation j (j == 0 being the initial state):
/// generations 1..k were all new, and j is the first occurrence of the
/// repeated state.
pub open spec fn is_first_repeat(g0: Seq<Seq<bool>>, k: nat, j: nat) -> bool {
    &&& 1 <= k
    &&& j < k
    &&& iterate(g0, k) == iterate(g0, j)
    &&& forall|k2: nat, j2: nat| 1 <= k2 < k && j2 < k2 ==> iterate(g0, k2) != iterate(g0, j2)
    &&& forall|j2: nat| j2 < j ==> iterate(g0, j2) != iterate(g0, k)
}

/// The transition is a pure function of the grid and nothing else: equal
/// states give equal successors, after one generation and after two.
pub proof fn lemma_step_deterministic(g1: Seq<Seq<bool>>, g2: Seq<Seq<bool>>)
    requires
        g1 == g2,
    ensures
        step(g1) == step(g2),
        step(step(g1)) == step(step(g2)),
{
}

/// The grid with every cell dead.
pub open spec fn all_dead() -> Seq<Seq<bool>> {
    Seq::new(GRIDLEN as nat, |x: int| Seq::new(GRIDLEN as nat, |y: int| false))
}

/// The all-dead grid is a fixed point of the transition.
pub proof fn lemma_all_dead_fixed()
    ensures
        step(all_dead()) == all_dead(),
{
    assert forall|x: int, y: int| 0 <= x < GRIDLEN && 0 <= y < GRIDLEN implies step(all_dead())[x][y]
        == all_dead()[x][y] by {
        assert(live_neighbours_spec(all_dead(), x, y) == 0);
    }
    assert(step(all_dead()) =~~= all_dead());
}

/// A run started on a fixed point stops at its first iteration, having met
/// the initial state again: the classification is a static pattern first
/// seen at iteration 1.
pub proof fn lemma_fixed_point_first_repeat(g: Seq<Seq<bool>>, k: nat, j: nat)
    requires
        step(g) == g,
        is_first_repeat(g, k, j),
    ensures
        k == 1,
        j == 0,
{
    assert(iterate(g, 1) == step(iterate(g, 0)));
    if k > 1 {
        assert(iterate(g, 1) != iterate(g, 0));
    }
}

/// A run started on a state of period two stops at its second iteration,
/// having met the initial state again: the classification is an
/// alternating pattern first seen at iteration 1.
pub proof fn lemma_alternating_first_repeat(g: Seq<Seq<bool>>, k: nat, j: nat)
    requires
        step(step(g)) == g,
        step(g) != g,
        is_first_repeat(g, k, j),
    ensures
        k == 2,
        j == 0,
{
    assert(iterate(g, 1) == step(iterate(g, 0)));
    assert(iterate(g, 2) == step(iterate(g, 1)));
    assert(iterate(g, 2) == iterate(g, 0));
    if k == 1 {
        assert(iterate(g, k) == iterate(g, j) && j == 0);
        assert(false);
    }
    if k > 2 {
        assert(iterate(g, 2) != iterate(g, 0));
        assert(false);
    }
    assert(k == 2);
    if j == 1 {
        assert(iterate(g, 0) == iterate(g, k));
        assert(false);
    }
}

/// A run started on the all-dead grid stops at its first iteration with a
/// static classification: the repeated state is the initial one.
pub proof fn lemma_all_dead_run_is_static(k: nat, j: nat)
    requires
        is_first_repeat(all_dead(), k, j),
    ensures
        k == 1,
        j == 0,
{
    lemma_all_dead_fixed();
    lemma_fixed_point_first_repeat(all_dead(), k, j);
}

/// At the corner the neighbourhood is clipped to three slots, so the count
/// never exceeds 3 and no index below 0 contributes.
pub proof fn lemma_corner_clipped(g: Seq<Seq<bool>>)
    requires
        wf_grid(g),
    ensures
        live_neighbours_spec(g, 0, 0) == neighbour(g, 0, 1) + neighbour(g, 1, 0) + neighbour(
            g,
            1,
            1,
        ),
        0 <= live_neighbours_spec(g, 0, 0) <= 3,
{
}

/// The grid built from a sparse list of alive coordinates: a cell is alive
/// iff the list names it; out-of-range pairs are silently ignored.
pub open spec fn grid_of_coordinates(coords: Seq<(usize, usize)>) -> Seq<Seq<bool>> {
    Seq::new(
        GRIDLEN as nat,
        |x: int|
            Seq::new(
                GRIDLEN as nat,
                |y: int|
                    exists|k: int| 0 <= k < coords.len() && coords[k] == (x as usize, y as usize),
            ),
    )
}

/// An arbitrary matrix cut (or padded with dead cells) to the fixed square shape.
pub open spec fn clipped_grid(g: Seq<Seq<bool>>) -> Seq<Seq<bool>> {
    Seq::new(GRIDLEN as nat, |x: int| Seq::new(GRIDLEN as nat, |y: int| alive_at(g, x, y)))
}

/// Clipping a grid that already has the right shape changes nothing.
pub proof fn lemma_clipped_wf(g: Seq<Seq<bool>>)
    requires
        wf_grid(g),
    ensures
        clipped_grid(g) == g,
{
    assert(clipped_grid(g) =~~= g);
}

/// A step always yields a well-formed grid, so every iterate of one is well formed.
pub proof fn lemma_iterate_wf(g: Seq<Seq<bool>>, n: nat)
    requires
        wf_grid(g),
    ensures
        wf_grid(iterate(g, n)),
    decreases n,
{
    if n > 0 {
        lemma_iterate_wf(g, (n - 1) as nat);
    }
}

/// Powers of two, used to count grids.
pub open spec fn two_to(n: nat) -> nat
    decreases n,
{
    if n == 0 {
        1
    } else {
        2 * two_to((n - 1) as nat)
    }
}

pub proof fn lemma_two_to_pos(n: nat)
    ensures
        two_to(n) >= 1,
    decreases n,
{
    if n > 0 {
        lemma_two_to_pos((n - 1) as nat);
    }
}

pub proof fn lemma_two_to_adds(a: nat, b: nat)
    ensures
        two_to(a + b) == two_to(a) * two_to(b),
    decreases b,
{
    if b == 0 {
        assert(two_to(a + 0) == two_to(a) * 1) by (nonlinear_arith)
            requires
                two_to(a + 0) == two_to(a),
        ;
    } else {
        lemma_two_to_adds(a, (b - 1) as nat);
        assert(two_to(a + b) == two_to(a) * two_to(b)) by (nonlinear_arith)
            requires
                two_to((a + b - 1) as nat) == two_to(a) * two_to((b - 1) as nat),
                two_to(a + b) == 2 * two_to((a + b - 1) as nat),
                two_to(b) == 2 * two_to((b - 1) as nat),
        ;
    }
}

/// A row of booleans read as a binary number.
pub open spec fn row_code(r: Seq<bool>) -> nat
    decreases r.len(),
{
    if r.len() == 0 {
        0
    } else {
        2 * row_code(r.drop_last()) + (if r.last() {
            1nat
        } else {
            0nat
        })
    }
}

pub proof fn lemma_row_code_bound(r: Seq<bool>)
    ensures
        row_code(r) < two_to(r.len()),
    decreases r.len(),
{
    if r.len() > 0 {
        lemma_row_code_bound(r.drop_last());
    }
}

pub proof fn lemma_row_code_inj(r1: Seq<bool>, r2: Seq<bool>)
    requires
        r1.len() == r2.len(),
        row_code(r1) == row_code(r2),
    ensures
        r1 == r2,
    decreases r1.len(),
{
    if r1.len() == 0 {
        assert(r1 =~= r2);
    } else {
        lemma_row_code_inj(r1.drop_last(), r2.drop_last());
        assert(r1 =~= r2) by {
            assert(forall|i: int|
                0 <= i < r1.len() - 1 ==> r1[i] == r1.drop_last()[i] && r2[i] == r2.drop_last()[i]);
        }
    }
}

/// A whole grid read as a binary number, row by row.
pub open spec fn grid_code(g: Seq<Seq<bool>>) -> nat
    decreases g.len(),
{
    if g.len() == 0 {
        0
    } else {
        grid_code(g.drop_last()) * two_to(GRIDLEN as nat) + row_code(g.last())
    }
}

pub proof fn lemma_grid_code_bound(g: Seq<Seq<bool>>)
    requires
        forall|i: int| 0 <= i < g.len() ==> (#[trigger] g[i]).len() == GRIDLEN,
    ensures
        grid_code(g) < two_to((GRIDLEN * g.len()) as nat),
    decreases g.len(),
{
    lemma_two_to_pos(GRIDLEN as nat);
    if g.len() == 0 {
    } else {
        lemma_grid_code_bound(g.drop_last());
        lemma_row_code_bound(g.last());
        lemma_two_to_adds((GRIDLEN * (g.len() - 1)) as nat, GRIDLEN as nat);
        assert(grid_code(g) < two_to((GRIDLEN * g.len()) as nat)) by (nonlinear_arith)
            requires
                grid_code(g) == grid_code(g.drop_last()) * two_to(GRIDLEN as nat) + row_code(
                    g.last(),
                ),
                grid_code(g.drop_last()) < two_to((GRIDLEN * (g.len() - 1)) as nat),
                row_code(g.last()) < two_to(GRIDLEN as nat),
                two_to((GRIDLEN * g.len()) as nat) == two_to((GRIDLEN * (g.len() - 1)) as nat)
                    * two_to(GRIDLEN as nat),
                two_to(GRIDLEN as nat) >= 1,
        ;
    }
}

pub proof fn lemma_grid_code_inj(g1: Seq<Seq<bool>>, g2: Seq<Seq<bool>>)
    requires
        g1.len() == g2.len(),
        forall|i: int| 0 <= i < g1.len() ==> (#[trigger] g1[i]).len() == GRIDLEN,
        forall|i: int| 0 <= i < g2.len() ==> (#[trigger] g2[i]).len() == GRIDLEN,
        grid_code(g1) == grid_code(g2),
    ensures
        g1 == g2,
    decreases g1.len(),
{
    if g1.len() == 0 {
        assert(g1 =~= g2);
    } else {
        lemma_row_code_bound(g1.last());
        lemma_row_code_bound(g2.last());
        lemma_two_to_pos(GRIDLEN as nat);
        assert(grid_code(g1.drop_last()) == grid_code(g2.drop_last()) && row_code(g1.last())
            == row_code(g2.last())) by (nonlinear_arith)
            requires
                grid_code(g1.drop_last()) * two_to(GRIDLEN as nat) + row_code(g1.last())
                    == grid_code(g2.drop_last()) * two_to(GRIDLEN as nat) + row_code(g2.last()),
                row_code(g1.last()) < two_to(GRIDLEN as nat),
                row_code(g2.last()) < two_to(GRIDLEN as nat),
        ;
        lemma_grid_code_inj(g1.drop_last(), g2.drop_last());
        lemma_row_code_inj(g1.last(), g2.last());
        assert(g1 =~= g2) by {
            assert(forall|i: int|
                0 <= i < g1.len() - 1 ==> g1[i] == g1.drop_last()[i] && g2[i] == g2.drop_last()[i]);
        }
    }
}

/// Distinct integers all lying in [0, m) cannot number more than m.
pub proof fn lemma_distinct_bounded(s: Seq<int>, m: int)
    requires
        m >= 0,
        s.no_duplicates(),
        forall|i: int| 0 <= i < s.len() ==> 0 <= #[trigger] s[i] < m,
    ensures
        s.len() <= m,
{
    broadcast use vstd::seq_lib::group_seq_properties;

    s.unique_seq_to_set();
    vstd::set_lib::lemma_int_range(0, m);
    assert(s.to_set().subset_of(vstd::set_lib::set_int_range(0, m)));
    vstd::set_lib::lemma_len_subset(s.to_set(), vstd::set_lib::set_int_range(0, m));
}

/// The heart of termination: a trajectory whose states so far are pairwise
/// distinct has visited at most as many states as there are grids, so its
/// length is below 2^(GRIDLEN * GRIDLEN).
pub proof fn lemma_trajectory_bounded(g0: Seq<Seq<bool>>, c: nat)
    requires
        wf_grid(g0),
        forall|k: nat, j: nat| k <= c && j < k ==> iterate(g0, k) != iterate(g0, j),
    ensures
        c < two_to((GRIDLEN * GRIDLEN) as nat),
{
    let s = Seq::new((c + 1) as nat, |k: int| grid_code(iterate(g0, k as nat)) as int);
    assert forall|i: int, j: int| 0 <= i < s.len() && 0 <= j < s.len() && i != j implies s[i]
        != s[j] by {
        lemma_iterate_wf(g0, i as nat);
        lemma_iterate_wf(g0, j as nat);
        if s[i] == s[j] {
            lemma_grid_code_inj(iterate(g0, i as nat), iterate(g0, j as nat));
            if i < j {
                assert(iterate(g0, j as nat) != iterate(g0, i as nat));
            } else {
                assert(iterate(g0, i as nat) != iterate(g0, j as nat));
            }
        }
    }
    assert forall|i: int| 0 <= i < s.len() implies 0 <= #[trigger] s[i] < two_to(
        (GRIDLEN * GRIDLEN) as nat,
    ) by {
        lemma_iterate_wf(g0, i as nat);
        lemma_grid_code_bound(iterate(g0, i as nat));
        assert(GRIDLEN * iterate(g0, i as nat).len() == GRIDLEN * GRIDLEN);
    }
    lemma_two_to_pos((GRIDLEN * GRIDLEN) as nat);
    lemma_distinct_bounded(s, two_to((GRIDLEN * GRIDLEN) as nat) as int);
}

} // verus!
