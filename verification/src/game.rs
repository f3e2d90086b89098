//! The cycle-detecting runner: it advances the board generation by
//! generation, records every state it has passed through, and stops at the
//! first state it has seen before. The history grows by one entry per
//! iteration and states never repeat before the stop, so the pigeonhole
//! bound on distinct grids proves that the loop terminates.
use vstd::prelude::*;

use vstd::string::StringExecFns;

use crate::board::Board;
use crate::board::lemma_grid_view;
use crate::grid::GRIDLEN;
use crate::grid::is_first_repeat;
use crate::grid::iterate;
use crate::grid::lemma_iterate_wf;
use crate::grid::lemma_trajectory_bounded;
use crate::grid::lemma_two_to_pos;
use crate::grid::step;
use crate::grid::two_to;
use crate::grid::wf_grid;
use crate::render::Draw;
use crate::render::classification_chars;
use crate::render::dec_string;
use crate::render::render_grid;

verus! {

/// A run's options: whether to draw generations, whether to hand back a
/// summary, and how long to pause between drawn generations.
pub struct Config {
    pub args: Vec<String>,
    pub draws: bool,
    pub returns: bool,
    pub sleeptime: u64,
}

/// Applying a configuration record to a value.
pub trait Configure: Sized {
    /// How the new value relates to the old one and the record applied.
    spec fn configured(pre: Self, post: Self, c: Config) -> bool;

    fn configure(&mut self, c: Config)
        ensures
            Self::configured(*old(self), *final(self), c),
    ;
}

/// The summary of a finished run: the board at the moment the repeat was
/// found, the iteration count at that moment, and the iteration at which
/// the repeated state had first been recorded.
pub struct Results {
    final_board: Board,
    final_count: u64,
    repeating_key: u64,
}

impl Results {
    #[verifier::type_invariant]
    spec fn type_inv(self) -> bool {
        &&& 1 <= self.repeating_key <= self.final_count
        &&& self.final_board.wf()
    }

    /// The grid the run ended on.
    pub closed spec fn spec_board(self) -> Seq<Seq<bool>> {
        self.final_board@
    }

    /// The iteration at which the run stopped.
    pub closed spec fn spec_final_count(self) -> u64 {
        self.final_count
    }

    /// The iteration at which the repeated state was first recorded.
    pub closed spec fn spec_repeating_key(self) -> u64 {
        self.repeating_key
    }

    /// A fresh board holding the final grid.
    pub fn to_board(&self) -> (b: Board)
        ensures
            b.wf(),
            b@ == self.spec_board(),
    {
        proof {
            use_type_invariant(&*self);
        }
        let b = Board::from_grid(self.final_board.get_state());
        proof {
            crate::grid::lemma_clipped_wf(self.spec_board());
        }
        b
    }

    /// The iteration at which the run stopped.
    pub fn final_count(&self) -> (n: u64)
        ensures
            n == self.spec_final_count(),
    {
        self.final_count
    }

    /// The iteration at which the repeated state was first recorded.
    pub fn repeating_key(&self) -> (n: u64)
        ensures
            n == self.spec_repeating_key(),
            1 <= n <= self.spec_final_count(),
    {
        proof {
            use_type_invariant(&*self);
        }
        self.repeating_key
    }

    /// Distance between the repeat and its first occurrence: 0 for a fixed
    /// point, 1 for an alternating pair, the period otherwise.
    pub fn pattern_length(&self) -> (n: u64)
        ensures
            n == self.spec_final_count() - self.spec_repeating_key(),
    {
        proof {
            use_type_invariant(&*self);
        }
        self.final_count - self.repeating_key
    }
}

impl Draw for Results {
    open spec fn draw_requires(&self) -> bool {
        true
    }

    open spec fn draw_spec(&self) -> Seq<char> {
        render_grid(self.spec_board()) + "\n"@ + classification_chars(
            self.spec_final_count(),
            self.spec_repeating_key(),
        )
    }

    /// The final board's picture followed by the classification line.
    fn draw(&self) -> (s: String) {
        proof {
            use_type_invariant(&*self);
        }
        let mut s = self.final_board.draw();
        s.append("\n");
        let pattern_length = self.final_count - self.repeating_key;
        if pattern_length == 0 {
            s.append("Pattern became static at iteration: ");
            let d = dec_string(self.repeating_key);
            s.append(d.as_str());
        } else if pattern_length == 1 {
            s.append("Alternating pattern at iteration: ");
            let d = dec_string(self.repeating_key);
            s.append(d.as_str());
        } else {
            s.append("Repeating pattern between iterations ");
            let d1 = dec_string(self.repeating_key);
            s.append(d1.as_str());
            s.append(" and ");
            let d2 = dec_string(self.final_count);
            s.append(d2.as_str());
            s.append("\nLooping pattern length: ");
            let d3 = dec_string(pattern_length);
            s.append(d3.as_str());
        }
        proof {
            assert(s@ =~= self.draw_spec());
        }
        s
    }
}

/// Whether two boolean matrices hold the same rows of cells.
fn rows_equal(a: &Vec<bool>, b: &Vec<bool>) -> (r: bool)
    ensures
        r == (a@ == b@),
{
    if a.len() != b.len() {
        return false;
    }
    let mut i: usize = 0;
    while i < a.len()
        invariant
            a@.len() == b@.len(),
            i <= a@.len(),
            forall|k: int| 0 <= k < i ==> a@[k] == b@[k],
        decreases a@.len() - i,
    {
        if a[i] != b[i] {
            return false;
        }
        i = i + 1;
    }
    proof {
        assert(a@ =~= b@);
    }
    true
}

/// Whether two boolean matrices are cell-for-cell equal.
fn grids_equal(a: &Vec<Vec<bool>>, b: &Vec<Vec<bool>>) -> (r: bool)
    ensures
        r == (a.deep_view() == b.deep_view()),
{
    proof {
        lemma_grid_view(a);
        lemma_grid_view(b);
    }
    if a.len() != b.len() {
        proof {
            assert(a.deep_view().len() != b.deep_view().len());
        }
        return false;
    }
    let mut i: usize = 0;
    while i < a.len()
        invariant
            a@.len() == b@.len(),
            a.deep_view().len() == a@.len(),
            b.deep_view().len() == b@.len(),
            forall|k: int| 0 <= k < a@.len() ==> #[trigger] a.deep_view()[k] == a@[k]@,
            forall|k: int| 0 <= k < b@.len() ==> #[trigger] b.deep_view()[k] == b@[k]@,
            i <= a@.len(),
            forall|k: int| 0 <= k < i ==> a.deep_view()[k] == b.deep_view()[k],
        decreases a@.len() - i,
    {
        if !rows_equal(&a[i], &b[i]) {
            proof {
                assert(a.deep_view()[i as int] != b.deep_view()[i as int]);
            }
            return false;
        }
        i = i + 1;
    }
    proof {
        assert(a.deep_view() =~= b.deep_view());
    }
    true
}

/// The earliest history entry holding the given grid, if any: its recorded
/// iteration index.
fn history_find(entries: &Vec<(Vec<Vec<bool>>, u64)>, target: &Vec<Vec<bool>>) -> (r: Option<u64>)
    ensures
        match r {
            Some(j) => exists|i: int|
                0 <= i < entries@.len() && (#[trigger] entries@[i]).1 == j
                    && entries@[i].0.deep_view() == target.deep_view() && forall|i2: int|
                    0 <= i2 < i ==> entries@[i2].0.deep_view() != target.deep_view(),
            None => forall|i: int|
                0 <= i < entries@.len() ==> (#[trigger] entries@[i]).0.deep_view()
                    != target.deep_view(),
        },
{
    let mut i: usize = 0;
    while i < entries.len()
        invariant
            i <= entries@.len(),
            forall|i2: int|
                0 <= i2 < i ==> (#[trigger] entries@[i2]).0.deep_view() != target.deep_view(),
        decreases entries@.len() - i,
    {
        if grids_equal(&entries[i].0, target) {
            let found = entries[i].1;
            proof {
                let gi = i as int;
                assert(0 <= gi < entries@.len() && entries@[gi].1 == found
                    && entries@[gi].0.deep_view() == target.deep_view());
            }
            return Some(found);
        }
        i = i + 1;
    }
    None
}

/// The runner: a board, the map from every state already seen to the
/// iteration at which it was recorded, and the run's options.
pub struct Game {
    board: Board,
    past_states: Vec<(Vec<Vec<bool>>, u64)>,
    sleeptime: u64,
    draw: bool,
    returns: bool,
}

impl Game {
    /// The grid the next iteration will start from.
    pub closed spec fn spec_board(self) -> Seq<Seq<bool>> {
        self.board@
    }

    /// The game's invariant: its board keeps the fixed square shape.
    pub open spec fn wf(self) -> bool {
        wf_grid(self.spec_board())
    }

    /// Whether `run` hands back a summary.
    pub closed spec fn spec_returns(self) -> bool {
        self.returns
    }

    /// Whether generations are meant to be drawn.
    pub closed spec fn spec_draw(self) -> bool {
        self.draw
    }

    /// The pause between drawn generations, in milliseconds.
    pub closed spec fn spec_sleeptime(self) -> u64 {
        self.sleeptime
    }

    /// How many states the history holds.
    pub closed spec fn history_len(self) -> nat {
        self.past_states@.len()
    }

    /// The recorded history itself; named so that contracts can say a step
    /// leaves it untouched.
    pub closed spec fn spec_history(self) -> Seq<(Vec<Vec<bool>>, u64)> {
        self.past_states@
    }

    /// A value copy of the grid the next iteration will start from, for a
    /// caller that renders generations between ticks.
    pub fn current_board(&self) -> (b: Board)
        requires
            self.wf(),
        ensures
            b.wf(),
            b@ == self.spec_board(),
    {
        self.board.clone()
    }

    /// A fresh runner around a board: empty history, drawing on, summary
    /// requested, 25 ms between drawn generations. A fresh runner on a
    /// well-shaped board is ready to be stepped.
    pub fn new(board: Board) -> (g: Game)
        ensures
            g.spec_board() == board@,
            g.history_len() == 0,
            g.spec_returns(),
            g.spec_draw(),
            g.spec_sleeptime() == 25,
            board.wf() ==> g.in_run() && g.run_origin() == board@,
    {
        let g = Game { board, past_states: Vec::new(), sleeptime: 25, draw: true, returns: true };
        proof {
            lemma_two_to_pos((GRIDLEN * GRIDLEN) as nat);
        }
        g
    }

    fn set_sleeptime(&mut self, n: &u64)
        ensures
            final(self).spec_sleeptime() == *n,
            final(self).spec_board() == old(self).spec_board(),
            final(self).spec_draw() == old(self).spec_draw(),
            final(self).spec_returns() == old(self).spec_returns(),
            final(self).spec_history() == old(self).spec_history(),
    {
        self.sleeptime = *n;
    }

    fn set_draw(&mut self, b: &bool)
        ensures
            final(self).spec_draw() == *b,
            final(self).spec_board() == old(self).spec_board(),
            final(self).spec_sleeptime() == old(self).spec_sleeptime(),
            final(self).spec_returns() == old(self).spec_returns(),
            final(self).spec_history() == old(self).spec_history(),
    {
        self.draw = *b;
    }

    fn set_returns(&mut self, b: &bool)
        ensures
            final(self).spec_returns() == *b,
            final(self).spec_board() == old(self).spec_board(),
            final(self).spec_sleeptime() == old(self).spec_sleeptime(),
            final(self).spec_draw() == old(self).spec_draw(),
            final(self).spec_history() == old(self).spec_history(),
    {
        self.returns = *b;
    }

    /// One generation of the board, leaving the history and the options
    /// untouched. A caller that honours the drawing options renders
    /// `current_board` before each tick and paces by `spec_sleeptime`;
    /// drawing is a pure side effect and never changes the trajectory.
    pub fn tick(&mut self)
        requires
            old(self).wf(),
        ensures
            final(self).wf(),
            final(self).spec_board() == step(old(self).spec_board()),
            final(self).spec_history() == old(self).spec_history(),
            final(self).history_len() == old(self).history_len(),
            final(self).spec_returns() == old(self).spec_returns(),
            final(self).spec_draw() == old(self).spec_draw(),
            final(self).spec_sleeptime() == old(self).spec_sleeptime(),
    {
        self.board.update();
    }

    /// The state a run in progress started from: the first recorded state,
    /// or the current board when nothing is recorded yet.
    pub closed spec fn run_origin(self) -> Seq<Seq<bool>> {
        if self.past_states@.len() == 0 {
            self.board@
        } else {
            self.past_states@[0].0.deep_view()
        }
    }

    /// A run in progress: the recorded states are exactly the generations
    /// of the origin, in order and under their indices, none of them a
    /// repeat of an earlier one, and the board holds the generation to be
    /// recorded next. A fresh game is in this state, and `run_step` keeps
    /// it until the first repeat.
    pub closed spec fn in_run(self) -> bool {
        let g0 = self.run_origin();
        &&& wf_grid(g0)
        &&& self.board@ == iterate(g0, self.past_states@.len() as nat)
        &&& self.past_states@.len() < two_to((GRIDLEN * GRIDLEN) as nat)
        &&& forall|i: int|
            0 <= i < self.past_states@.len() ==> (#[trigger] self.past_states@[i]).0.deep_view()
                == iterate(g0, i as nat) && self.past_states@[i].1 == i as u64
        &&& forall|k: nat, j: nat|
            1 <= k <= self.past_states@.len() && j < k ==> iterate(g0, k) != iterate(g0, j)
    }

    /// One iteration of the runner: record the state the board holds,
    /// advance one generation, and hand back the summary if the new state
    /// has been seen before — the first repeat, since earlier iterations
    /// found none. On None the run is still in progress and can be stepped
    /// again; a caller that draws generations renders `current_board` and
    /// paces by `spec_sleeptime` between steps, which cannot change the
    /// trajectory.
    pub fn run_step(&mut self) -> (r: Option<Results>)
        requires
            old(self).in_run(),
        ensures
            final(self).wf(),
            final(self).spec_board() == step(old(self).spec_board()),
            final(self).history_len() == old(self).history_len() + 1,
            final(self).spec_returns() == old(self).spec_returns(),
            final(self).spec_draw() == old(self).spec_draw(),
            final(self).spec_sleeptime() == old(self).spec_sleeptime(),
            r is None ==> final(self).in_run() && final(self).run_origin() == old(
                self,
            ).run_origin(),
            (r matches Some(res) ==> {
                &&& 1 <= res.spec_repeating_key() <= res.spec_final_count()
                &&& res.spec_final_count() as nat == old(self).history_len() + 1
                &&& is_first_repeat(
                    old(self).run_origin(),
                    res.spec_final_count() as nat,
                    (res.spec_repeating_key() - 1) as nat,
                )
                &&& res.spec_board() == iterate(
                    old(self).run_origin(),
                    res.spec_final_count() as nat,
                )
                &&& final(self).spec_board() == res.spec_board()
            }),
    {
        let ghost g0 = self.run_origin();
        let ghost c = self.past_states@.len();
        let snap = self.board.get_state();
        let j = self.past_states.len();
        self.past_states.push((snap, j as u64));
        self.tick();
        proof {
            assert(iterate(g0, (c + 1) as nat) == step(iterate(g0, c as nat)));
            assert(self.board@ == iterate(g0, (c + 1) as nat));
            assert(self.past_states@[0].0.deep_view() == g0);
            assert(self.run_origin() == g0);
        }
        let new_state = self.board.get_state();
        let found = history_find(&self.past_states, &new_state);
        if let Some(jf) = found {
            proof {
                let i = choose|i: int|
                    0 <= i < self.past_states@.len() && (#[trigger] self.past_states@[i]).1 == jf
                        && self.past_states@[i].0.deep_view() == new_state.deep_view() && forall|
                        i2: int,
                    |
                        0 <= i2 < i ==> self.past_states@[i2].0.deep_view()
                            != new_state.deep_view();
                assert(self.past_states@[i].0.deep_view() == iterate(g0, i as nat));
                assert(jf == i as u64);
                assert(iterate(g0, i as nat) == iterate(g0, (c + 1) as nat));
                assert(i <= c);
                assert(is_first_repeat(g0, (c + 1) as nat, i as nat)) by {
                    assert forall|j2: nat| j2 < i as nat implies #[trigger] iterate(g0, j2)
                        != iterate(g0, (c + 1) as nat) by {
                        assert(self.past_states@[j2 as int].0.deep_view() == iterate(g0, j2));
                        assert(self.past_states@[j2 as int].0.deep_view()
                            != new_state.deep_view());
                    }
                }
            }
            let count = self.past_states.len();
            let fb = self.board.clone();
            proof {
                lemma_iterate_wf(g0, (c + 1) as nat);
            }
            let res = Results { final_board: fb, final_count: count as u64, repeating_key: jf + 1 };
            proof {
                assert(res.spec_final_count() as nat == (c + 1) as nat);
                assert((res.spec_repeating_key() - 1) as nat == jf as nat);
            }
            Some(res)
        } else {
            proof {
                assert forall|k: nat, j2: nat|
                    1 <= k <= self.past_states@.len() && j2 < k implies iterate(g0, k) != iterate(
                    g0,
                    j2,
                ) by {
                    if k == c + 1 {
                        assert(self.past_states@[j2 as int].0.deep_view() == iterate(g0, j2));
                        assert(self.past_states@[j2 as int].0.deep_view()
                            != new_state.deep_view());
                        assert(new_state.deep_view() == iterate(g0, (c + 1) as nat));
                    }
                }
                lemma_trajectory_bounded(g0, (c + 1) as nat);
                assert(self.in_run());
            }
            None
        }
    }

    /// Iterate the board until some state comes up for the second time.
    /// Every iteration first records the state it starts from, then advances;
    /// the returned summary names the first repeated state: the iteration at
    /// which the run stopped and the one at which that state was recorded.
    pub fn run(&mut self) -> (r: Option<Results>)
        requires
            old(self).wf(),
            old(self).history_len() == 0,
        ensures
            final(self).wf(),
            r is Some <==> old(self).spec_returns(),
            exists|k: nat, j: nat|
                #[trigger] is_first_repeat(old(self).spec_board(), k, j) && final(self).spec_board()
                    == iterate(old(self).spec_board(), k),
            (r matches Some(res) ==> {
                &&& 1 <= res.spec_repeating_key() <= res.spec_final_count()
                &&& is_first_repeat(
                    old(self).spec_board(),
                    res.spec_final_count() as nat,
                    (res.spec_repeating_key() - 1) as nat,
                )
                &&& res.spec_board() == iterate(
                    old(self).spec_board(),
                    res.spec_final_count() as nat,
                )
                &&& final(self).spec_board() == res.spec_board()
            }),
    {
        proof {
            lemma_two_to_pos((GRIDLEN * GRIDLEN) as nat);
            assert(self.in_run());
        }
        loop
            invariant
                self.in_run(),
                self.run_origin() == old(self).spec_board(),
                self.returns == old(self).spec_returns(),
            decreases two_to((GRIDLEN * GRIDLEN) as nat) - self.past_states@.len(),
        {
            let stepped = self.run_step();
            if let Some(res) = stepped {
                if self.returns {
                    return Some(res);
                } else {
                    return None;
                }
            }
        }
    }
}

impl Configure for Game {
    open spec fn configured(pre: Game, post: Game, c: Config) -> bool {
        &&& post.spec_board() == pre.spec_board()
        &&& post.spec_history() == pre.spec_history()
        &&& post.spec_draw() == c.draws
        &&& post.spec_returns() == c.returns
        &&& post.spec_sleeptime() == c.sleeptime
    }

    /// Takes the drawing, pacing and summary options from the record.
    fn configure(&mut self, c: Config) {
        self.set_draw(&c.draws);
        self.set_sleeptime(&c.sleeptime);
        self.set_returns(&c.returns);
    }
}

impl From<Board> for Game {
    fn from(board: Board) -> Self {
        Game::new(board)
    }
}

impl vstd::std_specs::convert::FromSpecImpl<Board> for Game {
    open spec fn obeys_from_spec() -> bool {
        false
    }

    open spec fn from_spec(v: Board) -> Self {
        arbitrary()
    }
}

impl From<Vec<(usize, usize)>> for Game {
    fn from(coordinates: Vec<(usize, usize)>) -> Self {
        Game::new(Board::from_coordinates(coordinates))
    }
}

impl vstd::std_specs::convert::FromSpecImpl<Vec<(usize, usize)>> for Game {
    open spec fn obeys_from_spec() -> bool {
        false
    }

    open spec fn from_spec(v: Vec<(usize, usize)>) -> Self {
        arbitrary()
    }
}

} // verus!
