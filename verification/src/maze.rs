use vstd::prelude::*;

verus! {

use crate::coord::{Coord, apply_action, dest_x, dest_y, in_bounds, legal_at};
use crate::grid::{
    grid_total, lemma_cell_le_grid_total, lemma_grid_total_bounded, lemma_grid_total_take_le,
    lemma_grid_total_take_step, lemma_grid_total_zero_cell, lemma_row_total_take_le,
    lemma_row_total_take_step, rect, rows_view,
};
use crate::grid::{clone_grid, row_total};
use crate::rng::rand_below;

/// Mathematical model of a single-agent maze state.
pub ghost struct MazeV {
    pub points: Seq<Seq<u64>>,
    pub turn: int,
    pub x: int,
    pub y: int,
    pub game_score: int,
    pub evaluated_score: int,
    pub first_action: int,
    pub end_turn: int,
}

impl MazeV {
    pub open spec fn h(self) -> int {
        self.points.len() as int
    }

    pub open spec fn w(self) -> int {
        self.points[0].len() as int
    }

    /// Well-formedness: a non-empty rectangle, the agent on it, the turn
    /// within the budget, and enough headroom that collecting every reward
    /// cannot overflow the score.
    pub open spec fn wf(self) -> bool {
        &&& self.h() >= 1
        &&& self.w() >= 1
        &&& rect(self.points, self.h(), self.w())
        &&& in_bounds(self.x, self.y, self.w(), self.h())
        &&& 0 <= self.turn <= self.end_turn
        &&& 0 <= self.game_score
        &&& self.game_score + grid_total(self.points) <= u64::MAX
    }

    pub open spec fn is_done(self) -> bool {
        self.turn == self.end_turn
    }

    /// An action is legal iff the agent stays on the board.
    pub open spec fn legal(self, a: int) -> bool {
        0 <= a < 4 && legal_at(self.x, self.y, self.w(), self.h(), a)
    }

    /// Score a one-step lookahead assigns to taking `a`: the current score
    /// plus the reward at the destination cell.
    pub open spec fn gain(self, a: int) -> int {
        self.game_score + self.points[dest_y(self.y, a)][dest_x(self.x, a)]
    }

    /// State after applying one legal action: the agent moves, the reward at
    /// the new cell moves into the score and the cell is zeroed, the turn
    /// advances.
    pub open spec fn step(self, a: int) -> MazeV {
        let nx = dest_x(self.x, a);
        let ny = dest_y(self.y, a);
        MazeV {
            points: self.points.update(ny, self.points[ny].update(nx, 0u64)),
            turn: self.turn + 1,
            x: nx,
            y: ny,
            game_score: self.game_score + self.points[ny][nx],
            evaluated_score: self.evaluated_score,
            first_action: self.first_action,
            end_turn: self.end_turn,
        }
    }
}

/// The legal actions in ascending order of their index.
pub open spec fn legal_seq(v: MazeV) -> Seq<usize> {
    (if v.legal(0) {
        seq![0usize]
    } else {
        Seq::empty()
    }) + (if v.legal(1) {
        seq![1usize]
    } else {
        Seq::empty()
    }) + (if v.legal(2) {
        seq![2usize]
    } else {
        Seq::empty()
    }) + (if v.legal(3) {
        seq![3usize]
    } else {
        Seq::empty()
    })
}

/// On a well-formed board only the degenerate 1 by 1 grid has no legal
/// action; everywhere else at least one unit move stays in bounds.
pub proof fn lemma_legal_seq_empty(v: MazeV)
    requires
        v.wf(),
    ensures
        legal_seq(v).len() == 0 <==> (v.w() == 1 && v.h() == 1),
        legal_seq(v).len() == 0 <==> forall|a: int| !v.legal(a),
{
    if v.w() > 1 {
        assert(v.legal(0) || v.legal(1));
    }
    if v.h() > 1 {
        assert(v.legal(2) || v.legal(3));
    }
    if legal_seq(v).len() != 0 {
        assert(v.legal(legal_seq(v)[0] as int));
    }
}

/// Every member of the legal-action sequence is a legal action and the
/// sequence lists exactly the legal ones, in ascending order.
pub proof fn lemma_legal_seq_chars(v: MazeV)
    ensures
        forall|i: int|
            0 <= i < legal_seq(v).len() ==> v.legal(#[trigger] legal_seq(v)[i] as int),
        forall|a: usize| legal_seq(v).contains(a) <==> v.legal(a as int),
        forall|i: int, j: int|
            0 <= i < j < legal_seq(v).len() ==> legal_seq(v)[i] < legal_seq(v)[j],
{
    let s = legal_seq(v);
    assert forall|a: usize| s.contains(a) implies v.legal(a as int) by {
        let i = choose|i: int| 0 <= i < s.len() && s[i] == a;
        assert(v.legal(s[i] as int));
    }
    assert forall|a: usize| v.legal(a as int) implies s.contains(a) by {
        if a == 0 {
            assert(s[0] == 0usize);
        } else if a == 1 {
            let i = if v.legal(0) { 1int } else { 0int };
            assert(s[i] == 1usize);
        } else if a == 2 {
            let i = (if v.legal(0) { 1int } else { 0int }) + (if v.legal(1) { 1int } else { 0int });
            assert(s[i] == 2usize);
        } else {
            let i = (if v.legal(0) { 1int } else { 0int }) + (if v.legal(1) { 1int } else { 0int })
                + (if v.legal(2) { 1int } else { 0int });
            assert(s[i] == 3usize);
        }
    }
}

/// One step preserves well-formedness and conserves reward: what the step
/// adds to the score is exactly what it removes from the grid.
pub proof fn lemma_step(v: MazeV, a: int)
    requires
        v.wf(),
        !v.is_done(),
        v.legal(a),
    ensures
        v.step(a).wf(),
        v.step(a).game_score + grid_total(v.step(a).points) == v.game_score + grid_total(
            v.points,
        ),
        v.game_score <= v.step(a).game_score,
        v.step(a).turn == v.turn + 1 <= v.end_turn,
        v.step(a).end_turn == v.end_turn,
{
    let nx = dest_x(v.x, a);
    let ny = dest_y(v.y, a);
    lemma_cell_le_grid_total(v.points, ny, nx);
    lemma_grid_total_zero_cell(v.points, ny, nx);
}

/// A whole path of decisions is admissible: at each step the game is not
/// over yet and the action is legal there.
pub open spec fn path_ok(v: MazeV, acts: Seq<int>) -> bool
    decreases acts.len(),
{
    acts.len() == 0 || (!v.is_done() && v.legal(acts[0]) && path_ok(
        v.step(acts[0]),
        acts.drop_first(),
    ))
}

/// The state after applying a sequence of actions.
pub open spec fn maze_run(v: MazeV, acts: Seq<int>) -> MazeV
    decreases acts.len(),
{
    if acts.len() == 0 {
        v
    } else {
        maze_run(v.step(acts[0]), acts.drop_first())
    }
}

/// Extending a path by one action at its end: the run takes one more step,
/// and the longer path is admissible iff the shorter one is and the new
/// action is a legal move of a game that is not yet over.
pub proof fn lemma_maze_run_snoc(v: MazeV, acts: Seq<int>, a: int)
    ensures
        maze_run(v, acts.push(a)) == maze_run(v, acts).step(a),
        path_ok(v, acts.push(a)) <==> (path_ok(v, acts) && !maze_run(v, acts).is_done()
            && maze_run(v, acts).legal(a)),
    decreases acts.len(),
{
    let p = acts.push(a);
    if acts.len() == 0 {
        assert(p.drop_first() =~= Seq::<int>::empty());
        assert(p[0] == a);
        assert(maze_run(v, acts) == v);
        assert(maze_run(v.step(a), Seq::<int>::empty()) == v.step(a));
        assert(path_ok(v.step(a), Seq::<int>::empty()));
        assert(maze_run(v, p) == v.step(a));
    } else {
        assert(p.drop_first() =~= acts.drop_first().push(a));
        assert(p[0] == acts[0]);
        lemma_maze_run_snoc(v.step(acts[0]), acts.drop_first(), a);
        assert(maze_run(v, p) == maze_run(v.step(p[0]), p.drop_first()));
        assert(maze_run(v, acts) == maze_run(v.step(acts[0]), acts.drop_first()));
        assert(path_ok(v, p) <==> (!v.is_done() && v.legal(p[0]) && path_ok(
            v.step(p[0]),
            p.drop_first(),
        )));
        assert(path_ok(v, acts) <==> (!v.is_done() && v.legal(acts[0]) && path_ok(
            v.step(acts[0]),
            acts.drop_first(),
        )));
    }
}

/// Score conservation along any admissible path: the collected score plus
/// the reward still on the grid is a constant, so every cell contributes its
/// reward exactly once — at first visit — and never again.  Along the way
/// the turn counter grows one per step and never exceeds the turn budget.
pub proof fn lemma_score_conservation(v: MazeV, acts: Seq<int>)
    requires
        v.wf(),
        path_ok(v, acts),
    ensures
        maze_run(v, acts).wf(),
        maze_run(v, acts).game_score + grid_total(maze_run(v, acts).points) == v.game_score
            + grid_total(v.points),
        v.game_score <= maze_run(v, acts).game_score,
        maze_run(v, acts).turn == v.turn + acts.len() <= v.end_turn,
    decreases acts.len(),
{
    if acts.len() > 0 {
        lemma_step(v, acts[0]);
        lemma_score_conservation(v.step(acts[0]), acts.drop_first());
    }
}

/// An externally supplied board is acceptable iff it is a non-empty
/// rectangle, the start lies on it, and the total reward (with the start cell
/// zeroed) fits the score type.
pub open spec fn grid_input_ok(g: Seq<Seq<u64>>, x: int, y: int) -> bool {
    &&& g.len() >= 1
    &&& g[0].len() >= 1
    &&& rect(g, g.len() as int, g[0].len() as int)
    &&& in_bounds(x, y, g[0].len() as int, g.len() as int)
    &&& grid_total(g.update(y, g[y].update(x, 0u64))) <= u64::MAX
}

/// The mutable, cloneable world snapshot of the single-agent maze: remaining
/// rewards, agent position, turn counter, accumulated score, the cached
/// ordering key, and the first action recorded by the searches (-1 when
/// unset).
pub struct MazeState {
    pub points: Vec<Vec<u64>>,
    pub turn: usize,
    pub character: Coord,
    pub game_score: u64,
    pub evaluated_score: u64,
    pub first_action: i64,
    pub end_turn: usize,
}

impl View for MazeState {
    type V = MazeV;

    open spec fn view(&self) -> MazeV {
        MazeV {
            points: rows_view(self.points@),
            turn: self.turn as int,
            x: self.character.x as int,
            y: self.character.y as int,
            game_score: self.game_score as int,
            evaluated_score: self.evaluated_score as int,
            first_action: self.first_action as int,
            end_turn: self.end_turn as int,
        }
    }
}

impl Clone for MazeState {
    /// Branches of a search are created only by cloning; the copy models the
    /// same abstract state.
    fn clone(&self) -> (r: Self)
        ensures
            r@ == self@,
    {
        MazeState {
            points: clone_grid(&self.points),
            turn: self.turn,
            character: self.character,
            game_score: self.game_score,
            evaluated_score: self.evaluated_score,
            first_action: self.first_action,
            end_turn: self.end_turn,
        }
    }
}

impl MazeState {
    /// Fresh game on a randomly filled board: each cell except the agent's
    /// start gets a reward in 0..=9 drawn from `rng`; the agent starts at a
    /// uniformly drawn cell.
    pub fn new(h: usize, w: usize, end_turn: usize, rng: &mut rand::rngs::StdRng) -> (r:
        MazeState)
        requires
            h >= 1,
            w >= 1,
            h as int * w as int * 9 <= u64::MAX,
        ensures
            r@.wf(),
            r@.h() == h,
            r@.w() == w,
            r@.turn == 0,
            r@.game_score == 0,
            r@.evaluated_score == 0,
            r@.first_action == -1,
            r@.end_turn == end_turn,
            r@.points[r@.y][r@.x] == 0,
            forall|i: int, j: int|
                0 <= i < h && 0 <= j < w ==> #[trigger] r@.points[i][j] <= 9,
    {
        let cx = rand_below(rng, w);
        let cy = rand_below(rng, h);
        let mut points: Vec<Vec<u64>> = Vec::new();
        let mut y: usize = 0;
        while y < h
            invariant
                y <= h,
                points@.len() == y,
                forall|i: int| 0 <= i < y ==> (#[trigger] points@[i])@.len() == w,
                forall|i: int, j: int|
                    0 <= i < y && 0 <= j < w ==> #[trigger] points@[i]@[j] <= 9,
                cy < h,
                cx < w,
                cy < y ==> points@[cy as int]@[cx as int] == 0,
            decreases h - y,
        {
            let mut row: Vec<u64> = Vec::new();
            let mut x: usize = 0;
            while x < w
                invariant
                    x <= w,
                    row@.len() == x,
                    forall|j: int| 0 <= j < x ==> #[trigger] row@[j] <= 9,
                    cx < w,
                    (y == cy && cx < x) ==> row@[cx as int] == 0,
                decreases w - x,
            {
                if x == cx && y == cy {
                    row.push(0);
                } else {
                    let p = rand_below(rng, 10);
                    row.push(p as u64);
                }
                x = x + 1;
            }
            points.push(row);
            y = y + 1;
        }
        let r = MazeState {
            points,
            turn: 0,
            character: Coord { x: cx, y: cy },
            game_score: 0,
            evaluated_score: 0,
            first_action: -1,
            end_turn,
        };
        proof {
            let g = rows_view(r.points@);
            lemma_grid_total_bounded(g, w as int, 9);
            assert(g.len() * (w as int) * 9 <= h as int * w as int * 9) by (nonlinear_arith)
                requires
                    g.len() == h as int,
                    w >= 1,
            ;
        }
        r
    }

    /// Fresh game on a board supplied from outside.  The agent's start cell
    /// is forced to reward 0, as a freshly generated board would have it.
    /// Returns None when the rows are ragged or empty, the start is out of
    /// bounds, or the total reward would not fit the score type.
    #[verifier::loop_isolation(false)]
    pub fn fromGrid(points: Vec<Vec<u64>>, x: usize, y: usize, end_turn: usize) -> (r: Option<
        MazeState>)
        ensures
            r is Some <==> grid_input_ok(rows_view(points@), x as int, y as int),
            r matches Some(s) ==> (MazeV {
                points: rows_view(points@).update(
                    y as int,
                    rows_view(points@)[y as int].update(x as int, 0u64),
                ),
                turn: 0,
                x: x as int,
                y: y as int,
                game_score: 0,
                evaluated_score: 0,
                first_action: -1,
                end_turn: end_turn as int,
            }) == s@ && s@.wf(),
    {
        let h = points.len();
        if h == 0 {
            return None;
        }
        let w = points[0].len();
        if w == 0 {
            return None;
        }
        let mut i: usize = 0;
        while i < h
            invariant
                i <= h,
                h == points@.len(),
                forall|k: int| 0 <= k < i ==> (#[trigger] points@[k])@.len() == w,
            decreases h - i,
        {
            if points[i].len() != w {
                proof {
                    assert(rows_view(points@)[i as int].len() != w as int);
                }
                return None;
            }
            i = i + 1;
        }
        if x >= w || y >= h {
            return None;
        }
        let ghost g0 = rows_view(points@);
        let mut pts = clone_grid(&points);
        proof {
            assert(rows_view(pts@).len() == rows_view(points@).len());
            assert(rows_view(pts@)[y as int].len() == rows_view(points@)[y as int].len());
            assert(pts@.len() == h);
            assert(pts@[y as int]@.len() == w);
        }
        pts[y][x] = 0;
        let ghost g = g0.update(y as int, g0[y as int].update(x as int, 0u64));
        proof {
            assert(rows_view(pts@) =~= g);
            assert forall|k: int| 0 <= k < h implies (#[trigger] pts@[k])@.len() == w by {
                assert(pts@[k]@ == rows_view(pts@)[k]);
                assert(g0[k] == points@[k]@);
            }
        }
        let mut total: u64 = 0;
        let mut iy: usize = 0;
        while iy < h
            invariant
                iy <= h,
                h == pts@.len(),
                h >= 1,
                w >= 1,
                forall|k: int| 0 <= k < h ==> (#[trigger] pts@[k])@.len() == w,
                g == rows_view(pts@),
                total == grid_total(g.take(iy as int)),
            decreases h - iy,
        {
            let mut ix: usize = 0;
            while ix < w
                invariant
                    ix <= w,
                    iy < h,
                    h == pts@.len(),
                    forall|k: int| 0 <= k < h ==> (#[trigger] pts@[k])@.len() == w,
                    g == rows_view(pts@),
                    total == grid_total(g.take(iy as int)) + row_total(g[iy as int].take(
                        ix as int,
                    )),
                decreases w - ix,
            {
                let cell = pts[iy][ix];
                proof {
                    lemma_row_total_take_step(g[iy as int], ix as int);
                }
                match total.checked_add(cell) {
                    Some(t) => {
                        total = t;
                    },
                    None => {
                        proof {
                            assert(cell == g[iy as int][ix as int]);
                            lemma_row_total_take_le(g[iy as int], ix as int + 1);
                            lemma_grid_total_take_step(g, iy as int);
                            lemma_grid_total_take_le(g, iy as int + 1);
                            assert(grid_total(g) > u64::MAX);
                        }
                        return None;
                    },
                }
                ix = ix + 1;
            }
            proof {
                lemma_grid_total_take_step(g, iy as int);
                assert(g[iy as int].take(w as int) =~= g[iy as int]);
            }
            iy = iy + 1;
        }
        proof {
            assert(g.take(h as int) =~= g);
        }
        let r = MazeState {
            points: pts,
            turn: 0,
            character: Coord { x, y },
            game_score: 0,
            evaluated_score: 0,
            first_action: -1,
            end_turn,
        };
        proof {
            assert(grid_total(g) == total);
            assert(r@.points == g);
            assert(r@.wf());
        }
        Some(r)
    }

    /// Game over when the turn budget is spent.
    pub fn isDone(&self) -> (r: bool)
        ensures
            r == self@.is_done(),
    {
        self.turn == self.end_turn
    }

    /// The legal actions at the current position, ascending.
    pub fn legalActions(&self) -> (r: Vec<usize>)
        requires
            self@.wf(),
        ensures
            r@ == legal_seq(self@),
            r@.len() == 0 <==> (self@.w() == 1 && self@.h() == 1),
    {
        let w = self.points[0].len();
        let h = self.points.len();
        let mut actions: Vec<usize> = Vec::new();
        if self.character.x + 1 < w {
            actions.push(0);
        }
        if self.character.x >= 1 {
            actions.push(1);
        }
        if self.character.y + 1 < h {
            actions.push(2);
        }
        if self.character.y >= 1 {
            actions.push(3);
        }
        proof {
            assert(actions@ =~= legal_seq(self@));
            lemma_legal_seq_empty(self@);
        }
        actions
    }

    /// Whether one particular action is legal here.
    pub fn legalAt(&self, action: usize) -> (r: bool)
        requires
            self@.wf(),
        ensures
            r == self@.legal(action as int),
    {
        if action >= 4 {
            return false;
        }
        let w = self.points[0].len();
        let h = self.points.len();
        if action == 0 {
            self.character.x + 1 < w
        } else if action == 1 {
            self.character.x >= 1
        } else if action == 2 {
            self.character.y + 1 < h
        } else {
            self.character.y >= 1
        }
    }

    /// Applies one legal move: the agent steps, the reward at the new cell is
    /// collected exactly once (the cell is zeroed), the turn advances.  The
    /// collected reward moves from the grid total to the score, so their sum
    /// is conserved.
    pub fn advance(&mut self, action: usize)
        requires
            old(self)@.wf(),
            !old(self)@.is_done(),
            old(self)@.legal(action as int),
        ensures
            final(self)@ == old(self)@.step(action as int),
            final(self)@.wf(),
            final(self)@.game_score + grid_total(final(self)@.points) == old(self)@.game_score
                + grid_total(old(self)@.points),
            final(self)@.game_score >= old(self)@.game_score,
            final(self)@.turn == old(self)@.turn + 1 <= final(self)@.end_turn,
    {
        let h = self.points.len();
        let w = self.points[0].len();
        proof {
            assert(old(self)@.h() == h as int);
            assert(old(self)@.w() == w as int);
        }
        let c = apply_action(self.character, action);
        self.character = c;
        proof {
            assert(rect(old(self)@.points, h as int, w as int));
            assert(old(self)@.points[c.y as int].len() == w as int);
        }
        let p = self.points[c.y][c.x];
        proof {
            lemma_cell_le_grid_total(old(self)@.points, c.y as int, c.x as int);
        }
        self.game_score = self.game_score + p;
        self.points[c.y][c.x] = 0;
        self.turn = self.turn + 1;
        proof {
            let ov = old(self)@;
            let a = action as int;
            lemma_grid_total_zero_cell(ov.points, dest_y(ov.y, a), dest_x(ov.x, a));
            assert(rows_view(self.points@) =~= ov.points.update(
                dest_y(ov.y, a),
                ov.points[dest_y(ov.y, a)].update(dest_x(ov.x, a), 0u64),
            ));
            assert(self@ == ov.step(a));
        }
    }

    /// Recomputes the cached ordering key; for this game it is the score.
    pub fn evaluateScore(&mut self)
        ensures
            final(self)@ == (MazeV { evaluated_score: old(self)@.game_score, ..old(self)@ }),
    {
        self.evaluated_score = self.game_score;
    }
}

} // verus!
