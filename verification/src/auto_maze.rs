use vstd::prelude::*;

verus! {

use crate::coord::{apply_action, coord_legal, Coord, dest_x, dest_y, in_bounds, legal_at};
use crate::grid::{
    clone_grid, grid_total, lemma_cell_le_grid_total, lemma_grid_total_bounded,
    lemma_grid_total_nonneg, lemma_grid_total_zero_cell, rect, rows_view,
};
use crate::rng::{xorshift_iter, xorshift_step, Xorshift};

/// Mathematical model of the multi-agent auto-move maze state.
pub ghost struct AutoV {
    pub points: Seq<Seq<u64>>,
    pub turn: int,
    pub characters: Seq<Coord>,
    pub game_score: int,
    pub evaluated_score: int,
    pub end_turn: int,
}

impl AutoV {
    pub open spec fn h(self) -> int {
        self.points.len() as int
    }

    pub open spec fn w(self) -> int {
        self.points[0].len() as int
    }

    pub open spec fn char_in_bounds(self, i: int) -> bool {
        in_bounds(self.characters[i].x as int, self.characters[i].y as int, self.w(), self.h())
    }

    /// Well-formedness: a non-empty rectangle, at least one agent, all agents
    /// on the board, the turn within budget, and enough headroom that
    /// collecting every reward cannot overflow the score.
    pub open spec fn wf(self) -> bool {
        &&& 1 <= self.h() <= usize::MAX
        &&& 1 <= self.w() <= usize::MAX
        &&& rect(self.points, self.h(), self.w())
        &&& self.characters.len() >= 1
        &&& forall|i: int| 0 <= i < self.characters.len() ==> self.char_in_bounds(i)
        &&& 0 <= self.turn <= self.end_turn
        &&& 0 <= self.game_score
        &&& self.game_score + grid_total(self.points) <= u64::MAX
    }

    pub open spec fn is_done(self) -> bool {
        self.turn == self.end_turn
    }
}

/// Reward on the cell agent `i` would reach by action `a`.
pub open spec fn pt_at(v: AutoV, i: int, a: int) -> int {
    v.points[dest_y(v.characters[i].y as int, a)][dest_x(v.characters[i].x as int, a)] as int
}

/// Whether action `a` keeps agent `i` on the board.
pub open spec fn pilot_legal(v: AutoV, i: int, a: int) -> bool {
    legal_at(v.characters[i].x as int, v.characters[i].y as int, v.w(), v.h(), a)
}

/// The auto-pilot's scan of the action indices below `n` for agent `i`: the
/// best action seen and its cell reward, `(-1, -1)` while none is legal.  A
/// later action displaces an earlier one only by a strictly greater reward,
/// so the lowest action index wins ties.
pub open spec fn pilot_scan(v: AutoV, i: int, n: int) -> (int, int)
    decreases n,
{
    if n <= 0 {
        (-1int, -1int)
    } else {
        let prev = pilot_scan(v, i, n - 1);
        if pilot_legal(v, i, n - 1) && pt_at(v, i, n - 1) > prev.1 {
            (n - 1, pt_at(v, i, n - 1))
        } else {
            prev
        }
    }
}

/// Where the one-step greedy auto-pilot sends agent `i`; an agent with no
/// legal move stays in place.
pub open spec fn pilot_dest(v: AutoV, i: int) -> Coord {
    let c = v.characters[i];
    let s = pilot_scan(v, i, 4);
    if s.0 == -1 {
        c
    } else {
        Coord { x: dest_x(c.x as int, s.0) as usize, y: dest_y(c.y as int, s.0) as usize }
    }
}

pub proof fn lemma_pilot_scan(v: AutoV, i: int, n: int)
    requires
        0 <= n <= 4,
    ensures
        pilot_scan(v, i, n).0 == -1 ==> pilot_scan(v, i, n).1 == -1,
        (pilot_scan(v, i, n).0 == -1) <==> (forall|a: int| 0 <= a < n ==> !pilot_legal(v, i, a)),
        pilot_scan(v, i, n).0 != -1 ==> 0 <= pilot_scan(v, i, n).0 < n && pilot_legal(
            v,
            i,
            pilot_scan(v, i, n).0,
        ) && pilot_scan(v, i, n).1 == pt_at(v, i, pilot_scan(v, i, n).0),
    decreases n,
{
    if n > 0 {
        lemma_pilot_scan(v, i, n - 1);
    }
}

/// The auto-pilot never sends an agent off the board.
pub proof fn lemma_pilot_dest_in_bounds(v: AutoV, i: int)
    requires
        v.wf(),
        0 <= i < v.characters.len(),
    ensures
        in_bounds(pilot_dest(v, i).x as int, pilot_dest(v, i).y as int, v.w(), v.h()),
{
    lemma_pilot_scan(v, i, 4);
    assert(v.char_in_bounds(i));
    let s = pilot_scan(v, i, 4);
    if s.0 != -1 {
        let c = v.characters[i];
        assert(pilot_legal(v, i, s.0));
        assert(0 <= dest_x(c.x as int, s.0) < v.w());
        assert(0 <= dest_y(c.y as int, s.0) < v.h());
        assert(pilot_dest(v, i).x as int == dest_x(c.x as int, s.0));
        assert(pilot_dest(v, i).y as int == dest_y(c.y as int, s.0));
    }
}

/// The scan depends only on the grid and the agent's own position.
pub proof fn lemma_pilot_scan_agree(v1: AutoV, v2: AutoV, i: int, n: int)
    requires
        v1.points == v2.points,
        v1.characters[i] == v2.characters[i],
    ensures
        pilot_scan(v1, i, n) == pilot_scan(v2, i, n),
    decreases n,
{
    if n > 0 {
        lemma_pilot_scan_agree(v1, v2, i, n - 1);
    }
}

/// The auto-pilot's destination for an agent depends only on the grid and
/// that agent's own position, never on the other agents.
pub proof fn lemma_pilot_dest_agree(v1: AutoV, v2: AutoV, i: int)
    requires
        v1.points == v2.points,
        v1.characters[i] == v2.characters[i],
    ensures
        pilot_dest(v1, i) == pilot_dest(v2, i),
{
    lemma_pilot_scan_agree(v1, v2, i, 4);
}

/// All agents after one synchronized auto-pilot step.
pub open spec fn moved_chars(v: AutoV) -> Seq<Coord> {
    Seq::new(v.characters.len(), |i: int| pilot_dest(v, i))
}

/// Sequential collection by the first `n` agents, in agent order: each takes
/// the reward at its cell and zeroes it, so of two agents on one cell only
/// the earlier one collects.
pub open spec fn collect(g: Seq<Seq<u64>>, cs: Seq<Coord>, n: int) -> (Seq<Seq<u64>>, int)
    decreases n,
{
    if n <= 0 {
        (g, 0int)
    } else {
        let prev = collect(g, cs, n - 1);
        let cy = cs[n - 1].y as int;
        let cx = cs[n - 1].x as int;
        let p = prev.0[cy][cx];
        (prev.0.update(cy, prev.0[cy].update(cx, 0u64)), prev.1 + p)
    }
}

/// Collection moves reward from the grid to the score one for one, keeps the
/// grid rectangular, and collects a non-negative amount.
pub proof fn lemma_collect(g: Seq<Seq<u64>>, cs: Seq<Coord>, n: int, h: int, w: int)
    requires
        0 <= n <= cs.len(),
        rect(g, h, w),
        h >= 1,
        w >= 1,
        forall|i: int|
            0 <= i < cs.len() ==> in_bounds((#[trigger] cs[i]).x as int, cs[i].y as int, w, h),
    ensures
        rect(collect(g, cs, n).0, h, w),
        0 <= collect(g, cs, n).1,
        grid_total(collect(g, cs, n).0) + collect(g, cs, n).1 == grid_total(g),
    decreases n,
{
    if n > 0 {
        lemma_collect(g, cs, n - 1, h, w);
        let prev = collect(g, cs, n - 1);
        let cy = cs[n - 1].y as int;
        let cx = cs[n - 1].x as int;
        lemma_grid_total_zero_cell(prev.0, cy, cx);
    }
}

/// One full decision step of the multi-agent game: every agent moves by the
/// auto-pilot, then the landed-on rewards are collected in agent order, then
/// the turn advances.
pub open spec fn advance_spec(v: AutoV) -> AutoV {
    let mc = moved_chars(v);
    let col = collect(v.points, mc, mc.len() as int);
    AutoV {
        points: col.0,
        turn: v.turn + 1,
        characters: mc,
        game_score: v.game_score + col.1,
        evaluated_score: v.evaluated_score,
        end_turn: v.end_turn,
    }
}

pub proof fn lemma_advance_spec(v: AutoV)
    requires
        v.wf(),
        !v.is_done(),
    ensures
        advance_spec(v).wf(),
        advance_spec(v).turn == v.turn + 1,
        advance_spec(v).end_turn == v.end_turn,
        advance_spec(v).characters.len() == v.characters.len(),
        advance_spec(v).game_score >= v.game_score,
        advance_spec(v).game_score + grid_total(advance_spec(v).points) == v.game_score
            + grid_total(v.points),
        advance_spec(v).h() == v.h(),
        advance_spec(v).w() == v.w(),
{
    let mc = moved_chars(v);
    assert forall|i: int| 0 <= i < mc.len() implies in_bounds(
        (#[trigger] mc[i]).x as int,
        mc[i].y as int,
        v.w(),
        v.h(),
    ) by {
        lemma_pilot_dest_in_bounds(v, i);
    }
    lemma_collect(v.points, mc, mc.len() as int, v.h(), v.w());
    assert(advance_spec(v).w() == v.w()) by {
        assert(rect(collect(v.points, mc, mc.len() as int).0, v.h(), v.w()));
    }
    let av = advance_spec(v);
    assert forall|i: int| 0 <= i < av.characters.len() implies av.char_in_bounds(i) by {
        lemma_pilot_dest_in_bounds(v, i);
        assert(av.characters[i] == pilot_dest(v, i));
    }
}

/// Final score of the deterministic auto-pilot playout from `v`.
pub open spec fn playout_from(v: AutoV) -> int
    decreases v.end_turn - v.turn,
{
    if v.turn >= v.end_turn {
        v.game_score
    } else {
        playout_from(advance_spec(v))
    }
}

/// The grid with the cells under the first `n` agents zeroed.
pub open spec fn zero_at(g: Seq<Seq<u64>>, cs: Seq<Coord>, n: int) -> Seq<Seq<u64>>
    decreases n,
{
    if n <= 0 {
        g
    } else {
        let prev = zero_at(g, cs, n - 1);
        let cy = cs[n - 1].y as int;
        let cx = cs[n - 1].x as int;
        prev.update(cy, prev[cy].update(cx, 0u64))
    }
}

pub proof fn lemma_zero_at(g: Seq<Seq<u64>>, cs: Seq<Coord>, n: int, h: int, w: int)
    requires
        0 <= n <= cs.len(),
        rect(g, h, w),
        h >= 1,
        w >= 1,
        forall|i: int|
            0 <= i < cs.len() ==> in_bounds((#[trigger] cs[i]).x as int, cs[i].y as int, w, h),
    ensures
        rect(zero_at(g, cs, n), h, w),
        grid_total(zero_at(g, cs, n)) <= grid_total(g),
    decreases n,
{
    if n > 0 {
        lemma_zero_at(g, cs, n - 1, h, w);
        let prev = zero_at(g, cs, n - 1);
        let cy = cs[n - 1].y as int;
        let cx = cs[n - 1].x as int;
        lemma_grid_total_zero_cell(prev, cy, cx);
    }
}

/// The state a playout actually starts from: the rewards under the agents'
/// current cells are zeroed first, so a placement is not rewarded for
/// standing on a cell.
pub open spec fn prepared(v: AutoV) -> AutoV {
    AutoV { points: zero_at(v.points, v.characters, v.characters.len() as int), ..v }
}

/// The objective the estimation strategies optimize: the final score of the
/// auto-pilot playout of a configuration.
pub open spec fn config_score(v: AutoV) -> int {
    playout_from(prepared(v))
}

pub proof fn lemma_prepared_wf(v: AutoV)
    requires
        v.wf(),
    ensures
        prepared(v).wf(),
{
    assert forall|i: int|
        0 <= i < v.characters.len() implies in_bounds(
        (#[trigger] v.characters[i]).x as int,
        v.characters[i].y as int,
        v.w(),
        v.h(),
    ) by {
        assert(v.char_in_bounds(i));
    }
    lemma_zero_at(v.points, v.characters, v.characters.len() as int, v.h(), v.w());
    lemma_grid_total_nonneg(prepared(v).points);
    assert(rect(prepared(v).points, v.h(), v.w()));
    assert(prepared(v).h() == v.h());
    assert(prepared(v).w() == v.w());
    assert forall|i: int| 0 <= i < prepared(v).characters.len() implies prepared(
        v,
    ).char_in_bounds(i) by {
        assert(v.char_in_bounds(i));
    }
}

fn clone_chars(cs: &Vec<Coord>) -> (r: Vec<Coord>)
    ensures
        r@ == cs@,
{
    let mut r: Vec<Coord> = Vec::new();
    let mut i: usize = 0;
    while i < cs.len()
        invariant
            i <= cs.len(),
            r@.len() == i,
            forall|k: int| 0 <= k < i ==> #[trigger] r@[k] == cs@[k],
        decreases cs.len() - i,
    {
        r.push(cs[i]);
        i = i + 1;
    }
    proof {
        assert(r@ =~= cs@);
    }
    r
}

/// The multi-agent world snapshot: remaining rewards, the agents, turn
/// counter, accumulated score and the cached ordering key.  All agents move
/// together by the fixed greedy auto-pilot.
pub struct AutoMoveMazeState {
    pub points: Vec<Vec<u64>>,
    pub turn: usize,
    pub characters: Vec<Coord>,
    pub game_score: u64,
    pub evaluated_score: u64,
    pub end_turn: usize,
}

impl View for AutoMoveMazeState {
    type V = AutoV;

    open spec fn view(&self) -> AutoV {
        AutoV {
            points: rows_view(self.points@),
            turn: self.turn as int,
            characters: self.characters@,
            game_score: self.game_score as int,
            evaluated_score: self.evaluated_score as int,
            end_turn: self.end_turn as int,
        }
    }
}

impl Clone for AutoMoveMazeState {
    /// Candidate configurations are explored on clones; the copy models the
    /// same abstract state.
    fn clone(&self) -> (r: Self)
        ensures
            r@ == self@,
    {
        AutoMoveMazeState {
            points: clone_grid(&self.points),
            turn: self.turn,
            characters: clone_chars(&self.characters),
            game_score: self.game_score,
            evaluated_score: self.evaluated_score,
            end_turn: self.end_turn,
        }
    }
}

impl AutoMoveMazeState {
    /// Fresh game: every cell gets a reward in 1..=9 drawn from `rng`, and
    /// all agents start at the origin.
    pub fn new(h: usize, w: usize, end_turn: usize, n_chars: usize, rng: &mut Xorshift) -> (r:
        AutoMoveMazeState)
        requires
            h >= 1,
            w >= 1,
            n_chars >= 1,
            h as int * w as int * 9 <= u64::MAX,
        ensures
            r@.wf(),
            r@.h() == h,
            r@.w() == w,
            r@.turn == 0,
            r@.game_score == 0,
            r@.evaluated_score == 0,
            r@.end_turn == end_turn,
            r@.characters.len() == n_chars,
            forall|i: int|
                0 <= i < n_chars ==> (#[trigger] r@.characters[i]) == (Coord { x: 0, y: 0 }),
            forall|i: int, j: int|
                0 <= i < h && 0 <= j < w ==> 1 <= #[trigger] r@.points[i][j] <= 9,
    {
        let mut points: Vec<Vec<u64>> = Vec::new();
        let mut y: usize = 0;
        while y < h
            invariant
                y <= h,
                points@.len() == y,
                forall|i: int| 0 <= i < y ==> (#[trigger] points@[i])@.len() == w,
                forall|i: int, j: int|
                    0 <= i < y && 0 <= j < w ==> 1 <= #[trigger] points@[i]@[j] <= 9,
            decreases h - y,
        {
            let mut row: Vec<u64> = Vec::new();
            let mut x: usize = 0;
            while x < w
                invariant
                    x <= w,
                    row@.len() == x,
                    forall|j: int| 0 <= j < x ==> 1 <= #[trigger] row@[j] <= 9,
                decreases w - x,
            {
                let p = rng.gen_range(1, 10);
                row.push(p as u64);
                x = x + 1;
            }
            points.push(row);
            y = y + 1;
        }
        let mut characters: Vec<Coord> = Vec::new();
        let mut i: usize = 0;
        while i < n_chars
            invariant
                i <= n_chars,
                characters@.len() == i,
                forall|k: int|
                    0 <= k < i ==> (#[trigger] characters@[k]) == (Coord { x: 0, y: 0 }),
            decreases n_chars - i,
        {
            characters.push(Coord::new());
            i = i + 1;
        }
        let r = AutoMoveMazeState {
            points,
            turn: 0,
            characters,
            game_score: 0,
            evaluated_score: 0,
            end_turn,
        };
        proof {
            let g = rows_view(r.points@);
            lemma_grid_total_bounded(g, w as int, 9);
            assert(g.len() * (w as int) * 9 <= h as int * w as int * 9) by (nonlinear_arith)
                requires
                    g.len() == h as int,
                    w >= 1,
            ;
            assert forall|i2: int| 0 <= i2 < r@.characters.len() implies r@.char_in_bounds(
                i2,
            ) by {
                assert(r@.characters[i2] == (Coord { x: 0, y: 0 }));
            }
        }
        r
    }

    /// Game over when the turn budget is spent.
    pub fn isDone(&self) -> (r: bool)
        ensures
            r == self@.is_done(),
    {
        self.turn == self.end_turn
    }

    /// Places one agent at the given cell.
    pub fn setCharacter(&mut self, character_id: usize, y: usize, x: usize)
        requires
            old(self)@.wf(),
            character_id < old(self)@.characters.len(),
            x < old(self)@.w(),
            y < old(self)@.h(),
        ensures
            final(self)@ == (AutoV {
                characters: old(self)@.characters.update(character_id as int, Coord { x, y }),
                ..old(self)@
            }),
            final(self)@.wf(),
    {
        self.characters[character_id] = Coord { x, y };
        proof {
            assert forall|i: int| 0 <= i < self@.characters.len() implies self@.char_in_bounds(
                i,
            ) by {
                if i != character_id as int {
                    assert(old(self)@.char_in_bounds(i));
                }
            }
        }
    }

    /// Uniformly random placement of every agent: for each agent in order, a
    /// row draw then a column draw from the stream.
    pub fn init(&mut self, rng: &mut Xorshift)
        requires
            old(self)@.wf(),
        ensures
            final(self)@.points == old(self)@.points,
            final(self)@.turn == old(self)@.turn,
            final(self)@.game_score == old(self)@.game_score,
            final(self)@.evaluated_score == old(self)@.evaluated_score,
            final(self)@.end_turn == old(self)@.end_turn,
            final(self)@.characters.len() == old(self)@.characters.len(),
            final(self)@.wf(),
            final(rng).s == xorshift_iter(
                old(rng).s,
                (2 * old(self)@.characters.len()) as nat,
            ),
            forall|k: int|
                0 <= k < old(self)@.characters.len() ==> #[trigger] final(self)@.characters[k]
                    == (Coord {
                    x: (xorshift_iter(old(rng).s, (2 * k + 2) as nat) % (old(
                        self,
                    )@.w() as u64)) as usize,
                    y: (xorshift_iter(old(rng).s, (2 * k + 1) as nat) % (old(
                        self,
                    )@.h() as u64)) as usize,
                }),
    {
        let h = self.points.len();
        let w = self.points[0].len();
        let n = self.characters.len();
        let mut i: usize = 0;
        while i < n
            invariant
                i <= n,
                h == old(self)@.h(),
                w == old(self)@.w(),
                old(self)@.wf(),
                self@.points == old(self)@.points,
                self@.turn == old(self)@.turn,
                self@.game_score == old(self)@.game_score,
                self@.evaluated_score == old(self)@.evaluated_score,
                self@.end_turn == old(self)@.end_turn,
                self@.characters.len() == n,
                n == old(self)@.characters.len(),
                forall|k: int|
                    0 <= k < i ==> in_bounds(
                        (#[trigger] self@.characters[k]).x as int,
                        self@.characters[k].y as int,
                        w as int,
                        h as int,
                    ),
                forall|k: int|
                    i <= k < n ==> #[trigger] self@.characters[k] == old(self)@.characters[k],
                rng.s == xorshift_iter(old(rng).s, (2 * i) as nat),
                forall|k: int|
                    0 <= k < i ==> #[trigger] self@.characters[k] == (Coord {
                        x: (xorshift_iter(old(rng).s, (2 * k + 2) as nat) % (old(
                            self,
                        )@.w() as u64)) as usize,
                        y: (xorshift_iter(old(rng).s, (2 * k + 1) as nat) % (old(
                            self,
                        )@.h() as u64)) as usize,
                    }),
            decreases n - i,
        {
            proof {
                assert(xorshift_iter(old(rng).s, (2 * i + 1) as nat) == xorshift_step(
                    xorshift_iter(old(rng).s, (2 * i) as nat),
                ));
                assert(xorshift_iter(old(rng).s, (2 * i + 2) as nat) == xorshift_step(
                    xorshift_iter(old(rng).s, (2 * i + 1) as nat),
                ));
            }
            let y = rng.gen_range(0, h);
            let x = rng.gen_range(0, w);
            self.characters[i] = Coord { x, y };
            i = i + 1;
        }
        proof {
            assert forall|k: int| 0 <= k < n implies self@.char_in_bounds(k) by {
                assert(in_bounds(
                    self@.characters[k].x as int,
                    self@.characters[k].y as int,
                    w as int,
                    h as int,
                ));
            }
        }
    }

    /// Moves one agent by the greedy auto-pilot: among its legal moves, the
    /// one onto the highest-reward cell, ties broken by the lowest action
    /// index; an agent with no legal move stays in place.
    #[verifier::loop_isolation(false)]
    pub fn movePlayer(&mut self, character_id: usize)
        requires
            old(self)@.wf(),
            character_id < old(self)@.characters.len(),
        ensures
            final(self)@ == (AutoV {
                characters: old(self)@.characters.update(
                    character_id as int,
                    pilot_dest(old(self)@, character_id as int),
                ),
                ..old(self)@
            }),
            final(self)@.wf(),
    {
        let ghost v = old(self)@;
        let ghost id = character_id as int;
        let c = self.characters[character_id];
        let h = self.points.len();
        let w = self.points[0].len();
        proof {
            assert(v.char_in_bounds(id));
        }
        let mut best_action: i64 = -1;
        let mut best_point: u64 = 0;
        let mut a: usize = 0;
        while a < 4
            invariant
                a <= 4,
                best_action as int == pilot_scan(v, id, a as int).0,
                best_action != -1 ==> best_point as int == pilot_scan(v, id, a as int).1,
            decreases 4 - a,
        {
            proof {
                lemma_pilot_scan(v, id, a as int);
            }
            if coord_legal(c, a, w, h) {
                let d = apply_action(c, a);
                proof {
                    assert(d.y < h && d.x < w);
                    assert(v.points[d.y as int].len() == v.w());
                }
                let p = self.points[d.y][d.x];
                proof {
                    assert(p as int == pt_at(v, id, a as int));
                }
                if best_action == -1 || p > best_point {
                    best_action = a as i64;
                    best_point = p;
                }
            }
            a = a + 1;
        }
        proof {
            lemma_pilot_scan(v, id, 4);
        }
        if best_action != -1 {
            let d = apply_action(c, best_action as usize);
            self.characters[character_id] = d;
            proof {
                assert(d == pilot_dest(v, id));
            }
        } else {
            proof {
                assert(pilot_dest(v, id) == c);
                assert(v.characters.update(id, c) =~= v.characters);
            }
        }
        proof {
            assert(self@.characters =~= v.characters.update(id, pilot_dest(v, id)));
            lemma_pilot_dest_in_bounds(v, id);
            assert forall|i: int| 0 <= i < self@.characters.len() implies self@.char_in_bounds(
                i,
            ) by {
                if i != id {
                    assert(v.char_in_bounds(i));
                }
            }
        }
    }

    /// One full decision step: every agent takes one auto-pilot move, then
    /// the rewards under the agents are collected in agent order (a cell is
    /// collected at most once), then the turn advances.  The collected
    /// amount moves from the grid total to the score, so their sum is
    /// conserved.
    #[verifier::loop_isolation(false)]
    pub fn advance(&mut self)
        requires
            old(self)@.wf(),
            !old(self)@.is_done(),
        ensures
            final(self)@ == advance_spec(old(self)@),
            final(self)@.wf(),
            final(self)@.game_score + grid_total(final(self)@.points) == old(self)@.game_score
                + grid_total(old(self)@.points),
            final(self)@.game_score >= old(self)@.game_score,
            final(self)@.turn == old(self)@.turn + 1 <= final(self)@.end_turn,
    {
        let ghost v = old(self)@;
        let n = self.characters.len();
        let mut id: usize = 0;
        while id < n
            invariant
                id <= n,
                self@.points == v.points,
                self@.turn == v.turn,
                self@.game_score == v.game_score,
                self@.evaluated_score == v.evaluated_score,
                self@.end_turn == v.end_turn,
                self@.characters.len() == n,
                self@.wf(),
                forall|i: int| 0 <= i < id ==> self@.characters[i] == moved_chars(v)[i],
                forall|i: int|
                    id <= i < n ==> #[trigger] self@.characters[i] == v.characters[i],
            decreases n - id,
        {
            let ghost cur = self@;
            self.movePlayer(id);
            proof {
                lemma_pilot_dest_agree(cur, v, id as int);
            }
            id = id + 1;
        }
        let ghost mc = moved_chars(v);
        proof {
            assert(self@.characters =~= mc);
            assert forall|i: int| 0 <= i < mc.len() implies in_bounds(
                (#[trigger] mc[i]).x as int,
                mc[i].y as int,
                v.w(),
                v.h(),
            ) by {
                lemma_pilot_dest_in_bounds(v, i);
            }
        }
        let mut i: usize = 0;
        while i < n
            invariant
                i <= n,
                self@.characters == mc,
                self@.turn == v.turn,
                self@.evaluated_score == v.evaluated_score,
                self@.end_turn == v.end_turn,
                self@.points == collect(v.points, mc, i as int).0,
                self@.game_score == v.game_score + collect(v.points, mc, i as int).1,
            decreases n - i,
        {
            proof {
                lemma_collect(v.points, mc, i as int, v.h(), v.w());
                lemma_collect(v.points, mc, i as int + 1, v.h(), v.w());
                lemma_cell_le_grid_total(
                    self@.points,
                    mc[i as int].y as int,
                    mc[i as int].x as int,
                );
            }
            let c = self.characters[i];
            let p = self.points[c.y][c.x];
            self.game_score = self.game_score + p;
            self.points[c.y][c.x] = 0;
            i = i + 1;
            proof {
                assert(self@.points =~= collect(v.points, mc, i as int).0);
            }
        }
        self.turn = self.turn + 1;
        proof {
            lemma_collect(v.points, mc, n as int, v.h(), v.w());
            lemma_advance_spec(v);
            assert(self@ == advance_spec(v));
        }
    }

    /// Random placement that tries to keep the agents at least a Manhattan
    /// distance apart, relaxing the distance after too many rejected draws.
    /// (Each rejection loop also carries a draw budget so the search for a
    /// spot always ends.)
    #[verifier::loop_isolation(false)]
    pub fn init2(&mut self, rng: &mut Xorshift)
        requires
            old(self)@.wf(),
        ensures
            final(self)@.points == old(self)@.points,
            final(self)@.turn == old(self)@.turn,
            final(self)@.game_score == old(self)@.game_score,
            final(self)@.evaluated_score == old(self)@.evaluated_score,
            final(self)@.end_turn == old(self)@.end_turn,
            final(self)@.characters.len() == old(self)@.characters.len(),
            final(self)@.wf(),
    {
        let h = self.points.len();
        let w = self.points[0].len();
        let n = self.characters.len();
        let mut pos_list: Vec<Coord> = Vec::new();
        let mut between_dist: usize = self.end_turn;
        let mut k: usize = 0;
        while k < n
            invariant
                k <= n,
                pos_list@.len() == k,
                forall|j: int|
                    0 <= j < k ==> in_bounds(
                        (#[trigger] pos_list@[j]).x as int,
                        pos_list@[j].y as int,
                        w as int,
                        h as int,
                    ),
                self@ == old(self)@,
            decreases n - k,
        {
            let mut ok = false;
            let mut pos = Coord::new();
            let mut ng_cnt: usize = 0;
            let mut fuel: usize = usize::MAX;
            while !ok && fuel > 0
                invariant
                    pos.x < w,
                    pos.y < h,
                    ng_cnt <= 1000,
                decreases fuel,
            {
                fuel = fuel - 1;
                ok = true;
                pos = Coord { x: rng.gen_range(0, w), y: rng.gen_range(0, h) };
                let mut j: usize = 0;
                while j < pos_list.len()
                    invariant
                        j <= pos_list@.len(),
                        pos.x < w,
                        pos.y < h,
                        ng_cnt <= 1000,
                    decreases pos_list@.len() - j,
                {
                    let p = pos_list[j];
                    let dyv = if p.y >= pos.y {
                        p.y - pos.y
                    } else {
                        pos.y - p.y
                    };
                    let dxv = if p.x >= pos.x {
                        p.x - pos.x
                    } else {
                        pos.x - p.x
                    };
                    if (dyv as u128) + (dxv as u128) < between_dist as u128 {
                        ok = false;
                        ng_cnt = ng_cnt + 1;
                    }
                    if ng_cnt > 1000 {
                        if between_dist > 0 {
                            between_dist = between_dist - 1;
                        }
                        ng_cnt = 0;
                    }
                    j = j + 1;
                }
            }
            pos_list.push(pos);
            k = k + 1;
        }
        let mut i: usize = 0;
        while i < n
            invariant
                i <= n,
                n == pos_list@.len(),
                forall|j: int|
                    0 <= j < n ==> in_bounds(
                        (#[trigger] pos_list@[j]).x as int,
                        pos_list@[j].y as int,
                        w as int,
                        h as int,
                    ),
                self@.points == old(self)@.points,
                self@.turn == old(self)@.turn,
                self@.game_score == old(self)@.game_score,
                self@.evaluated_score == old(self)@.evaluated_score,
                self@.end_turn == old(self)@.end_turn,
                self@.characters.len() == n,
                forall|j: int|
                    0 <= j < i ==> #[trigger] self@.characters[j] == pos_list@[j],
                forall|j: int|
                    i <= j < n ==> #[trigger] self@.characters[j] == old(self)@.characters[j],
            decreases n - i,
        {
            self.characters[i] = pos_list[i];
            i = i + 1;
        }
        proof {
            assert forall|j: int| 0 <= j < n implies self@.char_in_bounds(j) by {
                assert(self@.characters[j] == pos_list@[j]);
            }
        }
    }

    /// The objective of the estimation strategies: clones the state, zeroes
    /// the rewards under the agents' current cells (a placement is not
    /// rewarded for standing on a cell), then replays the deterministic
    /// auto-pilot until the turn budget is spent and returns the final
    /// score.
    #[verifier::loop_isolation(false)]
    pub fn getScore(&self) -> (r: u64)
        requires
            self@.wf(),
        ensures
            r as int == config_score(self@),
    {
        let ghost v = self@;
        proof {
            assert forall|i: int| 0 <= i < v.characters.len() implies in_bounds(
                (#[trigger] v.characters[i]).x as int,
                v.characters[i].y as int,
                v.w(),
                v.h(),
            ) by {
                assert(v.char_in_bounds(i));
            }
        }
        let mut tmp = self.clone();
        let n = tmp.characters.len();
        let mut i: usize = 0;
        while i < n
            invariant
                i <= n,
                tmp@.characters == v.characters,
                tmp@.turn == v.turn,
                tmp@.game_score == v.game_score,
                tmp@.evaluated_score == v.evaluated_score,
                tmp@.end_turn == v.end_turn,
                tmp@.points == zero_at(v.points, v.characters, i as int),
            decreases n - i,
        {
            proof {
                lemma_zero_at(v.points, v.characters, i as int, v.h(), v.w());
            }
            let c = tmp.characters[i];
            proof {
                assert(in_bounds(c.x as int, c.y as int, v.w(), v.h()));
                assert(rect(tmp@.points, v.h(), v.w()));
                assert(tmp@.points[c.y as int].len() == v.w());
                assert(tmp.points@.len() == v.h());
                assert(tmp.points@[c.y as int]@.len() == v.w());
            }
            tmp.points[c.y][c.x] = 0;
            i = i + 1;
            proof {
                assert(tmp@.points =~= zero_at(v.points, v.characters, i as int));
            }
        }
        proof {
            assert(tmp@ == prepared(v));
            lemma_prepared_wf(v);
        }
        while tmp.turn < tmp.end_turn
            invariant
                tmp@.wf(),
                playout_from(tmp@) == config_score(v),
            decreases tmp@.end_turn - tmp@.turn,
        {
            tmp.advance();
        }
        tmp.game_score
    }

    /// Reassigns one uniformly chosen agent to a uniformly random cell.  The
    /// three draws — agent, row, column — come in that order from the
    /// stream, so the outcome is an exact function of the generator state.
    pub fn transition(&mut self, rng: &mut Xorshift)
        requires
            old(self)@.wf(),
        ensures
            final(self)@.points == old(self)@.points,
            final(self)@.turn == old(self)@.turn,
            final(self)@.game_score == old(self)@.game_score,
            final(self)@.evaluated_score == old(self)@.evaluated_score,
            final(self)@.end_turn == old(self)@.end_turn,
            final(self)@.characters.len() == old(self)@.characters.len(),
            final(self)@.wf(),
            final(rng).s == xorshift_step(xorshift_step(xorshift_step(old(rng).s))),
            final(self)@.characters == old(self)@.characters.update(
                (xorshift_step(old(rng).s) % (old(self)@.characters.len() as u64)) as int,
                (Coord {
                    x: (xorshift_step(xorshift_step(xorshift_step(old(rng).s))) % (old(
                        self,
                    )@.w() as u64)) as usize,
                    y: (xorshift_step(xorshift_step(old(rng).s)) % (old(
                        self,
                    )@.h() as u64)) as usize,
                }),
            ),
            exists|id: int|
                0 <= id < old(self)@.characters.len() && final(self)@.characters == old(
                    self,
                )@.characters.update(id, final(self)@.characters[id]),
    {
        let h = self.points.len();
        let w = self.points[0].len();
        let n = self.characters.len();
        let id = rng.gen_range(0, n);
        let y = rng.gen_range(0, h);
        let x = rng.gen_range(0, w);
        self.characters[id] = Coord { x, y };
        proof {
            assert forall|i: int| 0 <= i < self@.characters.len() implies self@.char_in_bounds(
                i,
            ) by {
                if i != id as int {
                    assert(old(self)@.char_in_bounds(i));
                }
            }
            assert(self@.characters == old(self)@.characters.update(
                id as int,
                self@.characters[id as int],
            ));
        }
    }
}

} // verus!
