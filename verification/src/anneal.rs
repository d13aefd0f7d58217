use vstd::prelude::*;

verus! {

use crate::auto_maze::{config_score, AutoMoveMazeState, AutoV};
use crate::coord::Coord;
use crate::rng::{xorshift_iter, xorshift_step, Xorshift};

/// The configuration one `transition` call produces from `v` with generator
/// state `s`: one agent redrawn, then its row, then its column — three steps
/// of the stream.
pub open spec fn perturbed(v: AutoV, s: u64) -> AutoV {
    AutoV {
        characters: v.characters.update(
            (xorshift_step(s) % (v.characters.len() as u64)) as int,
            (Coord {
                x: (xorshift_step(xorshift_step(xorshift_step(s))) % (v.w() as u64)) as usize,
                y: (xorshift_step(xorshift_step(s)) % (v.h() as u64)) as usize,
            }),
        ),
        ..v
    }
}

/// The configuration one `init` call produces from `v` with generator state
/// `s`: for each agent in order, a row draw then a column draw.
pub open spec fn seeded(v: AutoV, s: u64) -> AutoV {
    AutoV {
        characters: Seq::new(
            v.characters.len(),
            |k: int| Coord {
                x: (xorshift_iter(s, (2 * k + 2) as nat) % (v.w() as u64)) as usize,
                y: (xorshift_iter(s, (2 * k + 1) as nat) % (v.h() as u64)) as usize,
            },
        ),
        ..v
    }
}

/// Held configuration and generator state of a hill-climb after `n` rounds:
/// each round perturbs the held configuration with three draws and adopts
/// the candidate exactly when its playout score is strictly greater.
pub open spec fn hc_state(v: AutoV, s: u64, n: nat) -> (AutoV, u64)
    decreases n,
{
    if n == 0 {
        (v, s)
    } else {
        let prev = hc_state(v, s, (n - 1) as nat);
        let cand = perturbed(prev.0, prev.1);
        let s2 = xorshift_iter(prev.1, 3);
        if config_score(cand) > config_score(prev.0) {
            (cand, s2)
        } else {
            (prev.0, s2)
        }
    }
}

/// The score held after folding a sequence of candidate scores with
/// strict-improvement acceptance: a candidate displaces the held score only
/// when strictly greater.  This is at once the configuration score
/// hill-climbing holds (its current and best configuration coincide) and
/// the best-ever score simulated annealing tracks.
pub open spec fn running_best(init: int, cands: Seq<int>) -> int
    decreases cands.len(),
{
    if cands.len() == 0 {
        init
    } else {
        let prev = running_best(init, cands.drop_last());
        if cands.last() > prev {
            cands.last()
        } else {
            prev
        }
    }
}

/// The sequence of accepted scores in hill-climbing is non-decreasing: over
/// any candidate scores, the held score after a longer prefix is never below
/// the held score after a shorter one.
pub proof fn lemma_running_best_monotone(init: int, cands: Seq<int>, i: int, j: int)
    requires
        0 <= i <= j <= cands.len(),
    ensures
        running_best(init, cands.take(i)) <= running_best(init, cands.take(j)),
    decreases j - i,
{
    if i < j {
        lemma_running_best_monotone(init, cands, i, j - 1);
        assert(cands.take(j).drop_last() =~= cands.take(j - 1));
    }
}

/// The held score never falls below its starting value.
pub proof fn lemma_running_best_ge_init(init: int, cands: Seq<int>)
    ensures
        init <= running_best(init, cands),
    decreases cands.len(),
{
    if cands.len() > 0 {
        lemma_running_best_ge_init(init, cands.drop_last());
    }
}

/// Current and best scores of an annealing run after a sequence of
/// candidates, given which rounds' coins accepted a worsening candidate: a
/// candidate that is not worse is always adopted as current, a worse one
/// only on the coin; the best is tracked unconditionally.
pub open spec fn sa_scores(init: int, cands: Seq<int>, coins: Seq<bool>) -> (int, int)
    decreases cands.len(),
{
    if cands.len() == 0 {
        (init, init)
    } else {
        let prev = sa_scores(init, cands.drop_last(), coins.drop_last());
        let c = cands.last();
        (
            if c >= prev.0 || coins.last() {
                c
            } else {
                prev.0
            },
            if c > prev.1 {
                c
            } else {
                prev.1
            },
        )
    }
}

/// Whatever the coins decide, the best score an annealing run tracks equals
/// the score an equal-length hill-climb holds on the same candidate scores:
/// annealing never returns a configuration worse than that hill-climb's.
pub proof fn lemma_anneal_never_worse(init: int, cands: Seq<int>, coins: Seq<bool>)
    requires
        coins.len() == cands.len(),
    ensures
        sa_scores(init, cands, coins).1 == running_best(init, cands),
        sa_scores(init, cands, coins).1 >= running_best(init, cands),
    decreases cands.len(),
{
    if cands.len() > 0 {
        lemma_anneal_never_worse(init, cands.drop_last(), coins.drop_last());
    }
}

/// A uniformly random full placement of the agents, the baseline strategy:
/// for each agent in order, a row draw then a column draw from the stream.
pub fn randomAction(state: &AutoMoveMazeState, rng: &mut Xorshift) -> (r: AutoMoveMazeState)
    requires
        state@.wf(),
    ensures
        r@.wf(),
        r@.points == state@.points,
        r@.turn == state@.turn,
        r@.game_score == state@.game_score,
        r@.evaluated_score == state@.evaluated_score,
        r@.end_turn == state@.end_turn,
        r@.characters.len() == state@.characters.len(),
        final(rng).s == xorshift_iter(old(rng).s, (2 * state@.characters.len()) as nat),
        forall|k: int|
            0 <= k < state@.characters.len() ==> #[trigger] r@.characters[k] == (Coord {
                x: (xorshift_iter(old(rng).s, (2 * k + 2) as nat) % (state@.w() as u64)) as usize,
                y: (xorshift_iter(old(rng).s, (2 * k + 1) as nat) % (state@.h() as u64)) as usize,
            }),
{
    let mut now_state = state.clone();
    let h = now_state.points.len();
    let w = now_state.points[0].len();
    let n = now_state.characters.len();
    let mut id: usize = 0;
    while id < n
        invariant
            id <= n,
            now_state@.wf(),
            now_state@.points == state@.points,
            now_state@.turn == state@.turn,
            now_state@.game_score == state@.game_score,
            now_state@.evaluated_score == state@.evaluated_score,
            now_state@.end_turn == state@.end_turn,
            now_state@.characters.len() == n,
            n == state@.characters.len(),
            h == state@.h(),
            w == state@.w(),
            rng.s == xorshift_iter(old(rng).s, (2 * id) as nat),
            forall|k: int|
                0 <= k < id ==> #[trigger] now_state@.characters[k] == (Coord {
                    x: (xorshift_iter(old(rng).s, (2 * k + 2) as nat) % (state@.w() as u64)) as usize,
                    y: (xorshift_iter(old(rng).s, (2 * k + 1) as nat) % (state@.h() as u64)) as usize,
                }),
        decreases n - id,
    {
        proof {
            assert(xorshift_iter(old(rng).s, (2 * id + 1) as nat) == xorshift_step(
                xorshift_iter(old(rng).s, (2 * id) as nat),
            ));
            assert(xorshift_iter(old(rng).s, (2 * id + 2) as nat) == xorshift_step(
                xorshift_iter(old(rng).s, (2 * id + 1) as nat),
            ));
        }
        let y = rng.gen_range(0, h);
        let x = rng.gen_range(0, w);
        now_state.setCharacter(id, y, x);
        id = id + 1;
    }
    now_state
}

/// Hill-climbing from a given starting configuration: `number` rounds, each
/// a single random perturbation scored by a full playout, accepted only on
/// a strict improvement.  The accepted scores are therefore non-decreasing,
/// and the result is never worse than the start.
pub fn hillClimbFrom(state: &AutoMoveMazeState, rng: &mut Xorshift, number: usize) -> (r:
    AutoMoveMazeState)
    requires
        state@.wf(),
    ensures
        r@.wf(),
        r@.points == state@.points,
        r@.turn == state@.turn,
        r@.game_score == state@.game_score,
        r@.evaluated_score == state@.evaluated_score,
        r@.end_turn == state@.end_turn,
        r@.characters.len() == state@.characters.len(),
        config_score(r@) >= config_score(state@),
        r@ == hc_state(state@, old(rng).s, number as nat).0,
        final(rng).s == hc_state(state@, old(rng).s, number as nat).1,
{
    let ghost s0 = rng.s;
    let mut now_state = state.clone();
    let mut best_score = now_state.getScore();
    let mut i: usize = 0;
    while i < number
        invariant
            i <= number,
            now_state@.wf(),
            now_state@.points == state@.points,
            now_state@.turn == state@.turn,
            now_state@.game_score == state@.game_score,
            now_state@.evaluated_score == state@.evaluated_score,
            now_state@.end_turn == state@.end_turn,
            now_state@.characters.len() == state@.characters.len(),
            best_score as int == config_score(now_state@),
            config_score(now_state@) >= config_score(state@),
            now_state@ == hc_state(state@, s0, i as nat).0,
            rng.s == hc_state(state@, s0, i as nat).1,
        decreases number - i,
    {
        let ghost s_i = rng.s;
        let mut next_state = now_state.clone();
        next_state.transition(rng);
        let next_score = next_state.getScore();
        proof {
            assert(next_state@ == perturbed(now_state@, s_i));
            assert(xorshift_iter(s_i, 0) == s_i);
            assert(xorshift_iter(s_i, 1) == xorshift_step(xorshift_iter(s_i, 0)));
            assert(xorshift_iter(s_i, 2) == xorshift_step(xorshift_iter(s_i, 1)));
            assert(xorshift_iter(s_i, 3) == xorshift_step(xorshift_iter(s_i, 2)));
            assert(rng.s == xorshift_iter(s_i, 3));
        }
        if next_score > best_score {
            best_score = next_score;
            now_state = next_state;
        }
        i = i + 1;
    }
    now_state
}

/// Hill-climbing of a whole game: start from a uniformly random placement,
/// then climb.
pub fn hillClimb(state: &AutoMoveMazeState, rng: &mut Xorshift, number: usize) -> (r:
    AutoMoveMazeState)
    requires
        state@.wf(),
    ensures
        r@.wf(),
        r@.points == state@.points,
        r@.turn == state@.turn,
        r@.game_score == state@.game_score,
        r@.evaluated_score == state@.evaluated_score,
        r@.end_turn == state@.end_turn,
        r@.characters.len() == state@.characters.len(),
        config_score(r@) >= config_score(seeded(state@, old(rng).s)),
        r@ == hc_state(
            seeded(state@, old(rng).s),
            xorshift_iter(old(rng).s, (2 * state@.characters.len()) as nat),
            number as nat,
        ).0,
        final(rng).s == hc_state(
            seeded(state@, old(rng).s),
            xorshift_iter(old(rng).s, (2 * state@.characters.len()) as nat),
            number as nat,
        ).1,
{
    let ghost s0 = rng.s;
    let mut s = state.clone();
    s.init(rng);
    proof {
        assert(s@.characters =~= seeded(state@, s0).characters);
        assert(s@ == seeded(state@, s0));
    }
    hillClimbFrom(&s, rng, number)
}

/// The verified core of a simulated-annealing run.  The probabilistic part
/// — the linear temperature schedule and the exp(delta / T) coin that may
/// accept a worsening candidate — needs floating point and therefore lives
/// with the caller, who hands each round's coin in; everything else is
/// verified here.
pub struct AnnealRun {
    pub now_state: AutoMoveMazeState,
    pub now_score: u64,
    pub best_state: AutoMoveMazeState,
    pub best_score: u64,
}

impl AnnealRun {
    /// The held scores are the playout scores of the held configurations,
    /// the best is never below the current, and both configurations play on
    /// the same board.
    pub open spec fn wf(self) -> bool {
        &&& self.now_state@.wf()
        &&& self.best_state@.wf()
        &&& self.now_score as int == config_score(self.now_state@)
        &&& self.best_score as int == config_score(self.best_state@)
        &&& self.now_score <= self.best_score
        &&& self.best_state@.points == self.now_state@.points
        &&& self.best_state@.turn == self.now_state@.turn
        &&& self.best_state@.game_score == self.now_state@.game_score
        &&& self.best_state@.evaluated_score == self.now_state@.evaluated_score
        &&& self.best_state@.end_turn == self.now_state@.end_turn
        &&& self.best_state@.characters.len() == self.now_state@.characters.len()
    }
}

/// Opens an annealing run on a uniformly random starting placement.
pub fn annealStart(state: &AutoMoveMazeState, rng: &mut Xorshift) -> (r: AnnealRun)
    requires
        state@.wf(),
    ensures
        r.wf(),
        r.now_state@.points == state@.points,
        r.now_state@.turn == state@.turn,
        r.now_state@.game_score == state@.game_score,
        r.now_state@.evaluated_score == state@.evaluated_score,
        r.now_state@.end_turn == state@.end_turn,
        r.now_state@.characters.len() == state@.characters.len(),
        r.best_score == r.now_score,
        r.now_state@ == seeded(state@, old(rng).s),
        r.best_state@ == r.now_state@,
        final(rng).s == xorshift_iter(old(rng).s, (2 * state@.characters.len()) as nat),
{
    let ghost s0 = rng.s;
    let mut now = state.clone();
    now.init(rng);
    proof {
        assert(now@.characters =~= seeded(state@, s0).characters);
        assert(now@ == seeded(state@, s0));
    }
    let sc = now.getScore();
    let best = now.clone();
    AnnealRun { now_state: now, now_score: sc, best_state: best, best_score: sc }
}

/// Proposes the next candidate: a clone of the current configuration with
/// one agent reassigned at random, together with its playout score.  The
/// caller computes the acceptance coin from the returned score and resolves
/// the round with `annealResolve`.
pub fn annealPropose(run: &AnnealRun, rng: &mut Xorshift) -> (r: (AutoMoveMazeState, u64))
    requires
        run.wf(),
    ensures
        r.0@.wf(),
        r.1 as int == config_score(r.0@),
        r.0@.points == run.now_state@.points,
        r.0@.turn == run.now_state@.turn,
        r.0@.game_score == run.now_state@.game_score,
        r.0@.evaluated_score == run.now_state@.evaluated_score,
        r.0@.end_turn == run.now_state@.end_turn,
        r.0@.characters.len() == run.now_state@.characters.len(),
        r.0@ == perturbed(run.now_state@, old(rng).s),
        final(rng).s == xorshift_iter(old(rng).s, 3),
{
    let ghost s0 = rng.s;
    let mut cand = run.now_state.clone();
    cand.transition(rng);
    proof {
        assert(cand@ == perturbed(run.now_state@, s0));
        assert(xorshift_iter(s0, 0) == s0);
        assert(xorshift_iter(s0, 1) == xorshift_step(xorshift_iter(s0, 0)));
        assert(xorshift_iter(s0, 2) == xorshift_step(xorshift_iter(s0, 1)));
        assert(xorshift_iter(s0, 3) == xorshift_step(xorshift_iter(s0, 2)));
    }
    let sc = cand.getScore();
    (cand, sc)
}

/// Resolves one annealing round.  A candidate that is not worse than the
/// current configuration is always adopted; a worse one only when the
/// caller's coin says so.  Independently, the best-ever configuration is
/// updated exactly on a strict improvement, so the best score never
/// decreases and folds as `running_best` does.
pub fn annealResolve(
    run: &mut AnnealRun,
    cand: AutoMoveMazeState,
    cand_score: u64,
    accept_worse: bool,
)
    requires
        old(run).wf(),
        cand@.wf(),
        cand_score as int == config_score(cand@),
        cand@.points == old(run).now_state@.points,
        cand@.turn == old(run).now_state@.turn,
        cand@.game_score == old(run).now_state@.game_score,
        cand@.evaluated_score == old(run).now_state@.evaluated_score,
        cand@.end_turn == old(run).now_state@.end_turn,
        cand@.characters.len() == old(run).now_state@.characters.len(),
    ensures
        final(run).wf(),
        (cand_score >= old(run).now_score || accept_worse) ==> (final(run).now_state@ == cand@
            && final(run).now_score == cand_score),
        !(cand_score >= old(run).now_score || accept_worse) ==> (final(run).now_state@ == old(
            run,
        ).now_state@ && final(run).now_score == old(run).now_score),
        cand_score > old(run).best_score ==> final(run).best_state@ == cand@,
        cand_score <= old(run).best_score ==> final(run).best_state@ == old(run).best_state@,
        final(run).best_score as int == running_best(
            old(run).best_score as int,
            seq![cand_score as int],
        ),
        final(run).best_score >= old(run).best_score,
{
    proof {
        let s1 = seq![cand_score as int];
        let init = old(run).best_score as int;
        assert(s1.drop_last() =~= Seq::<int>::empty());
        assert(s1.last() == cand_score as int);
        assert(running_best(init, Seq::<int>::empty()) == init);
        assert(running_best(init, s1) == (if cand_score as int > init {
            cand_score as int
        } else {
            init
        }));
    }
    if cand_score >= run.now_score || accept_worse {
        run.now_state = cand.clone();
        run.now_score = cand_score;
    }
    if cand_score > run.best_score {
        run.best_state = cand;
        run.best_score = cand_score;
    }
}

/// Closes a run: the best configuration ever observed and its score — not
/// necessarily the final current configuration.
pub fn annealResult(run: AnnealRun) -> (r: (AutoMoveMazeState, u64))
    requires
        run.wf(),
    ensures
        r.0@ == run.best_state@,
        r.1 == run.best_score,
        r.1 as int == config_score(r.0@),
{
    (run.best_state, run.best_score)
}

} // verus!
