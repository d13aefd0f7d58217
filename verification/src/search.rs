use vstd::prelude::*;

verus! {

use crate::beam::{
    best_idx, best_idx_v, Beam, key, lemma_best_idx, lemma_best_idx_push, lemma_best_idx_v,
    lemma_best_idx_views, lemma_views_add, lemma_views_remove, views_of,
};
use crate::maze::{legal_seq, lemma_legal_seq_chars, lemma_legal_seq_empty, lemma_maze_run_snoc, maze_run, path_ok, MazeState, MazeV};
use crate::grid::{grid_total, lemma_grid_total_nonneg};
use crate::rng::rand_below;
use crate::timer::TimeKeeper;

/// Why a decision strategy cannot hand back an action.
#[derive(Clone, Copy, Debug, PartialEq, Eq, Structural)]
pub enum SearchError {
    NoLegalMoves,
}

/// Greedy scan of the action indices below `n`: the best action seen so far
/// and its gain, `(-1, -1)` while no legal action has been seen.  A later
/// action displaces an earlier one only by a strictly greater gain, so the
/// first-seen action wins ties.
pub open spec fn greedy_scan(v: MazeV, n: int) -> (int, int)
    decreases n,
{
    if n <= 0 {
        (-1int, -1int)
    } else {
        let prev = greedy_scan(v, n - 1);
        if v.legal(n - 1) && v.gain(n - 1) > prev.1 {
            (n - 1, v.gain(n - 1))
        } else {
            prev
        }
    }
}

/// The action one-step greedy lookahead picks: greatest gain, first seen
/// among ties; -1 when no action is legal.
pub open spec fn greedy_choice(v: MazeV) -> int {
    greedy_scan(v, 4).0
}

pub proof fn lemma_greedy_scan(v: MazeV, n: int)
    requires
        0 <= n <= 4,
        v.wf(),
    ensures
        (greedy_scan(v, n).0 == -1) <==> (forall|a: int| 0 <= a < n ==> !v.legal(a)),
        greedy_scan(v, n).0 == -1 ==> greedy_scan(v, n).1 == -1,
        greedy_scan(v, n).0 != -1 ==> 0 <= greedy_scan(v, n).0 < n && v.legal(greedy_scan(v, n).0)
            && greedy_scan(v, n).1 == v.gain(greedy_scan(v, n).0),
    decreases n,
{
    if n > 0 {
        lemma_greedy_scan(v, n - 1);
    }
}

/// Abstract successor of `v` by action `a` as the searches build one: the
/// state advanced and re-evaluated; the recorded first action carries over.
pub open spec fn succ_v(v: MazeV, a: int) -> MazeV {
    MazeV { evaluated_score: v.step(a).game_score, ..v.step(a) }
}

/// As `succ_v`, but with the generating action recorded: used at the root,
/// so the eventual winner can be traced back to an applicable move.
pub open spec fn succ_root_v(v: MazeV, a: int) -> MazeV {
    MazeV { first_action: a, ..succ_v(v, a) }
}

/// Successors of `v` for the legal actions below `n`, in ascending order.
pub open spec fn succs_upto(v: MazeV, n: int) -> Seq<MazeV>
    decreases n,
{
    if n <= 0 {
        Seq::empty()
    } else {
        succs_upto(v, n - 1) + (if v.legal(n - 1) {
            seq![succ_v(v, n - 1)]
        } else {
            Seq::empty()
        })
    }
}

/// All successors of `v`, in ascending action order.
pub open spec fn succs_v(v: MazeV) -> Seq<MazeV> {
    succs_upto(v, 4)
}

/// Root successors for the legal actions below `n`, ascending.
pub open spec fn root_succs_upto(v: MazeV, n: int) -> Seq<MazeV>
    decreases n,
{
    if n <= 0 {
        Seq::empty()
    } else {
        root_succs_upto(v, n - 1) + (if v.legal(n - 1) {
            seq![succ_root_v(v, n - 1)]
        } else {
            Seq::empty()
        })
    }
}

/// All root successors of `v`, ascending, each recording its action.
pub open spec fn root_succs_v(v: MazeV) -> Seq<MazeV> {
    root_succs_upto(v, 4)
}

/// What holds of every state a search keeps in a beam: well-formed, and its
/// recorded first action is a move that is legal at the root of the search.
/// The board dimensions never change along a game, so they match the root's.
pub open spec fn fa_ok(root: MazeV, s: MazeState) -> bool {
    &&& s@.wf()
    &&& 0 <= s@.first_action < 4
    &&& root.legal(s@.first_action)
    &&& s@.h() == root.h()
    &&& s@.w() == root.w()
}

/// One width-bounded widening of a level: up to `pops` times, the first-best
/// state is removed and its successors joined to the accumulator; an
/// exhausted pool or a terminal top state ends the widening early.
pub open spec fn beam_pops(now: Seq<MazeV>, acc: Seq<MazeV>, pops: nat) -> Seq<MazeV>
    decreases pops,
{
    if pops == 0 || now.len() == 0 {
        acc
    } else {
        let bi = best_idx_v(now);
        if now[bi].is_done() {
            acc
        } else {
            beam_pops(now.remove(bi), acc + succs_v(now[bi]), (pops - 1) as nat)
        }
    }
}

/// Pool, provisional answer and stop flag of beam search after `t` depth
/// levels.  Level 1 is the root expansion, with each successor recording its
/// action; each further level widens the pool and reads the answer off its
/// best state.  The search stops early on an empty next pool (keeping the
/// previous answer) or a terminal best state; once stopped, deeper levels
/// change nothing.
pub open spec fn beam_state(v: MazeV, width: nat, t: nat) -> (Seq<MazeV>, int, bool)
    decreases t,
{
    if t <= 1 {
        let b1 = root_succs_v(v);
        if b1.len() == 0 {
            (b1, -1int, true)
        } else {
            (b1, b1[best_idx_v(b1)].first_action, b1[best_idx_v(b1)].is_done())
        }
    } else {
        let prev = beam_state(v, width, (t - 1) as nat);
        if prev.2 {
            prev
        } else {
            let nxt = beam_pops(prev.0, Seq::empty(), width);
            if nxt.len() == 0 {
                (prev.0, prev.1, true)
            } else {
                (nxt, nxt[best_idx_v(nxt)].first_action, nxt[best_idx_v(nxt)].is_done())
            }
        }
    }
}

/// The answer of beam search run for `depth` levels.
pub open spec fn beam_result(v: MazeV, width: nat, depth: nat) -> int {
    beam_state(v, width, depth).1
}

/// A stopped search never changes again: its answer at any deeper depth is
/// the answer at the stopping depth.
pub proof fn lemma_beam_state_stable(v: MazeV, width: nat, t: nat, d: nat)
    requires
        1 <= t <= d,
        beam_state(v, width, t).2,
    ensures
        beam_state(v, width, d) == beam_state(v, width, t),
    decreases d - t,
{
    if d > t {
        lemma_beam_state_stable(v, width, t, (d - 1) as nat);
    }
}

/// The per-level pools of a chokudai search as abstract states.
pub open spec fn pools_of(beams: Seq<Beam>) -> Seq<Seq<MazeV>> {
    Seq::new(beams.len(), |i: int| views_of(beams[i].items@))
}

/// Up to `pops` widenings of level `t`: each removes the level's first-best
/// state and, it being non-terminal, joins its successors to level `t + 1`;
/// an exhausted level or a terminal top ends the widening for this sweep.
pub open spec fn chok_pops(pools: Seq<Seq<MazeV>>, t: int, pops: nat) -> Seq<Seq<MazeV>>
    decreases pops,
{
    if pops == 0 || pools[t].len() == 0 {
        pools
    } else {
        let lt = pools[t];
        let bi = best_idx_v(lt);
        if lt[bi].is_done() {
            pools
        } else {
            chok_pops(
                pools.update(t, lt.remove(bi)).update(t + 1, pools[t + 1] + succs_v(lt[bi])),
                t,
                (pops - 1) as nat,
            )
        }
    }
}

/// Levels 1 through `t` widened in ascending order.
pub open spec fn chok_levels(pools: Seq<Seq<MazeV>>, width: nat, t: int) -> Seq<Seq<MazeV>>
    decreases t,
{
    if t < 1 {
        pools
    } else {
        chok_pops(chok_levels(pools, width, t - 1), t, width)
    }
}

/// One full sweep: every level but the deepest widened once, shallow first.
pub open spec fn chok_sweep(pools: Seq<Seq<MazeV>>, width: nat, depth: nat) -> Seq<Seq<MazeV>> {
    chok_levels(pools, width, depth as int - 1)
}

/// The pools after `n` full sweeps.
pub open spec fn chok_iter(pools: Seq<Seq<MazeV>>, width: nat, depth: nat, n: nat) -> Seq<
    Seq<MazeV>,
>
    decreases n,
{
    if n == 0 {
        pools
    } else {
        chok_sweep(chok_iter(pools, width, depth, (n - 1) as nat), width, depth)
    }
}

/// The freshly seeded pools: the root's successors at level 1 (the root
/// itself is spent by its expansion), every other level empty.
pub open spec fn chok_init(v: MazeV, depth: nat) -> Seq<Seq<MazeV>> {
    Seq::new(depth + 1, |i: int| if i == 1 {
        root_succs_v(v)
    } else {
        Seq::empty()
    })
}

/// The answer read from the deepest non-empty level at or below `t`: the
/// recorded first action of that level's best state; -1 when all are empty.
pub open spec fn chok_pick(pools: Seq<Seq<MazeV>>, t: int) -> int
    decreases t,
{
    if t < 1 {
        -1
    } else if pools[t].len() > 0 {
        pools[t][best_idx_v(pools[t])].first_action
    } else {
        chok_pick(pools, t - 1)
    }
}

/// The action chokudai search answers after `number` sweeps at the given
/// width and depth.
pub open spec fn chokudai_result(v: MazeV, width: nat, depth: nat, number: nat) -> int {
    chok_pick(chok_iter(chok_init(v, depth), width, depth, number), depth as int)
}

/// Expands the root of a search: one evaluated successor per legal action,
/// in ascending action order, each recording the action that produced it.
fn expandRoot(state: &MazeState) -> (r: Beam)
    requires
        state@.wf(),
        !state@.is_done(),
    ensures
        forall|j: int| 0 <= j < r.items@.len() ==> fa_ok(state@, #[trigger] r.items@[j]),
        r.items@.len() > 0 <==> legal_seq(state@).len() > 0,
        r.items@.len() > 0 ==> r.items@[best_idx(r.items@)]@.first_action == greedy_choice(
            state@,
        ),
        views_of(r.items@) == root_succs_v(state@),
{
    let ghost v = state@;
    let mut b = Beam::new();
    let mut a: usize = 0;
    while a < 4
        invariant
            a <= 4,
            state@.wf(),
            !state@.is_done(),
            v == state@,
            forall|j: int| 0 <= j < b.items@.len() ==> fa_ok(v, #[trigger] b.items@[j]),
            (b.items@.len() > 0) <==> (greedy_scan(v, a as int).0 != -1),
            b.items@.len() > 0 ==> (b.items@[best_idx(b.items@)]@.first_action == greedy_scan(
                v,
                a as int,
            ).0 && key(b.items@[best_idx(b.items@)]) == greedy_scan(v, a as int).1),
            views_of(b.items@) == root_succs_upto(v, a as int),
        decreases 4 - a,
    {
        proof {
            lemma_greedy_scan(v, a as int);
        }
        let ghost pre = b.items@;
        if state.legalAt(a) {
            let mut nxt = state.clone();
            nxt.advance(a);
            nxt.evaluateScore();
            nxt.first_action = a as i64;
            proof {
                assert(nxt@.wf());
                assert(key(nxt) == v.gain(a as int));
                if b.items@.len() > 0 {
                    lemma_best_idx(b.items@);
                }
                lemma_best_idx_push(b.items@, nxt);
                assert(nxt@ == succ_root_v(v, a as int));
            }
            b.push(nxt);
            proof {
                assert(views_of(b.items@) =~= root_succs_upto(v, a as int + 1));
            }
        } else {
            proof {
                assert(views_of(b.items@) =~= root_succs_upto(v, a as int + 1));
            }
        }
        a = a + 1;
    }
    proof {
        lemma_greedy_scan(v, 4);
        lemma_legal_seq_chars(v);
        if legal_seq(v).len() > 0 {
            assert(v.legal(legal_seq(v)[0] as int));
            assert(legal_seq(v).contains(legal_seq(v)[0]));
        }
        if greedy_scan(v, 4).0 != -1 {
            assert(legal_seq(v).contains(greedy_scan(v, 4).0 as usize));
        }
    }
    b
}

/// Expands one popped state deeper into the search: its evaluated successors
/// join `next`, each inheriting the popped state's recorded first action.
fn expandKeep(st: &MazeState, next: &mut Beam)
    requires
        st@.wf(),
        !st@.is_done(),
    ensures
        old(next).items@.len() <= final(next).items@.len(),
        forall|j: int|
            0 <= j < old(next).items@.len() ==> final(next).items@[j] == old(next).items@[j],
        forall|j: int|
            old(next).items@.len() <= j < final(next).items@.len()
                ==> ((#[trigger] final(next).items@[j])@.wf()
                && final(next).items@[j]@.first_action == st@.first_action
                && final(next).items@[j]@.h() == st@.h()
                && final(next).items@[j]@.w() == st@.w()),
        final(next).items@.len() > old(next).items@.len() <==> legal_seq(st@).len() > 0,
        views_of(final(next).items@) == views_of(old(next).items@) + succs_v(st@),
{
    let ghost v = st@;
    let ghost base = next.items@;
    let mut a: usize = 0;
    while a < 4
        invariant
            a <= 4,
            st@.wf(),
            !st@.is_done(),
            v == st@,
            base.len() <= next.items@.len(),
            forall|j: int| 0 <= j < base.len() ==> next.items@[j] == base[j],
            forall|j: int|
                base.len() <= j < next.items@.len() ==> ((#[trigger] next.items@[j])@.wf()
                    && next.items@[j]@.first_action == v.first_action && next.items@[j]@.h()
                    == v.h() && next.items@[j]@.w() == v.w()),
            next.items@.len() > base.len() <==> (exists|c: int| 0 <= c < a && v.legal(c)),
            views_of(next.items@) == views_of(base) + succs_upto(v, a as int),
        decreases 4 - a,
    {
        if st.legalAt(a) {
            let mut nxt = st.clone();
            nxt.advance(a);
            nxt.evaluateScore();
            proof {
                assert(nxt@ == succ_v(v, a as int));
            }
            let ghost pre_items = next.items@;
            b_push(next, nxt);
            proof {
                let sa = succ_v(v, a as int);
                assert(succs_upto(v, a as int + 1) == succs_upto(v, a as int) + seq![sa]);
                assert(views_of(next.items@) =~= views_of(pre_items).push(sa));
                assert(views_of(pre_items).push(sa) =~= views_of(pre_items) + seq![sa]);
                assert((views_of(base) + succs_upto(v, a as int)) + seq![sa] =~= views_of(base)
                    + (succs_upto(v, a as int) + seq![sa]));
                assert(views_of(next.items@) == views_of(base) + succs_upto(v, a as int + 1));
            }
        } else {
            proof {
                assert(succs_upto(v, a as int + 1) =~= succs_upto(v, a as int));
                assert(views_of(next.items@) == views_of(base) + succs_upto(v, a as int + 1));
            }
        }
        a = a + 1;
    }
    proof {
        lemma_legal_seq_chars(v);
        if legal_seq(v).len() > 0 {
            assert(v.legal(legal_seq(v)[0] as int));
            assert(legal_seq(v).contains(legal_seq(v)[0]));
        }
        if exists|c: int| 0 <= c < 4 && v.legal(c) {
            let c = choose|c: int| 0 <= c < 4 && v.legal(c);
            assert(legal_seq(v).contains(c as usize));
        }
    }
}

fn b_push(b: &mut Beam, s: MazeState)
    ensures
        final(b).items@ == old(b).items@.push(s),
{
    b.push(s);
}

/// One-step greedy lookahead: tries every legal action on a clone, scores the
/// outcome, and picks the strictly best, first seen among ties.
pub fn greedyAction(state: &MazeState) -> (r: Result<usize, SearchError>)
    requires
        state@.wf(),
    ensures
        r is Ok <==> (!state@.is_done() && legal_seq(state@).len() > 0),
        r matches Ok(a) ==> (a as int == greedy_choice(state@) && state@.legal(a as int)),
{
    if state.isDone() {
        return Err(SearchError::NoLegalMoves);
    }
    let b = expandRoot(state);
    if b.isEmpty() {
        return Err(SearchError::NoLegalMoves);
    }
    proof {
        lemma_best_idx(b.items@);
        lemma_greedy_scan(state@, 4);
    }
    let best = b.peekBest();
    let fa = best.first_action;
    Ok(fa as usize)
}

/// Pops the best state of `from`; when it is not terminal its successors are
/// expanded into `next`; a terminal pop expands nothing.  Returns whether the
/// popped state was terminal.
fn popAndExpand(from: &mut Beam, next: &mut Beam, root: Ghost<MazeV>) -> (was_done: bool)
    requires
        old(from).items@.len() >= 1,
        forall|j: int| 0 <= j < old(from).items@.len() ==> fa_ok(root@, #[trigger] old(from).items@[j]),
        forall|j: int| 0 <= j < old(next).items@.len() ==> fa_ok(root@, #[trigger] old(next).items@[j]),
    ensures
        final(from).items@ == old(from).items@.remove(best_idx(old(from).items@)),
        forall|j: int| 0 <= j < final(from).items@.len() ==> fa_ok(root@, #[trigger] final(from).items@[j]),
        forall|j: int| 0 <= j < old(next).items@.len() ==> final(next).items@[j] == old(next).items@[j],
        old(next).items@.len() <= final(next).items@.len(),
        forall|j: int| 0 <= j < final(next).items@.len() ==> fa_ok(root@, #[trigger] final(next).items@[j]),
        forall|j: int|
            old(next).items@.len() <= j < final(next).items@.len()
                ==> (#[trigger] final(next).items@[j])@.first_action
                == old(from).items@[best_idx(old(from).items@)]@.first_action,
        !was_done && (root@.h() >= 2 || root@.w() >= 2) ==> final(next).items@.len() > old(
            next,
        ).items@.len(),
        was_done == old(from).items@[best_idx(old(from).items@)]@.is_done(),
        !was_done ==> views_of(final(next).items@) == views_of(old(next).items@) + succs_v(
            old(from).items@[best_idx(old(from).items@)]@,
        ),
        was_done ==> final(next).items@ == old(next).items@,
{
    let ghost olds = from.items@;
    proof {
        lemma_best_idx(olds);
    }
    let st = from.popBest();
    proof {
        let bi = best_idx(olds);
        assert(fa_ok(root@, olds[bi]));
        assert forall|k: int| 0 <= k < final(from).items@.len() implies fa_ok(root@,
            #[trigger] final(from).items@[k],
        ) by {
            if k < bi {
                assert(final(from).items@[k] == olds[k]);
            } else {
                assert(final(from).items@[k] == olds[k + 1]);
            }
        }
    }
    if st.isDone() {
        return true;
    }
    let ghost st_view = st@;
    expandKeep(&st, next);
    proof {
        assert(views_of(final(next).items@) == views_of(old(next).items@) + succs_v(st_view));
    }
    proof {
        if root@.h() >= 2 || root@.w() >= 2 {
            lemma_legal_seq_empty(st@);
        }
    }
    false
}

/// Beam search with a fixed width and depth.  At each depth the best
/// `beam_width` states are expanded into the next depth; the returned action
/// is the depth-0 move of the best surviving state.  With `beam_width == 1`
/// it degenerates to one-step greedy lookahead and returns exactly the
/// greedy action.
pub fn beamSearchAction(state: &MazeState, beam_width: usize, beam_depth: usize) -> (r: Result<
    usize,
    SearchError,
>)
    requires
        state@.wf(),
    ensures
        r is Ok <==> (beam_width >= 1 && beam_depth >= 1 && !state@.is_done() && legal_seq(
            state@,
        ).len() > 0),
        r matches Ok(a) ==> state@.legal(a as int),
        beam_width == 1 ==> (r matches Ok(a) ==> a as int == greedy_choice(state@)),
        r matches Ok(a) ==> a as int == beam_result(
            state@,
            beam_width as nat,
            beam_depth as nat,
        ),
{
    let ghost v = state@;
    if beam_width == 0 || beam_depth == 0 || state.isDone() {
        return Err(SearchError::NoLegalMoves);
    }
    let mut now_beam = expandRoot(state);
    if now_beam.isEmpty() {
        return Err(SearchError::NoLegalMoves);
    }
    proof {
        lemma_best_idx(now_beam.items@);
        lemma_greedy_scan(v, 4);
        lemma_best_idx_views(now_beam.items@);
        lemma_best_idx_v(views_of(now_beam.items@));
    }
    let first = now_beam.peekBest();
    let mut result: i64 = first.first_action;
    let mut stop: bool = first.isDone();
    proof {
        assert(views_of(now_beam.items@)[best_idx_v(views_of(now_beam.items@))]
            == now_beam.items@[best_idx(now_beam.items@)]@);
        assert(result as int == beam_state(v, beam_width as nat, 1nat).1);
        assert(stop == beam_state(v, beam_width as nat, 1nat).2);
    }
    let mut t: usize = 1;
    while t < beam_depth && !stop
        invariant
            state@.wf(),
            v == state@,
            1 <= t <= beam_depth,
            beam_width >= 1,
            forall|j: int| 0 <= j < now_beam.items@.len() ==> fa_ok(v, #[trigger] now_beam.items@[j]),
            0 <= result < 4,
            v.legal(result as int),
            beam_width == 1 ==> result == greedy_choice(v),
            beam_width == 1 && !stop ==> (now_beam.items@.len() > 0
                ==> now_beam.items@[best_idx(now_beam.items@)]@.first_action == greedy_choice(v)),
            !stop ==> (views_of(now_beam.items@) == beam_state(v, beam_width as nat, t as nat).0
                && result as int == beam_state(v, beam_width as nat, t as nat).1
                && !beam_state(v, beam_width as nat, t as nat).2),
            stop ==> (result as int == beam_state(v, beam_width as nat, t as nat).1
                && beam_state(v, beam_width as nat, t as nat).2),
        decreases beam_depth - t,
    {
        let ghost m0 = views_of(now_beam.items@);
        let mut next_beam = Beam::new();
        proof {
            assert(views_of(next_beam.items@) =~= Seq::<MazeV>::empty());
        }
        let mut pops: usize = 0;
        let mut halt_pops: bool = false;
        while pops < beam_width && !halt_pops
            invariant
                state@.wf(),
                v == state@,
                beam_width >= 1,
                pops <= beam_width,
                forall|j: int|
                    0 <= j < now_beam.items@.len() ==> fa_ok(v, #[trigger] now_beam.items@[j]),
                forall|j: int|
                    0 <= j < next_beam.items@.len() ==> fa_ok(v, #[trigger] next_beam.items@[j]),
                beam_width == 1 && pops == 0 ==> (now_beam.items@.len() > 0
                    ==> now_beam.items@[best_idx(now_beam.items@)]@.first_action == greedy_choice(
                    v,
                )),
                beam_width == 1 ==> forall|j: int|
                    0 <= j < next_beam.items@.len() ==> (#[trigger] next_beam.items@[j])@.first_action
                        == greedy_choice(v),
                !halt_pops ==> beam_pops(m0, Seq::<MazeV>::empty(), beam_width as nat)
                    == beam_pops(
                    views_of(now_beam.items@),
                    views_of(next_beam.items@),
                    (beam_width - pops) as nat,
                ),
                halt_pops ==> beam_pops(m0, Seq::<MazeV>::empty(), beam_width as nat)
                    == views_of(next_beam.items@),
            decreases beam_width - pops,
        {
            pops = pops + 1;
            if now_beam.isEmpty() {
                proof {
                    assert(views_of(now_beam.items@).len() == 0);
                }
                halt_pops = true;
            } else {
                proof {
                    lemma_best_idx(now_beam.items@);
                    lemma_best_idx_views(now_beam.items@);
                    lemma_best_idx_v(views_of(now_beam.items@));
                }
                let ghost pre_now = now_beam.items@;
                let was_done = popAndExpand(&mut now_beam, &mut next_beam, Ghost(v));
                proof {
                    let bi = best_idx(pre_now);
                    assert(views_of(pre_now)[best_idx_v(views_of(pre_now))] == pre_now[bi]@);
                    if !was_done {
                        lemma_views_remove(pre_now, bi);
                    }
                }
                if was_done {
                    halt_pops = true;
                }
            }
        }
        proof {
            assert(beam_pops(m0, Seq::<MazeV>::empty(), beam_width as nat) == views_of(
                next_beam.items@,
            ));
        }
        if next_beam.isEmpty() {
            proof {
                assert(views_of(next_beam.items@).len() == 0);
                assert(beam_state(v, beam_width as nat, (t + 1) as nat).1 == result as int);
                assert(beam_state(v, beam_width as nat, (t + 1) as nat).2);
            }
            stop = true;
        } else {
            proof {
                lemma_best_idx(next_beam.items@);
                lemma_best_idx_views(next_beam.items@);
                lemma_best_idx_v(views_of(next_beam.items@));
                assert(views_of(next_beam.items@)[best_idx_v(views_of(next_beam.items@))]
                    == next_beam.items@[best_idx(next_beam.items@)]@);
            }
            let nb = next_beam.peekBest();
            result = nb.first_action;
            if nb.isDone() {
                stop = true;
            }
            now_beam = next_beam;
        }
        t = t + 1;
    }
    proof {
        if stop {
            lemma_beam_state_stable(v, beam_width as nat, t as nat, beam_depth as nat);
        }
        assert(result as int == beam_result(v, beam_width as nat, beam_depth as nat));
    }
    Ok(result as usize)
}

/// Pops the best state of the level-`t` pool.
fn popAt(beams: &mut Vec<Beam>, t: usize) -> (r: MazeState)
    requires
        t < old(beams)@.len(),
        old(beams)@[t as int].items@.len() >= 1,
    ensures
        r == old(beams)@[t as int].items@[best_idx(old(beams)@[t as int].items@)],
        final(beams)@.len() == old(beams)@.len(),
        forall|l: int|
            0 <= l < old(beams)@.len() && l != t ==> final(beams)@[l] == old(beams)@[l],
        final(beams)@[t as int].items@ == old(beams)@[t as int].items@.remove(
            best_idx(old(beams)@[t as int].items@),
        ),
{
    let b = vstd::std_specs::vec::vec_index_mut(beams, t);
    b.popBest()
}

/// Appends a batch of expanded states to the level-`t` pool.
fn appendAt(beams: &mut Vec<Beam>, t: usize, add: Beam)
    requires
        t < old(beams)@.len(),
    ensures
        final(beams)@.len() == old(beams)@.len(),
        forall|l: int|
            0 <= l < old(beams)@.len() && l != t ==> final(beams)@[l] == old(beams)@[l],
        final(beams)@[t as int].items@ == old(beams)@[t as int].items@ + add.items@,
{
    let mut add = add;
    let b = vstd::std_specs::vec::vec_index_mut(beams, t);
    b.items.append(&mut add.items);
}

/// The chokudai pools are consistent: one pool per depth level, every held
/// state well-formed with a root-legal recorded first action, and the level
/// `wit` (between 1 and the deepest) is non-empty, so an answer exists.
pub open spec fn chokudai_inv(beams: Seq<Beam>, root: MazeV, depth: int, wit: int) -> bool {
    &&& beams.len() == depth + 1
    &&& forall|l: int, j: int|
        0 <= l < beams.len() && 0 <= j < beams[l].items@.len() ==> fa_ok(
            root,
            #[trigger] beams[l].items@[j],
        )
    &&& 1 <= wit <= depth
    &&& beams[wit].items@.len() > 0
}

/// One full chokudai sweep: at every level in ascending order, up to
/// `beam_width` best states are popped and their successors pushed one level
/// deeper; a terminal or exhausted level ends its widening for this sweep.
#[verifier::loop_isolation(false)]
fn chokudaiSweep(
    beams: &mut Vec<Beam>,
    beam_width: usize,
    beam_depth: usize,
    root: Ghost<MazeV>,
    wit: Ghost<int>,
) -> (new_wit: Ghost<int>)
    requires
        root@.wf(),
        root@.h() >= 2 || root@.w() >= 2,
        beam_width >= 1,
        beam_depth >= 1,
        chokudai_inv(old(beams)@, root@, beam_depth as int, wit@),
    ensures
        chokudai_inv(final(beams)@, root@, beam_depth as int, new_wit@),
        pools_of(final(beams)@) == chok_sweep(
            pools_of(old(beams)@),
            beam_width as nat,
            beam_depth as nat,
        ),
{
    let ghost v = root@;
    let mut w_idx: Ghost<int> = wit;
    let mut t: usize = 1;
    while t < beam_depth
        invariant
            1 <= t <= beam_depth,
            chokudai_inv(beams@, v, beam_depth as int, w_idx@),
            pools_of(beams@) == chok_levels(
                pools_of(old(beams)@),
                beam_width as nat,
                t as int - 1,
            ),
        decreases beam_depth - t,
    {
        let ghost l0 = pools_of(beams@);
        let mut pops: usize = 0;
        let mut halt: bool = false;
        while pops < beam_width && !halt
            invariant
                pops <= beam_width,
                chokudai_inv(beams@, v, beam_depth as int, w_idx@),
                1 <= t < beam_depth,
                !halt ==> chok_pops(l0, t as int, beam_width as nat) == chok_pops(
                    pools_of(beams@),
                    t as int,
                    (beam_width - pops) as nat,
                ),
                halt ==> chok_pops(l0, t as int, beam_width as nat) == pools_of(beams@),
            decreases beam_width - pops,
        {
            pops = pops + 1;
            if beams[t].len() == 0 {
                proof {
                    assert(pools_of(beams@)[t as int].len() == 0);
                }
                halt = true;
            } else {
                proof {
                    lemma_best_idx(beams@[t as int].items@);
                    lemma_best_idx_views(beams@[t as int].items@);
                    lemma_best_idx_v(pools_of(beams@)[t as int]);
                    assert(fa_ok(
                        v,
                        beams@[t as int].items@[best_idx(beams@[t as int].items@)],
                    ));
                    assert(pools_of(beams@)[t as int][best_idx_v(pools_of(beams@)[t as int])]
                        == beams@[t as int].items@[best_idx(beams@[t as int].items@)]@);
                }
                if beams[t].peekBest().isDone() {
                    halt = true;
                } else {
                    let ghost pre = beams@;
                    let ghost lpools = pools_of(beams@);
                    let st = popAt(beams, t);
                    proof {
                        let bi = best_idx(pre[t as int].items@);
                        assert forall|k: int|
                            0 <= k < beams@[t as int].items@.len() implies fa_ok(
                            v,
                            #[trigger] beams@[t as int].items@[k],
                        ) by {
                            if k < bi {
                                assert(beams@[t as int].items@[k] == pre[t as int].items@[k]);
                            } else {
                                assert(beams@[t as int].items@[k] == pre[t as int].items@[k
                                    + 1]);
                            }
                        }
                    }
                    let mut tmp = Beam::new();
                    expandKeep(&st, &mut tmp);
                    proof {
                        lemma_legal_seq_empty(st@);
                        assert(tmp.items@.len() > 0);
                        assert forall|j: int| 0 <= j < tmp.items@.len() implies fa_ok(
                            v,
                            #[trigger] tmp.items@[j],
                        ) by {
                            assert(tmp.items@[j]@.first_action == st@.first_action);
                        }
                    }
                    let ghost pre2 = beams@;
                    let ghost tmp_items = tmp.items@;
                    appendAt(beams, t + 1, tmp);
                    proof {
                        assert forall|k: int, j: int|
                            0 <= k < beams@.len() && 0 <= j < beams@[k].items@.len() implies fa_ok(
                            v,
                            #[trigger] beams@[k].items@[j],
                        ) by {
                            if k == t as int + 1 {
                                if j < pre2[k].items@.len() {
                                    assert(beams@[k].items@[j] == pre2[k].items@[j]);
                                } else {
                                    assert(beams@[k].items@[j] == tmp_items[j - pre2[
                                        k].items@.len()]);
                                }
                            } else {
                                assert(beams@[k] == pre2[k]);
                            }
                        }
                    }
                    proof {
                        if w_idx@ == t as int {
                            w_idx@ = t as int + 1;
                        }
                        assert(beams@[w_idx@].items@.len() > 0);
                        let bi = best_idx(pre[t as int].items@);
                        let lt = lpools[t as int];
                        let best = lt[best_idx_v(lt)];
                        lemma_views_remove(pre[t as int].items@, bi);
                        lemma_views_add(pre2[t as int + 1].items@, tmp_items);
                        assert(views_of(tmp_items) =~= Seq::<MazeV>::empty() + succs_v(st@));
                        assert(views_of(tmp_items) == succs_v(best));
                        assert(pools_of(beams@) =~= lpools.update(
                            t as int,
                            lt.remove(best_idx_v(lt)),
                        ).update(t as int + 1, lpools[t as int + 1] + succs_v(best)));
                    }
                }
            }
        }
        t = t + 1;
    }
    w_idx
}

/// The answer after the sweeps: the recorded first action of the best state
/// in the deepest non-empty level.
#[verifier::loop_isolation(false)]
fn chokudaiPick(beams: &Vec<Beam>, beam_depth: usize, root: Ghost<MazeV>, wit: Ghost<int>) -> (a:
    usize)
    requires
        beam_depth >= 1,
        chokudai_inv(beams@, root@, beam_depth as int, wit@),
    ensures
        a < 4,
        root@.legal(a as int),
        a as int == chok_pick(pools_of(beams@), beam_depth as int),
{
    let mut t: usize = beam_depth;
    while t >= 1
        invariant
            t <= beam_depth,
            forall|l: int| t < l <= beam_depth ==> beams@[l].items@.len() == 0,
            chok_pick(pools_of(beams@), beam_depth as int) == chok_pick(
                pools_of(beams@),
                t as int,
            ),
        decreases t,
    {
        if beams[t].len() > 0 {
            proof {
                lemma_best_idx(beams@[t as int].items@);
                lemma_best_idx_views(beams@[t as int].items@);
                lemma_best_idx_v(pools_of(beams@)[t as int]);
                assert(fa_ok(root@, beams@[t as int].items@[best_idx(beams@[t as int].items@)]));
                assert(pools_of(beams@)[t as int][best_idx_v(pools_of(beams@)[t as int])]
                    == beams@[t as int].items@[best_idx(beams@[t as int].items@)]@);
            }
            let fa = beams[t].peekBest().first_action;
            return fa as usize;
        }
        proof {
            assert(pools_of(beams@)[t as int].len() == 0);
        }
        t = t - 1;
    }
    proof {
        assert(beams@[wit@].items@.len() == 0);
        assert(false);
    }
    vstd::pervasive::unreached()
}

/// Chokudai search: one pool of live states per depth level, all kept alive
/// at once; `beam_number` sweeps widen every level a little at a time, and
/// the answer is read from the deepest level reached.
pub fn chokudaiSearchAction(
    state: &MazeState,
    beam_width: usize,
    beam_depth: usize,
    beam_number: usize,
) -> (r: Result<usize, SearchError>)
    requires
        state@.wf(),
        beam_depth < usize::MAX,
    ensures
        r is Ok <==> (beam_width >= 1 && beam_depth >= 1 && beam_number >= 1 && !state@.is_done()
            && legal_seq(state@).len() > 0),
        r matches Ok(a) ==> state@.legal(a as int),
        r matches Ok(a) ==> a as int == chokudai_result(
            state@,
            beam_width as nat,
            beam_depth as nat,
            beam_number as nat,
        ),
{
    let ghost v = state@;
    if beam_width == 0 || beam_depth == 0 || beam_number == 0 || state.isDone() {
        return Err(SearchError::NoLegalMoves);
    }
    let level1 = expandRoot(state);
    if level1.isEmpty() {
        return Err(SearchError::NoLegalMoves);
    }
    proof {
        lemma_legal_seq_empty(v);
    }
    let ghost level1_views = views_of(level1.items@);
    let mut beams: Vec<Beam> = Vec::new();
    beams.push(Beam::new());
    beams.push(level1);
    let mut l: usize = 2;
    while l <= beam_depth
        invariant
            beam_depth < usize::MAX,
            2 <= l <= beam_depth + 1,
            beams@.len() == l,
            forall|k: int, j: int|
                0 <= k < beams@.len() && 0 <= j < beams@[k].items@.len() ==> fa_ok(
                    v,
                    #[trigger] beams@[k].items@[j],
                ),
            beams@[1].items@.len() > 0,
            beams@[0].items@.len() == 0,
            views_of(beams@[1].items@) == level1_views,
            level1_views == root_succs_v(v),
            forall|k: int| 2 <= k < l ==> (#[trigger] beams@[k]).items@.len() == 0,
        decreases beam_depth + 1 - l,
    {
        let ghost pre = beams@;
        let nb = Beam::new();
        beams.push(nb);
        l = l + 1;
        proof {
            assert forall|k: int, j: int|
                0 <= k < beams@.len() && 0 <= j < beams@[k].items@.len() implies fa_ok(
                v,
                #[trigger] beams@[k].items@[j],
            ) by {
                if k < pre.len() {
                    assert(beams@[k] == pre[k]);
                    assert(fa_ok(v, pre[k].items@[j]));
                } else {
                    assert(beams@[k].items@.len() == 0);
                }
            }
            assert(beams@[1] == pre[1]);
        }
    }
    proof {
        assert(pools_of(beams@) =~~= chok_init(v, beam_depth as nat));
    }
    let mut wit: Ghost<int> = Ghost(1int);
    let mut cnt: usize = 0;
    while cnt < beam_number
        invariant
            cnt <= beam_number,
            v.wf(),
            v.h() >= 2 || v.w() >= 2,
            beam_width >= 1,
            beam_depth >= 1,
            chokudai_inv(beams@, v, beam_depth as int, wit@),
            pools_of(beams@) == chok_iter(
                chok_init(v, beam_depth as nat),
                beam_width as nat,
                beam_depth as nat,
                cnt as nat,
            ),
        decreases beam_number - cnt,
    {
        wit = chokudaiSweep(&mut beams, beam_width, beam_depth, Ghost(v), wit);
        cnt = cnt + 1;
    }
    let a = chokudaiPick(&beams, beam_depth, Ghost(v), wit);
    Ok(a)
}

/// Beam search bounded by wall-clock time instead of a fixed depth: depths
/// keep being explored until the best state is terminal or the budget is
/// spent; the first depth always completes, so an expired budget still
/// yields the best depth-0 action.
pub fn beamSearchActionWithTimeThreshold(
    state: &MazeState,
    beam_width: usize,
    time_threshold_ms: u64,
) -> (r: Result<usize, SearchError>)
    requires
        state@.wf(),
    ensures
        r is Ok <==> (beam_width >= 1 && !state@.is_done() && legal_seq(state@).len() > 0),
        r matches Ok(a) ==> state@.legal(a as int),
        beam_width == 1 ==> (r matches Ok(a) ==> a as int == greedy_choice(state@)),
        r matches Ok(a) ==> (exists|d: nat|
            1 <= d && a as int == beam_result(state@, beam_width as nat, d)),
{
    let ghost v = state@;
    let tk = TimeKeeper::new(time_threshold_ms);
    if beam_width == 0 || state.isDone() {
        return Err(SearchError::NoLegalMoves);
    }
    let mut now_beam = expandRoot(state);
    if now_beam.isEmpty() {
        return Err(SearchError::NoLegalMoves);
    }
    proof {
        lemma_best_idx(now_beam.items@);
        lemma_greedy_scan(v, 4);
        lemma_best_idx_views(now_beam.items@);
        lemma_best_idx_v(views_of(now_beam.items@));
    }
    let first = now_beam.peekBest();
    let mut result: i64 = first.first_action;
    let mut stop: bool = first.isDone() || tk.isTimeOver();
    proof {
        assert(views_of(now_beam.items@)[best_idx_v(views_of(now_beam.items@))]
            == now_beam.items@[best_idx(now_beam.items@)]@);
        assert(result as int == beam_state(v, beam_width as nat, 1nat).1);
    }
    let ghost mut lv: nat = 1nat;
    let mut fuel: usize = usize::MAX;
    while fuel > 0 && !stop
        invariant
            state@.wf(),
            v == state@,
            beam_width >= 1,
            1 <= lv,
            forall|j: int| 0 <= j < now_beam.items@.len() ==> fa_ok(v, #[trigger] now_beam.items@[j]),
            0 <= result < 4,
            v.legal(result as int),
            beam_width == 1 ==> result == greedy_choice(v),
            beam_width == 1 && !stop ==> (now_beam.items@.len() > 0
                ==> now_beam.items@[best_idx(now_beam.items@)]@.first_action == greedy_choice(v)),
            result as int == beam_state(v, beam_width as nat, lv).1,
            !stop ==> (views_of(now_beam.items@) == beam_state(v, beam_width as nat, lv).0
                && !beam_state(v, beam_width as nat, lv).2),
        decreases fuel,
    {
        fuel = fuel - 1;
        let ghost m0 = views_of(now_beam.items@);
        let mut next_beam = Beam::new();
        proof {
            assert(views_of(next_beam.items@) =~= Seq::<MazeV>::empty());
        }
        let mut pops: usize = 0;
        let mut halt_pops: bool = false;
        while pops < beam_width && !halt_pops
            invariant
                state@.wf(),
                v == state@,
                beam_width >= 1,
                pops <= beam_width,
                forall|j: int|
                    0 <= j < now_beam.items@.len() ==> fa_ok(v, #[trigger] now_beam.items@[j]),
                forall|j: int|
                    0 <= j < next_beam.items@.len() ==> fa_ok(v, #[trigger] next_beam.items@[j]),
                beam_width == 1 && pops == 0 ==> (now_beam.items@.len() > 0
                    ==> now_beam.items@[best_idx(now_beam.items@)]@.first_action == greedy_choice(
                    v,
                )),
                beam_width == 1 ==> forall|j: int|
                    0 <= j < next_beam.items@.len() ==> (#[trigger] next_beam.items@[j])@.first_action
                        == greedy_choice(v),
                !halt_pops ==> beam_pops(m0, Seq::<MazeV>::empty(), beam_width as nat)
                    == beam_pops(
                    views_of(now_beam.items@),
                    views_of(next_beam.items@),
                    (beam_width - pops) as nat,
                ),
                halt_pops ==> beam_pops(m0, Seq::<MazeV>::empty(), beam_width as nat)
                    == views_of(next_beam.items@),
            decreases beam_width - pops,
        {
            pops = pops + 1;
            if now_beam.isEmpty() {
                proof {
                    assert(views_of(now_beam.items@).len() == 0);
                }
                halt_pops = true;
            } else {
                proof {
                    lemma_best_idx(now_beam.items@);
                    lemma_best_idx_views(now_beam.items@);
                    lemma_best_idx_v(views_of(now_beam.items@));
                }
                let ghost pre_now = now_beam.items@;
                let was_done = popAndExpand(&mut now_beam, &mut next_beam, Ghost(v));
                proof {
                    let bi = best_idx(pre_now);
                    assert(views_of(pre_now)[best_idx_v(views_of(pre_now))] == pre_now[bi]@);
                    if !was_done {
                        lemma_views_remove(pre_now, bi);
                    }
                }
                if was_done {
                    halt_pops = true;
                }
            }
        }
        proof {
            assert(beam_pops(m0, Seq::<MazeV>::empty(), beam_width as nat) == views_of(
                next_beam.items@,
            ));
        }
        if next_beam.isEmpty() {
            proof {
                assert(views_of(next_beam.items@).len() == 0);
                assert(beam_state(v, beam_width as nat, lv + 1).1 == result as int);
                assert(beam_state(v, beam_width as nat, lv + 1).2);
            }
            stop = true;
        } else {
            proof {
                lemma_best_idx(next_beam.items@);
                lemma_best_idx_views(next_beam.items@);
                lemma_best_idx_v(views_of(next_beam.items@));
                assert(views_of(next_beam.items@)[best_idx_v(views_of(next_beam.items@))]
                    == next_beam.items@[best_idx(next_beam.items@)]@);
            }
            let nb = next_beam.peekBest();
            result = nb.first_action;
            if nb.isDone() || tk.isTimeOver() {
                stop = true;
            }
            now_beam = next_beam;
        }
        proof {
            lv = lv + 1;
        }
    }
    proof {
        assert(beam_result(v, beam_width as nat, lv) == result as int);
    }
    Ok(result as usize)
}

/// Chokudai search bounded by wall-clock time: full sweeps are repeated
/// until the budget is spent, and at least one sweep always runs, so an
/// expired budget still yields an answer from the progress made.
pub fn chokudaiSearchActionWithTimeThreshold(
    state: &MazeState,
    beam_width: usize,
    beam_depth: usize,
    time_threshold_ms: u64,
) -> (r: Result<usize, SearchError>)
    requires
        state@.wf(),
        beam_depth < usize::MAX,
    ensures
        r is Ok <==> (beam_width >= 1 && beam_depth >= 1 && !state@.is_done() && legal_seq(
            state@,
        ).len() > 0),
        r matches Ok(a) ==> state@.legal(a as int),
        r matches Ok(a) ==> (exists|n: nat|
            1 <= n && a as int == chokudai_result(
                state@,
                beam_width as nat,
                beam_depth as nat,
                n,
            )),
{
    let ghost v = state@;
    let tk = TimeKeeper::new(time_threshold_ms);
    if beam_width == 0 || beam_depth == 0 || state.isDone() {
        return Err(SearchError::NoLegalMoves);
    }
    let level1 = expandRoot(state);
    if level1.isEmpty() {
        return Err(SearchError::NoLegalMoves);
    }
    proof {
        lemma_legal_seq_empty(v);
    }
    let ghost level1_views = views_of(level1.items@);
    let mut beams: Vec<Beam> = Vec::new();
    beams.push(Beam::new());
    beams.push(level1);
    let mut l: usize = 2;
    while l <= beam_depth
        invariant
            beam_depth < usize::MAX,
            2 <= l <= beam_depth + 1,
            beams@.len() == l,
            forall|k: int, j: int|
                0 <= k < beams@.len() && 0 <= j < beams@[k].items@.len() ==> fa_ok(
                    v,
                    #[trigger] beams@[k].items@[j],
                ),
            beams@[1].items@.len() > 0,
            beams@[0].items@.len() == 0,
            views_of(beams@[1].items@) == level1_views,
            level1_views == root_succs_v(v),
            forall|k: int| 2 <= k < l ==> (#[trigger] beams@[k]).items@.len() == 0,
        decreases beam_depth + 1 - l,
    {
        let ghost pre = beams@;
        let nb = Beam::new();
        beams.push(nb);
        l = l + 1;
        proof {
            assert forall|k: int, j: int|
                0 <= k < beams@.len() && 0 <= j < beams@[k].items@.len() implies fa_ok(
                v,
                #[trigger] beams@[k].items@[j],
            ) by {
                if k < pre.len() {
                    assert(beams@[k] == pre[k]);
                    assert(fa_ok(v, pre[k].items@[j]));
                } else {
                    assert(beams@[k].items@.len() == 0);
                }
            }
            assert(beams@[1] == pre[1]);
        }
    }
    proof {
        assert(pools_of(beams@) =~~= chok_init(v, beam_depth as nat));
    }
    let mut wit: Ghost<int> = Ghost(1int);
    let ghost mut sweeps: nat = 0nat;
    let mut fuel: usize = usize::MAX;
    let mut stop: bool = false;
    while fuel > 0 && !stop
        invariant
            v.wf(),
            v.h() >= 2 || v.w() >= 2,
            beam_width >= 1,
            beam_depth >= 1,
            chokudai_inv(beams@, v, beam_depth as int, wit@),
            pools_of(beams@) == chok_iter(
                chok_init(v, beam_depth as nat),
                beam_width as nat,
                beam_depth as nat,
                sweeps,
            ),
            stop ==> 1 <= sweeps,
            sweeps + fuel == usize::MAX,
        decreases fuel,
    {
        fuel = fuel - 1;
        wit = chokudaiSweep(&mut beams, beam_width, beam_depth, Ghost(v), wit);
        proof {
            sweeps = sweeps + 1;
        }
        if tk.isTimeOver() {
            stop = true;
        }
    }
    let a = chokudaiPick(&beams, beam_depth, Ghost(v), wit);
    proof {
        assert(a as int == chokudai_result(
            v,
            beam_width as nat,
            beam_depth as nat,
            sweeps,
        ));
    }
    Ok(a)
}

/// Runs one whole game: repeatedly asks the time-bounded chokudai search for
/// the next action and applies it until the turn budget is spent; the final
/// score is returned.  The score never shrinks along the way and never
/// exceeds what the board offered.
pub fn playGame(state: MazeState, beam_width: usize, time_threshold_ms: u64) -> (r: u64)
    requires
        state@.wf(),
        beam_width >= 1,
        state@.h() >= 2 || state@.w() >= 2,
        state@.end_turn < usize::MAX,
    ensures
        state@.game_score <= r,
        r <= state@.game_score + grid_total(state@.points),
        exists|acts: Seq<int>|
            path_ok(state@, acts) && maze_run(state@, acts).is_done() && r == maze_run(
                state@,
                acts,
            ).game_score,
{
    let ghost init = state@;
    proof {
        lemma_grid_total_nonneg(init.points);
    }
    let mut st = state;
    let ghost mut acts: Seq<int> = Seq::empty();
    while st.turn < st.end_turn
        invariant
            st@.wf(),
            st@.h() == init.h(),
            st@.w() == init.w(),
            init.h() >= 2 || init.w() >= 2,
            st@.end_turn == init.end_turn,
            init.end_turn < usize::MAX,
            beam_width >= 1,
            st@.game_score >= init.game_score,
            st@.game_score + grid_total(st@.points) == init.game_score + grid_total(init.points),
            path_ok(init, acts),
            maze_run(init, acts) == st@,
        decreases st@.end_turn - st@.turn,
    {
        let depth = st.end_turn;
        let picked = chokudaiSearchActionWithTimeThreshold(
            &st,
            beam_width,
            depth,
            time_threshold_ms,
        );
        match picked {
            Ok(a) => {
                proof {
                    lemma_maze_run_snoc(init, acts, a as int);
                    acts = acts.push(a as int);
                }
                st.advance(a);
            },
            Err(_) => {
                proof {
                    lemma_legal_seq_empty(st@);
                    assert(false);
                }
            },
        }
    }
    proof {
        assert(maze_run(init, acts).is_done());
    }
    proof {
        lemma_grid_total_nonneg(st@.points);
    }
    st.game_score
}

/// A uniformly random legal action.
pub fn randomAction(state: &MazeState, rng: &mut rand::rngs::StdRng) -> (r: Result<usize,
    SearchError>)
    requires
        state@.wf(),
    ensures
        r is Ok <==> legal_seq(state@).len() > 0,
        r matches Ok(a) ==> state@.legal(a as int),
{
    let legal = state.legalActions();
    if legal.len() == 0 {
        return Err(SearchError::NoLegalMoves);
    }
    let i = rand_below(rng, legal.len());
    proof {
        lemma_legal_seq_chars(state@);
        assert(legal_seq(state@).contains(legal_seq(state@)[i as int]));
    }
    Ok(legal[i])
}

} // verus!
