use vstd::prelude::*;

verus! {

use crate::maze::{MazeState, MazeV};

/// Ranking key of the searches: the comparator looks at the evaluated score
/// only, every other field is ignored, and equal scores are an unordered tie.
pub open spec fn key(s: MazeState) -> int {
    s@.evaluated_score
}

/// Position of the best state in a pool: the first position holding the
/// maximum key (a later state displaces an earlier one only when strictly
/// better).
pub open spec fn best_idx(s: Seq<MazeState>) -> int
    decreases s.len(),
{
    if s.len() <= 1 {
        0
    } else {
        let b = best_idx(s.drop_last());
        if key(s.last()) > key(s[b]) {
            s.len() - 1
        } else {
            b
        }
    }
}

pub proof fn lemma_best_idx(s: Seq<MazeState>)
    requires
        s.len() >= 1,
    ensures
        0 <= best_idx(s) < s.len(),
        forall|i: int| 0 <= i < s.len() ==> key(#[trigger] s[i]) <= key(s[best_idx(s)]),
        forall|i: int| 0 <= i < best_idx(s) ==> key(#[trigger] s[i]) < key(s[best_idx(s)]),
    decreases s.len(),
{
    if s.len() > 1 {
        lemma_best_idx(s.drop_last());
        assert(forall|i: int| 0 <= i < s.len() - 1 ==> s.drop_last()[i] == s[i]);
    }
}

/// How the best position moves when one state is appended.
pub proof fn lemma_best_idx_push(s: Seq<MazeState>, x: MazeState)
    ensures
        best_idx(s.push(x)) == (if s.len() == 0 {
            0int
        } else if key(x) > key(s[best_idx(s)]) {
            s.len() as int
        } else {
            best_idx(s)
        }),
{
    assert(s.push(x).drop_last() =~= s);
    if s.len() > 0 {
        assert(s.push(x)[best_idx(s)] == s[best_idx(s)]) by {
            lemma_best_idx(s);
        }
    }
}

/// The contents of a pool as abstract states.
pub open spec fn views_of(s: Seq<MazeState>) -> Seq<MazeV> {
    Seq::new(s.len(), |i: int| s[i]@)
}

/// `best_idx` over abstract states: the same first-maximum rule on the
/// evaluated score.
pub open spec fn best_idx_v(s: Seq<MazeV>) -> int
    decreases s.len(),
{
    if s.len() <= 1 {
        0
    } else {
        let b = best_idx_v(s.drop_last());
        if s.last().evaluated_score > s[b].evaluated_score {
            s.len() - 1
        } else {
            b
        }
    }
}

/// The concrete and the abstract best index agree.
pub proof fn lemma_best_idx_views(s: Seq<MazeState>)
    ensures
        best_idx(s) == best_idx_v(views_of(s)),
    decreases s.len(),
{
    if s.len() > 1 {
        lemma_best_idx_views(s.drop_last());
        lemma_best_idx(s.drop_last());
        assert(views_of(s.drop_last()) =~= views_of(s).drop_last());
        assert(views_of(s).last() == s.last()@);
        assert(views_of(s)[best_idx_v(views_of(s).drop_last())] == s[best_idx(
            s.drop_last(),
        )]@);
    }
}

pub proof fn lemma_best_idx_v(s: Seq<MazeV>)
    requires
        s.len() >= 1,
    ensures
        0 <= best_idx_v(s) < s.len(),
    decreases s.len(),
{
    if s.len() > 1 {
        lemma_best_idx_v(s.drop_last());
    }
}

pub proof fn lemma_views_remove(s: Seq<MazeState>, i: int)
    requires
        0 <= i < s.len(),
    ensures
        views_of(s.remove(i)) == views_of(s).remove(i),
{
    assert(views_of(s.remove(i)) =~= views_of(s).remove(i));
}

pub proof fn lemma_views_add(s1: Seq<MazeState>, s2: Seq<MazeState>)
    ensures
        views_of(s1 + s2) == views_of(s1) + views_of(s2),
{
    assert(views_of(s1 + s2) =~= views_of(s1) + views_of(s2));
}

/// A pool of live candidate states, ranked by evaluated score alone: `push`
/// admits a state, `popBest`/`peekBest` give the best one, first pushed
/// among ties.
pub struct Beam {
    pub items: Vec<MazeState>,
}

impl Beam {
    pub fn new() -> (r: Beam)
        ensures
            r.items@.len() == 0,
    {
        Beam { items: Vec::new() }
    }

    pub fn len(&self) -> (r: usize)
        ensures
            r == self.items@.len(),
    {
        self.items.len()
    }

    pub fn isEmpty(&self) -> (r: bool)
        ensures
            r == (self.items@.len() == 0),
    {
        self.items.len() == 0
    }

    pub fn push(&mut self, s: MazeState)
        ensures
            final(self).items@ == old(self).items@.push(s),
    {
        self.items.push(s);
    }

    /// Index of the best state of the pool.
    pub fn bestIndex(&self) -> (r: usize)
        requires
            self.items@.len() >= 1,
        ensures
            r == best_idx(self.items@),
    {
        let n = self.items.len();
        let mut bi: usize = 0;
        let mut i: usize = 1;
        while i < n
            invariant
                1 <= i <= n,
                n == self.items@.len(),
                bi < i,
                bi == best_idx(self.items@.take(i as int)),
            decreases n - i,
        {
            proof {
                assert(self.items@.take(i as int + 1).drop_last() =~= self.items@.take(i as int));
                lemma_best_idx(self.items@.take(i as int));
            }
            if self.items[i].evaluated_score > self.items[bi].evaluated_score {
                bi = i;
            }
            i = i + 1;
        }
        proof {
            assert(self.items@.take(n as int) =~= self.items@);
        }
        bi
    }

    /// The best state, left in place.
    pub fn peekBest(&self) -> (r: &MazeState)
        requires
            self.items@.len() >= 1,
        ensures
            *r == self.items@[best_idx(self.items@)],
    {
        let bi = self.bestIndex();
        proof {
            lemma_best_idx(self.items@);
        }
        &self.items[bi]
    }

    /// Removes and returns the best state.
    pub fn popBest(&mut self) -> (r: MazeState)
        requires
            old(self).items@.len() >= 1,
        ensures
            r == old(self).items@[best_idx(old(self).items@)],
            final(self).items@ == old(self).items@.remove(best_idx(old(self).items@)),
    {
        let bi = self.bestIndex();
        proof {
            lemma_best_idx(self.items@);
        }
        self.items.remove(bi)
    }
}

} // verus!
