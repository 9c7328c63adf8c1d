use crate::graph::{is_square, is_walk, reachable, weight};
use crate::tour::Tour;
use vstd::prelude::*;

verus! {

/// Rounds of draws without an accepted move after which an ant gives up.
pub const MAX_SELECTION_ROUNDS: usize = 1000;

/// Steps per node of the graph that an ant may take before it gives up.
pub const STEPS_PER_NODE: usize = 1000;

/// The most steps an ant may take on a graph of `n` nodes.
pub open spec fn step_limit(n: int) -> int {
    if n <= usize::MAX / STEPS_PER_NODE {
        n * STEPS_PER_NODE
    } else {
        usize::MAX as int
    }
}

/// The sum of the weights between consecutive nodes of `p`.
pub open spec fn path_length(g: Seq<Vec<u64>>, p: Seq<usize>) -> int
    decreases p.len(),
{
    if p.len() < 2 {
        0
    } else {
        path_length(g, p.drop_last()) + weight(g, p[p.len() - 2] as int, p.last() as int)
    }
}

/// No step of `p` goes straight back to the node it came from.
pub open spec fn no_backtrack(p: Seq<usize>) -> bool {
    forall|k: int| 0 <= k < p.len() - 2 ==> #[trigger] p[k] != p[k + 2]
}

/// `j` may follow the last node of `p`: an edge leads there, and it is not
/// the node just before.
pub open spec fn is_candidate(g: Seq<Vec<u64>>, p: Seq<usize>, j: int) -> bool {
    &&& 0 <= j < g.len()
    &&& weight(g, p.last() as int, j) != 0
    &&& (p.len() < 2 || j != p[p.len() - 2] as int)
}

/// A non-empty walk over edges of `g` that never turns straight back.
pub open spec fn is_ant_walk(g: Seq<Vec<u64>>, p: Seq<usize>) -> bool {
    &&& p.len() >= 1
    &&& forall|k: int| 0 <= k < p.len() ==> #[trigger] p[k] < g.len()
    &&& forall|k: int| 0 <= k < p.len() - 1 ==> weight(g, #[trigger] p[k] as int, p[k + 1] as int) != 0
    &&& no_backtrack(p)
}

/// Every target occurs in `p`.
pub open spec fn covers(p: Seq<usize>, targets: Seq<usize>) -> bool {
    forall|i: int| 0 <= i < targets.len() ==> p.contains(#[trigger] targets[i])
}

/// `p` ends where it starts and passes every target.
pub open spec fn is_closed_tour(p: Seq<usize>, targets: Seq<usize>) -> bool {
    p.len() >= 1 && p.last() == p[0] && covers(p, targets)
}

/// The edges between consecutive nodes of `p`.
pub open spec fn edges_of(p: Seq<usize>) -> Seq<(usize, usize)> {
    Seq::new((if p.len() == 0 { 0 } else { p.len() - 1 }) as nat, |k: int| (p[k], p[k + 1]))
}

/// The sum of the weights of `edges`.
pub open spec fn edges_weight(g: Seq<Vec<u64>>, edges: Seq<(usize, usize)>) -> int
    decreases edges.len(),
{
    if edges.len() == 0 {
        0
    } else {
        edges_weight(g, edges.drop_last()) + weight(g, edges.last().0 as int, edges.last().1 as int)
    }
}

/// One ant's walk through the graph in one round of the search.
///
/// The caller drives the walk: it starts the ant, and until the ant is
/// finished it either moves it to one of its candidates, reports a round of
/// draws in which no candidate was accepted, or reports that no move has any
/// weight. An ant that gives up is stuck: its walk counts for nothing.
pub struct Ant {
    path: Vec<usize>,
    total_way: u64,
    cant_find_way: bool,
    visited: Vec<bool>,
    failed_rounds: usize,
}

impl Ant {
    /// The nodes walked so far, the start first.
    pub closed spec fn path_seq(&self) -> Seq<usize> {
        self.path@
    }

    /// The sum of the weights walked so far.
    pub closed spec fn length(&self) -> u64 {
        self.total_way
    }

    /// Whether the ant has given up.
    pub closed spec fn stuck(&self) -> bool {
        self.cant_find_way
    }

    /// Rounds of draws without an accepted move since the last move.
    pub closed spec fn rounds(&self) -> nat {
        self.failed_rounds as nat
    }

    /// Whether node `v` was marked as passed.
    pub closed spec fn marked(&self, v: int) -> bool {
        0 <= v < self.visited@.len() && self.visited@[v]
    }

    /// The ant is on a walk over `g` and its records agree with it.
    pub closed spec fn wf(&self, g: Seq<Vec<u64>>) -> bool {
        let p = self.path@;
        &&& is_ant_walk(g, p)
        &&& self.total_way as int == path_length(g, p)
        &&& self.visited@.len() == g.len()
        &&& forall|v: int| 0 <= v < g.len() ==> (#[trigger] self.visited@[v] <==> p.contains(v as usize))
        &&& p.len() <= step_limit(g.len() as int) + 1
        &&& self.failed_rounds < MAX_SELECTION_ROUNDS
    }

    /// The ant's walk, length, flag and marks, as `wf` relates them to `g`.
    pub proof fn lemma_wf(&self, g: Seq<Vec<u64>>)
        requires
            self.wf(g),
        ensures
            is_ant_walk(g, self.path_seq()),
            self.length() as int == path_length(g, self.path_seq()),
            self.path_seq().len() <= step_limit(g.len() as int) + 1,
            self.rounds() < MAX_SELECTION_ROUNDS,
            forall|v: int| #[trigger] self.marked(v) <==> 0 <= v < g.len() && self.path_seq().contains(v as usize),
    {
        assert forall|v: int| #[trigger] self.marked(v) <==> 0 <= v < g.len() && self.path_seq().contains(v as usize) by {
            if self.path_seq().contains(v as usize) && 0 <= v < g.len() {
                assert(self.visited@[v]);
            }
        }
    }

    /// How many more calls of `advance` and `reject_round` the walk can take
    /// before its step limit and its rounds without a move run out: each
    /// such call lowers it, or leaves the ant stuck, and so finished.
    pub open spec fn calls_left(&self, n: int) -> int {
        if self.stuck() {
            0
        } else {
            (step_limit(n) + 1 - self.path_seq().len()) * MAX_SELECTION_ROUNDS + (MAX_SELECTION_ROUNDS
                - self.rounds())
        }
    }

    /// An ant on a walk has a bounded, non-negative number of calls left, and
    /// one with none left has given up: so driving an ant until it is finished
    /// ends.
    pub proof fn lemma_calls_left_bounded(&self, g: Seq<Vec<u64>>)
        requires
            self.wf(g),
        ensures
            0 <= self.calls_left(g.len() as int) <= (step_limit(g.len() as int) + 1) * MAX_SELECTION_ROUNDS,
            !self.stuck() ==> self.calls_left(g.len() as int) > 0,
    {
        self.lemma_wf(g);
    }

    /// An ant with no walk.
    pub fn new() -> (r: Ant)
        ensures
            r.path_seq().len() == 0,
            r.length() == 0,
            !r.stuck(),
    {
        Ant { path: Vec::new(), total_way: 0, cant_find_way: false, visited: Vec::new(), failed_rounds: 0 }
    }

    /// Puts the ant on `start`, with nothing walked and nothing given up.
    pub fn start(&mut self, start: usize, weights: &Vec<Vec<u64>>)
        requires
            start < weights@.len(),
            is_square(weights@),
        ensures
            final(self).wf(weights@),
            final(self).path_seq() == seq![start],
            final(self).length() == 0,
            !final(self).stuck(),
            final(self).rounds() == 0,
    {
        let n = weights.len();
        self.path.clear();
        self.path.push(start);
        self.visited = vec![false; n];
        self.visited.set(start, true);
        self.total_way = 0;
        self.cant_find_way = false;
        self.failed_rounds = 0;
        proof {
            let p = self.path@;
            assert(p == seq![start]);
            assert forall|v: int| 0 <= v < n implies (#[trigger] self.visited@[v] <==> p.contains(v as usize)) by {
                if v == start {
                    assert(p[0] == start);
                }
            }
        }
    }

    /// Moves the ant to `next`, one of its candidates. An ant that would pass
    /// its step limit, or whose length would not fit in a `u64`, gives up
    /// instead and stays where it is.
    pub fn advance(&mut self, next: usize, weights: &Vec<Vec<u64>>)
        requires
            old(self).wf(weights@),
            !old(self).stuck(),
            is_square(weights@),
            is_candidate(weights@, old(self).path_seq(), next as int),
        ensures
            final(self).wf(weights@),
            final(self).stuck() || final(self).calls_left(weights@.len() as int) < old(self).calls_left(
                weights@.len() as int,
            ),
            ({
                let p = old(self).path_seq();
                let w = weight(weights@, p.last() as int, next as int);
                if old(self).length() + w <= u64::MAX && p.len() <= step_limit(weights@.len() as int) {
                    &&& final(self).path_seq() == p.push(next)
                    &&& final(self).length() == old(self).length() + w
                    &&& !final(self).stuck()
                    &&& final(self).rounds() == 0
                } else {
                    &&& final(self).path_seq() == p
                    &&& final(self).length() == old(self).length()
                    &&& final(self).stuck()
                }
            }),
    {
        let ghost g = weights@;
        let ghost p = self.path@;
        let n = weights.len();
        let current = self.path[self.path.len() - 1];
        let w = weights[current][next];
        let limit: usize = if n <= usize::MAX / STEPS_PER_NODE {
            n * STEPS_PER_NODE
        } else {
            usize::MAX
        };
        if self.path.len() > limit {
            self.cant_find_way = true;
            return;
        }
        match self.total_way.checked_add(w) {
            None => {
                self.cant_find_way = true;
            },
            Some(total) => {
                self.path.push(next);
                self.visited.set(next, true);
                self.total_way = total;
                self.failed_rounds = 0;
                proof {
                    let q = self.path@;
                    assert(q == p.push(next));
                    assert(q.drop_last() == p);
                    assert forall|k: int| 0 <= k < q.len() implies #[trigger] q[k] < g.len() by {
                        if k < p.len() {
                            assert(q[k] == p[k]);
                        }
                    }
                    assert forall|k: int| 0 <= k < q.len() - 1 implies weight(g, #[trigger] q[k] as int, q[k + 1] as int) != 0 by {
                        if k < p.len() - 1 {
                            assert(q[k] == p[k] && q[k + 1] == p[k + 1]);
                        }
                    }
                    assert forall|k: int| 0 <= k < q.len() - 2 implies #[trigger] q[k] != q[k + 2] by {
                        if k < p.len() - 2 {
                            assert(q[k] == p[k] && q[k + 2] == p[k + 2]);
                        }
                    }
                    assert forall|v: int| 0 <= v < n implies (#[trigger] self.visited@[v] <==> q.contains(v as usize)) by {
                        if q.contains(v as usize) && v != next {
                            let k = choose|k: int| 0 <= k < q.len() && q[k] == v as usize;
                            assert(p[k] == v as usize);
                        }
                        if v == next {
                            assert(q[q.len() - 1] == next);
                        } else if p.contains(v as usize) {
                            let k = choose|k: int| 0 <= k < p.len() && p[k] == v as usize;
                            assert(q[k] == v as usize);
                        }
                    }
                }
            },
        }
    }

    /// Records a round of draws in which no candidate was accepted; after
    /// `MAX_SELECTION_ROUNDS` such rounds in a row the ant gives up.
    pub fn reject_round(&mut self)
        ensures
            final(self).path_seq() == old(self).path_seq(),
            final(self).length() == old(self).length(),
            final(self).stuck() == (old(self).stuck() || old(self).rounds() + 1 >= MAX_SELECTION_ROUNDS),
            old(self).rounds() + 1 < MAX_SELECTION_ROUNDS ==> final(self).rounds() == old(self).rounds() + 1,
            forall|g: Seq<Vec<u64>>| old(self).wf(g) ==> final(self).wf(g),
            forall|n: int| final(self).stuck() || final(self).calls_left(n) < old(self).calls_left(n),
    {
        if self.failed_rounds >= MAX_SELECTION_ROUNDS - 1 {
            self.cant_find_way = true;
        } else {
            self.failed_rounds = self.failed_rounds + 1;
        }
    }

    /// Records that no move from the ant's node has any weight: the ant gives up.
    pub fn block(&mut self)
        ensures
            final(self).path_seq() == old(self).path_seq(),
            final(self).length() == old(self).length(),
            final(self).stuck(),
            final(self).rounds() == old(self).rounds(),
            forall|g: Seq<Vec<u64>>| old(self).wf(g) ==> final(self).wf(g),
    {
        self.cant_find_way = true;
    }

    /// The ant has given up, or it is back at its start with every target
    /// marked as passed.
    pub open spec fn is_done(&self, targets: Seq<usize>) -> bool {
        ||| self.stuck()
        ||| {
            &&& self.path_seq().len() >= 1
            &&& self.path_seq().last() == self.path_seq()[0]
            &&& forall|i: int| 0 <= i < targets.len() ==> self.marked(#[trigger] targets[i] as int)
        }
    }

    /// Whether the ant needs no more moves.
    pub fn is_finished(&self, targets: &Vec<usize>) -> (r: bool)
        ensures
            r == self.is_done(targets@),
    {
        if self.cant_find_way {
            return true;
        }
        if self.path.len() == 0 || self.path[self.path.len() - 1] != self.path[0] {
            return false;
        }
        let mut i: usize = 0;
        while i < targets.len()
            invariant
                !self.stuck(),
                self.path_seq().len() >= 1,
                self.path_seq().last() == self.path_seq()[0],
                i <= targets@.len(),
                forall|k: int| 0 <= k < i ==> self.marked(#[trigger] targets@[k] as int),
            decreases targets@.len() - i,
        {
            let t = targets[i];
            if t >= self.visited.len() || !self.visited[t] {
                assert(!self.marked(targets@[i as int] as int));
                return false;
            }
            i += 1;
        }
        true
    }

    /// The nodes that may come next, in increasing order.
    pub fn candidates(&self, weights: &Vec<Vec<u64>>) -> (r: Vec<usize>)
        requires
            self.wf(weights@),
            is_square(weights@),
        ensures
            forall|k: int| 0 <= k < r@.len() ==> is_candidate(weights@, self.path_seq(), #[trigger] r@[k] as int),
            forall|j: int| is_candidate(weights@, self.path_seq(), j) ==> r@.contains(j as usize),
            forall|a: int, b: int| 0 <= a < b < r@.len() ==> r@[a] < r@[b],
    {
        let ghost g = weights@;
        let ghost p = self.path@;
        let n = weights.len();
        let len = self.path.len();
        let current = self.path[len - 1];
        let row = &weights[current];
        let mut r: Vec<usize> = Vec::new();
        let mut j: usize = 0;
        while j < n
            invariant
                j <= n,
                n == g.len(),
                p.len() == len,
                len >= 1,
                p == self.path@,
                current == p.last(),
                current < n,
                row@ == g[current as int]@,
                row@.len() == n,
                forall|k: int| 0 <= k < r@.len() ==> is_candidate(g, p, #[trigger] r@[k] as int),
                forall|k: int| 0 <= k < r@.len() ==> #[trigger] r@[k] < j,
                forall|x: int| 0 <= x < j && is_candidate(g, p, x) ==> r@.contains(x as usize),
                forall|a: int, b: int| 0 <= a < b < r@.len() ==> r@[a] < r@[b],
            decreases n - j,
        {
            if row[j] != 0 && (len < 2 || j != self.path[len - 2]) {
                let ghost before = r@;
                r.push(j);
                proof {
                    assert forall|x: int| 0 <= x < j + 1 && is_candidate(g, p, x) implies r@.contains(x as usize) by {
                        if x < j {
                            let k = choose|k: int| 0 <= k < before.len() && before[k] == x as usize;
                            assert(r@[k] == x as usize);
                        } else {
                            assert(r@[r@.len() - 1] == j);
                        }
                    }
                }
            } else {
                proof {
                    assert forall|x: int| 0 <= x < j + 1 && is_candidate(g, p, x) implies r@.contains(x as usize) by {
                        if x == j {
                            assert(!is_candidate(g, p, x));
                        }
                    }
                }
            }
            j += 1;
        }
        r
    }

    /// The ant's tour, if it has finished one without giving up.
    pub fn tour(&self, targets: &Vec<usize>) -> (r: Option<Tour>)
        ensures
            r is Some <==> !self.stuck() && self.is_done(targets@),
            r matches Some(t) ==> t.path@ == self.path_seq() && t.length == self.length(),
    {
        if !self.cant_find_way && self.is_finished(targets) {
            Some(Tour { path: self.path.clone(), length: self.total_way })
        } else {
            None
        }
    }

    /// The edges on which the ant leaves pheromone: those of its walk, or
    /// none when it gave up.
    pub fn pheromone_trail(&self) -> (r: Vec<(usize, usize)>)
        ensures
            r@ == (if self.stuck() {
                Seq::empty()
            } else {
                edges_of(self.path_seq())
            }),
    {
        let mut r: Vec<(usize, usize)> = Vec::new();
        if self.cant_find_way {
            return r;
        }
        if self.path.len() == 0 {
            proof {
                assert(edges_of(self.path@) =~= Seq::<(usize, usize)>::empty());
            }
            return r;
        }
        let len = self.path.len();
        let mut k: usize = 0;
        while k + 1 < len
            invariant
                len == self.path@.len(),
                k + 1 <= len,
                r@ =~= edges_of(self.path@).take(k as int),
            decreases self.path@.len() - k,
        {
            r.push((self.path[k], self.path[k + 1]));
            k += 1;
        }
        assert(r@ =~= edges_of(self.path@));
        r
    }

    /// Clears the walk and the flag, for the next round.
    pub fn reset(&mut self)
        ensures
            final(self).path_seq().len() == 0,
            final(self).length() == 0,
            !final(self).stuck(),
            final(self).rounds() == 0,
    {
        self.path.clear();
        self.total_way = 0;
        self.cant_find_way = false;
        self.failed_rounds = 0;
    }

    /// The nodes walked so far, the start first.
    pub fn path(&self) -> (r: &Vec<usize>)
        ensures
            r@ == self.path_seq(),
    {
        &self.path
    }

    /// The sum of the weights walked so far.
    pub fn total_way(&self) -> (r: u64)
        ensures
            r == self.length(),
    {
        self.total_way
    }

    /// Whether the ant has given up.
    pub fn is_stuck(&self) -> (r: bool)
        ensures
            r == self.stuck(),
    {
        self.cant_find_way
    }
}

/// The weights of the edges of a path add up to its length.
pub proof fn lemma_edges_weight(g: Seq<Vec<u64>>, p: Seq<usize>)
    ensures
        edges_weight(g, edges_of(p)) == path_length(g, p),
    decreases p.len(),
{
    if p.len() >= 2 {
        lemma_edges_weight(g, p.drop_last());
        assert(edges_of(p).drop_last() =~= edges_of(p.drop_last()));
        assert(edges_of(p).last() == (p[p.len() - 2], p.last()));
    } else {
        assert(edges_of(p).len() == 0);
    }
}

/// The trail that an ant that did not give up leaves pheromone on has the
/// ant's recorded length as the sum of its weights, so that each of its edges
/// gets the same share of the ant's capacity.
pub proof fn lemma_trail_weight(ant: Ant, g: Seq<Vec<u64>>)
    requires
        ant.wf(g),
        !ant.stuck(),
    ensures
        edges_weight(g, edges_of(ant.path_seq())) == ant.length() as int,
        edges_of(ant.path_seq()).len() == ant.path_seq().len() - 1,
        edges_of(ant.path_seq()).len() > 0 ==> ant.length() > 0,
{
    ant.lemma_wf(g);
    lemma_edges_weight(g, ant.path_seq());
    lemma_walk_length_positive(g, ant.path_seq());
}

/// A walk over edges (each of weight at least 1) of two or more nodes has a
/// positive length.
proof fn lemma_walk_length_positive(g: Seq<Vec<u64>>, p: Seq<usize>)
    requires
        is_ant_walk(g, p),
    ensures
        p.len() >= 2 ==> path_length(g, p) > 0,
        path_length(g, p) >= 0,
    decreases p.len(),
{
    if p.len() >= 2 {
        let q = p.drop_last();
        assert(weight(g, p[p.len() - 2] as int, p[p.len() - 1] as int) != 0);
        if q.len() >= 1 {
            assert forall|k: int| 0 <= k < q.len() - 1 implies weight(g, #[trigger] q[k] as int, q[k + 1] as int) != 0 by {
                assert(q[k] == p[k] && q[k + 1] == p[k + 1]);
            }
            assert forall|k: int| 0 <= k < q.len() - 2 implies #[trigger] q[k] != q[k + 2] by {
                assert(q[k] == p[k] && q[k + 2] == p[k + 2]);
            }
            lemma_walk_length_positive(g, q);
        }
    }
}

/// A finished ant has either given up or walked a closed tour from its start
/// through every target, over edges of the graph, never turning straight back.
pub proof fn lemma_finished_walk(ant: Ant, g: Seq<Vec<u64>>, targets: Seq<usize>)
    requires
        ant.wf(g),
        ant.is_done(targets),
    ensures
        ant.stuck() || is_closed_tour(ant.path_seq(), targets),
        is_ant_walk(g, ant.path_seq()),
        no_backtrack(ant.path_seq()),
{
    ant.lemma_wf(g);
    if !ant.stuck() {
        assert forall|i: int| 0 <= i < targets.len() implies ant.path_seq().contains(#[trigger] targets[i]) by {
            assert(ant.marked(targets[i] as int));
        }
    }
}

/// Where some target cannot be reached from the start, no ant finishes a
/// tour: it can only end by giving up.
pub proof fn lemma_unreachable_target(ant: Ant, g: Seq<Vec<u64>>, targets: Seq<usize>, i: int)
    requires
        ant.wf(g),
        0 <= i < targets.len(),
        !reachable(g, ant.path_seq()[0] as int, targets[i] as int),
    ensures
        ant.is_done(targets) ==> ant.stuck(),
{
    ant.lemma_wf(g);
    let p = ant.path_seq();
    if ant.is_done(targets) && !ant.stuck() {
        assert(ant.marked(targets[i] as int));
        let k = choose|k: int| 0 <= k < p.len() && p[k] == targets[i];
        let w = Seq::new((k + 1) as nat, |m: int| p[m] as int);
        assert forall|m: int| 0 <= m < w.len() - 1 implies weight(g, #[trigger] w[m], w[m + 1]) != 0 by {
            assert(weight(g, p[m] as int, p[m + 1] as int) != 0);
        }
        assert(is_walk(g, w) && w[0] == p[0] as int && w.last() == targets[i] as int);
    }
}

} // verus!
