use crate::random::random_below;
use vstd::prelude::*;

verus! {

/// Weight of the edge with which the generator ties its last node back to node 0.
pub const CLOSING_WEIGHT: u64 = 10;

/// Steps per node that the generator's random walk may take before it visits
/// the nodes that it has missed in index order.
pub const WALK_STEPS_PER_NODE: usize = 64;

/// The weight between nodes `i` and `j`; `0` stands for "no edge".
pub open spec fn weight(g: Seq<Vec<u64>>, i: int, j: int) -> u64 {
    g[i]@[j]
}

/// Every row has one entry per node.
pub open spec fn is_square(g: Seq<Vec<u64>>) -> bool {
    forall|i: int| 0 <= i < g.len() ==> #[trigger] g[i]@.len() == g.len()
}

/// The weight of `i` to `j` is the weight of `j` to `i`.
pub open spec fn is_symmetric(g: Seq<Vec<u64>>) -> bool {
    forall|i: int, j: int|
        0 <= i < g.len() && 0 <= j < g.len() ==> #[trigger] weight(g, i, j) == weight(g, j, i)
}

/// `w` is a non-empty sequence of nodes in which each two consecutive nodes
/// are joined by an edge.
pub open spec fn is_walk(g: Seq<Vec<u64>>, w: Seq<int>) -> bool {
    &&& w.len() >= 1
    &&& forall|k: int| 0 <= k < w.len() ==> 0 <= #[trigger] w[k] < g.len()
    &&& forall|k: int| 0 <= k < w.len() - 1 ==> weight(g, #[trigger] w[k], w[k + 1]) != 0
}

/// Some walk leads from `u` to `v`.
pub open spec fn reachable(g: Seq<Vec<u64>>, u: int, v: int) -> bool {
    exists|w: Seq<int>| is_walk(g, w) && w[0] == u && #[trigger] w.last() == v
}

/// Every node can be reached from node 0.
pub open spec fn reachable_from_zero(g: Seq<Vec<u64>>) -> bool {
    forall|v: int| 0 <= v < g.len() ==> #[trigger] reachable(g, 0, v)
}

/// Sets the entry of row `i`, column `j`.
fn set_entry(m: &mut Vec<Vec<u64>>, i: usize, j: usize, value: u64)
    requires
        i < old(m).len(),
        j < old(m)@[i as int]@.len(),
    ensures
        final(m)@.len() == old(m)@.len(),
        forall|k: int| 0 <= k < old(m)@.len() && k != i ==> final(m)@[k] == old(m)@[k],
        final(m)@[i as int]@ == old(m)@[i as int]@.update(j as int, value),
{
    m[i].set(j, value);
}

/// The shape of a generated graph: `n` nodes, symmetric, no loops, and each
/// weight either `0`, in `[1, max_weight]`, or the closing weight.
pub open spec fn is_generated(g: Seq<Vec<u64>>, n: int, max_weight: u64) -> bool {
    &&& g.len() == n
    &&& is_square(g)
    &&& is_symmetric(g)
    &&& forall|i: int| 0 <= i < n ==> #[trigger] weight(g, i, i) == 0
    &&& forall|i: int, j: int|
        0 <= i < n && 0 <= j < n ==> {
            let x = #[trigger] weight(g, i, j);
            x == 0 || (1 <= x <= max_weight) || x == CLOSING_WEIGHT
        }
}

/// A node other than `current`, each of the others alike likely.
fn random_other(current: usize, n: usize) -> (r: usize)
    requires
        current < n,
        n >= 2,
    ensures
        r < n,
        r != current,
{
    let k = random_below((n - 1) as u64) as usize;
    if k >= current {
        k + 1
    } else {
        k
    }
}

/// The nearest integer to a uniform draw from `[1, max_weight)`: a draw `k`
/// picks one of the `2 * (max_weight - 1)` half-unit intervals of that range,
/// and the points of interval `k` round to `1 + (k + 1) / 2`.
fn random_weight(max_weight: u64) -> (r: u64)
    requires
        2 <= max_weight <= u64::MAX / 2,
    ensures
        1 <= r <= max_weight,
{
    let k = random_below(2 * (max_weight - 1));
    1 + (k + 1) / 2
}

/// An `n` by `n` matrix of zeros: `n` nodes and no edge.
fn empty_graph(n: usize) -> (g: Vec<Vec<u64>>)
    ensures
        g@.len() == n,
        is_square(g@),
        forall|i: int, j: int| 0 <= i < n && 0 <= j < n ==> #[trigger] weight(g@, i, j) == 0,
{
    let mut g: Vec<Vec<u64>> = Vec::new();
    let mut i: usize = 0;
    while i < n
        invariant
            i <= n,
            g@.len() == i,
            forall|k: int| 0 <= k < i ==> #[trigger] g@[k]@ == Seq::new(n as nat, |j: int| 0u64),
        decreases n - i,
    {
        g.push(vec![0u64; n]);
        i += 1;
    }
    g
}

/// Joins `a` and `b` by an edge of weight `value`, in both directions.
fn set_edge(m: &mut Vec<Vec<u64>>, a: usize, b: usize, value: u64)
    requires
        is_square(old(m)@),
        a < old(m)@.len(),
        b < old(m)@.len(),
    ensures
        final(m)@.len() == old(m)@.len(),
        is_square(final(m)@),
        forall|i: int, j: int|
            0 <= i < old(m)@.len() && 0 <= j < old(m)@.len() ==> #[trigger] weight(final(m)@, i, j) == if (i
                == a && j == b) || (i == b && j == a) {
                value
            } else {
                weight(old(m)@, i, j)
            },
{
    let ghost g0 = m@;
    set_entry(m, a, b, value);
    set_entry(m, b, a, value);
    let ghost g = m@;
    assert(is_square(g)) by {
        assert forall|i: int| 0 <= i < g.len() implies #[trigger] g[i]@.len() == g.len() by {
            assert(g0[i]@.len() == g.len());
        }
    }
}

/// One edge setting: join `step.0` and `step.1` by weight `step.2`. A setting
/// from a node to itself joins nothing.
pub open spec fn joins(step: (usize, usize, u64), i: int, j: int) -> bool {
    step.0 != step.1 && ((step.0 == i && step.1 == j) || (step.0 == j && step.1 == i))
}

/// The weight between `i` and `j` after the settings `steps` in order: that
/// of the last one that joins them, or `0` where none does.
pub open spec fn edge_weight(steps: Seq<(usize, usize, u64)>, i: int, j: int) -> u64
    decreases steps.len(),
{
    if steps.len() == 0 {
        0
    } else if joins(steps.last(), i, j) {
        steps.last().2
    } else {
        edge_weight(steps.drop_last(), i, j)
    }
}

/// The `k`-th step of `walk`, with weight `weights[k]`.
pub open spec fn walk_step(walk: Seq<usize>, weights: Seq<u64>, k: int) -> (usize, usize, u64) {
    (walk[k], walk[k + 1], weights[k])
}

/// The generator's edge settings for `walk`, whose `k`-th step has weight
/// `weights[k]`: the steps up to node `closing_at`, an edge of
/// `CLOSING_WEIGHT` from that node to node 0, the remaining steps, and an
/// edge of `CLOSING_WEIGHT` from the walk's last node to node 0.
pub open spec fn generator_steps(walk: Seq<usize>, weights: Seq<u64>, closing_at: int) -> Seq<
    (usize, usize, u64),
> {
    Seq::new(closing_at as nat, |k: int| walk_step(walk, weights, k)) + seq![
        (walk[closing_at], 0usize, CLOSING_WEIGHT),
    ] + Seq::new((walk.len() - 1 - closing_at) as nat, |k: int| walk_step(walk, weights, closing_at + k))
        + seq![(walk.last(), 0usize, CLOSING_WEIGHT)]
}

/// The graph of `n` nodes that the settings `steps` make from no edges.
pub fn apply_steps(n: usize, steps: &Vec<(usize, usize, u64)>) -> (g: Vec<Vec<u64>>)
    requires
        forall|k: int| 0 <= k < steps@.len() ==> (#[trigger] steps@[k]).0 < n && steps@[k].1 < n,
    ensures
        g@.len() == n,
        is_square(g@),
        forall|i: int, j: int| 0 <= i < n && 0 <= j < n ==> #[trigger] weight(g@, i, j) == edge_weight(steps@, i, j),
{
    let mut g = empty_graph(n);
    let mut k: usize = 0;
    while k < steps.len()
        invariant
            k <= steps@.len(),
            g@.len() == n,
            is_square(g@),
            forall|x: int| 0 <= x < steps@.len() ==> (#[trigger] steps@[x]).0 < n && steps@[x].1 < n,
            forall|i: int, j: int|
                0 <= i < n && 0 <= j < n ==> #[trigger] weight(g@, i, j) == edge_weight(steps@.take(k as int), i, j),
        decreases steps@.len() - k,
    {
        let (a, b, w) = steps[k];
        if a != b {
            set_edge(&mut g, a, b, w);
        }
        proof {
            let t = steps@.take(k as int + 1);
            assert(t.drop_last() =~= steps@.take(k as int));
            assert(t.last() == steps@[k as int]);
        }
        k += 1;
    }
    assert(steps@.take(k as int) =~= steps@);
    g
}

/// The graph that the generator makes from its walk: see `generator_steps`.
pub fn build_graph(n: usize, walk: &Vec<usize>, weights: &Vec<u64>, closing_at: usize) -> (g: Vec<
    Vec<u64>,
>)
    requires
        walk@.len() >= 1,
        weights@.len() == walk@.len() - 1,
        closing_at < walk@.len(),
        forall|k: int| 0 <= k < walk@.len() ==> #[trigger] walk@[k] < n,
    ensures
        g@.len() == n,
        is_square(g@),
        forall|i: int, j: int|
            0 <= i < n && 0 <= j < n ==> #[trigger] weight(g@, i, j) == edge_weight(
                generator_steps(walk@, weights@, closing_at as int),
                i,
                j,
            ),
{
    let ghost spec_steps = generator_steps(walk@, weights@, closing_at as int);
    let ghost first = Seq::new(closing_at as nat, |k: int| walk_step(walk@, weights@, k));
    let mut steps: Vec<(usize, usize, u64)> = Vec::new();
    let mut k: usize = 0;
    while k < closing_at
        invariant
            k <= closing_at < walk@.len(),
            weights@.len() == walk@.len() - 1,
            first.len() == closing_at,
            forall|x: int| 0 <= x < closing_at ==> #[trigger] first[x] == walk_step(walk@, weights@, x),
            steps@ =~= first.take(k as int),
        decreases closing_at - k,
    {
        steps.push((walk[k], walk[k + 1], weights[k]));
        assert(first.take(k as int + 1) =~= first.take(k as int).push(first[k as int]));
        k += 1;
    }
    steps.push((walk[closing_at], 0, CLOSING_WEIGHT));
    let ghost mid = first + seq![(walk@[closing_at as int], 0usize, CLOSING_WEIGHT)];
    let ghost rest = Seq::new(
        (walk@.len() - 1 - closing_at) as nat,
        |x: int| walk_step(walk@, weights@, closing_at + x),
    );
    assert(steps@ =~= mid);
    let last = walk.len() - 1;
    let mut k: usize = closing_at;
    while k < last
        invariant
            closing_at <= k <= last,
            last == walk@.len() - 1,
            weights@.len() == walk@.len() - 1,
            rest.len() == last - closing_at,
            forall|x: int| 0 <= x < rest.len() ==> #[trigger] rest[x] == walk_step(walk@, weights@, closing_at + x),
            steps@ =~= mid + rest.take(k - closing_at),
        decreases last - k,
    {
        steps.push((walk[k], walk[k + 1], weights[k]));
        assert(rest.take(k - closing_at + 1) =~= rest.take(k - closing_at).push(rest[k - closing_at]));
        k += 1;
    }
    steps.push((walk[last], 0, CLOSING_WEIGHT));
    assert(rest.take(k - closing_at) =~= rest);
    assert(steps@ =~= spec_steps);
    assert forall|x: int| 0 <= x < steps@.len() implies (#[trigger] steps@[x]).0 < n && steps@[x].1 < n by {
        let f = first.len() as int;
        if x < f {
            assert(steps@[x] == walk_step(walk@, weights@, x));
        } else if x == f {
        } else if x < f + 1 + rest.len() {
            assert(steps@[x] == walk_step(walk@, weights@, closing_at + (x - f - 1)));
        }
    }
    apply_steps(n, &steps)
}

/// What the settings `steps`, each of weight in `[1, max_weight]` or the
/// closing weight, make of the edge between `i` and `j`: the same as between
/// `j` and `i`, none from a node to itself, a weight in range, and an edge
/// wherever some setting joins them.
pub proof fn lemma_edge_weight(steps: Seq<(usize, usize, u64)>, max_weight: u64, i: int, j: int)
    requires
        forall|k: int|
            0 <= k < steps.len() ==> {
                let w = (#[trigger] steps[k]).2;
                (1 <= w <= max_weight) || w == CLOSING_WEIGHT
            },
    ensures
        edge_weight(steps, i, j) == edge_weight(steps, j, i),
        edge_weight(steps, i, i) == 0,
        ({
            let x = edge_weight(steps, i, j);
            x == 0 || (1 <= x <= max_weight) || x == CLOSING_WEIGHT
        }),
        (exists|k: int| 0 <= k < steps.len() && joins(#[trigger] steps[k], i, j)) ==> edge_weight(steps, i, j)
            != 0,
    decreases steps.len(),
{
    if steps.len() > 0 {
        let q = steps.drop_last();
        assert forall|k: int| 0 <= k < q.len() implies #[trigger] q[k] == steps[k] by {}
        lemma_edge_weight(q, max_weight, i, j);
        assert(steps.last() == steps[steps.len() - 1]);
        if exists|k: int| 0 <= k < steps.len() && joins(#[trigger] steps[k], i, j) {
            let k = choose|k: int| 0 <= k < steps.len() && joins(#[trigger] steps[k], i, j);
            if k < q.len() {
                assert(joins(q[k], i, j));
            }
        }
    }
}

/// The edges that the generator's walk takes are edges of the graph it builds.
proof fn lemma_walk_edges_set(walk: Seq<usize>, weights: Seq<u64>, closing_at: int, max_weight: u64, m: int)
    requires
        walk.len() >= 1,
        weights.len() == walk.len() - 1,
        0 <= closing_at < walk.len(),
        0 <= m < walk.len() - 1,
        walk[m] != walk[m + 1],
        forall|k: int| 0 <= k < weights.len() ==> 1 <= #[trigger] weights[k] <= max_weight,
    ensures
        edge_weight(generator_steps(walk, weights, closing_at), walk[m] as int, walk[m + 1] as int) != 0,
{
    let s = generator_steps(walk, weights, closing_at);
    assert forall|k: int| 0 <= k < s.len() implies {
        let w = (#[trigger] s[k]).2;
        (1 <= w <= max_weight) || w == CLOSING_WEIGHT
    } by {
        if k < closing_at {
            assert(s[k] == walk_step(walk, weights, k));
        } else if k == closing_at {
        } else if k < s.len() - 1 {
            assert(s[k] == walk_step(walk, weights, closing_at + (k - closing_at - 1)));
        }
    }
    let idx = if m < closing_at { m } else { m + 1 };
    assert(s[idx] == walk_step(walk, weights, m));
    assert(joins(s[idx], walk[m] as int, walk[m + 1] as int));
    lemma_edge_weight(s, max_weight, walk[m] as int, walk[m + 1] as int);
}

/// A random connected graph of `n` nodes.
///
/// A random walk from node 0 goes to a random other node at each step, until
/// it has left every node; should it take more than `WALK_STEPS_PER_NODE`
/// steps per node, it goes on through the nodes that it has missed, in index
/// order. It then takes `additional_edges` more random steps. Each step has a
/// random weight in `[1, max_weight]`; `build_graph` makes the graph.
pub fn gen_graph(n: usize, additional_edges: usize, max_weight: u64) -> (g: Vec<Vec<u64>>)
    requires
        n >= 2,
        2 <= max_weight <= u64::MAX / 2,
    ensures
        is_generated(g@, n as int, max_weight),
        reachable_from_zero(g@),
{
    let mut walk: Vec<usize> = vec![0];
    let mut weights: Vec<u64> = Vec::new();
    let mut used: Vec<bool> = vec![false; n];
    let mut used_count: usize = 0;
    let mut current: usize = 0;
    let budget: usize = if n <= usize::MAX / WALK_STEPS_PER_NODE {
        n * WALK_STEPS_PER_NODE
    } else {
        usize::MAX
    };
    let mut steps: usize = 0;
    while used_count < n && steps < budget
        invariant
            n >= 2,
            2 <= max_weight <= u64::MAX / 2,
            used@.len() == n,
            walk_invariant(walk@, weights@, n as int, max_weight),
            current == walk@.last(),
            forall|v: int| 0 <= v < n && #[trigger] used@[v] ==> walk@.contains(v as usize),
        decreases budget - steps,
    {
        let next = random_other(current, n);
        let w = random_weight(max_weight);
        assert(walk@.contains(current)) by {
            assert(walk@[walk@.len() - 1] == current);
        }
        walk_push(&mut walk, &mut weights, next, w, Ghost(n as int), Ghost(max_weight));
        if !used[current] {
            used.set(current, true);
            used_count += 1;
        }
        current = next;
        steps += 1;
    }
    // Past the budget: go on through the nodes that the walk has not left.
    let mut v: usize = 0;
    while v < n
        invariant
            n >= 2,
            2 <= max_weight <= u64::MAX / 2,
            used@.len() == n,
            v <= n,
            walk_invariant(walk@, weights@, n as int, max_weight),
            current == walk@.last(),
            forall|u: int| 0 <= u < n && #[trigger] used@[u] ==> walk@.contains(u as usize),
            forall|u: usize| u < v ==> #[trigger] walk@.contains(u),
        decreases n - v,
    {
        if !used[v] && v != current {
            let w = random_weight(max_weight);
            assert(walk@.contains(current)) by {
                assert(walk@[walk@.len() - 1] == current);
            }
            walk_push(&mut walk, &mut weights, v, w, Ghost(n as int), Ghost(max_weight));
            used.set(current, true);
            current = v;
        }
        assert(walk@.contains(v as usize)) by {
            if v == current {
                assert(walk@[walk@.len() - 1] == v);
            }
        }
        v += 1;
    }
    let closing_at = walk.len() - 1;
    let mut added: usize = 0;
    while added < additional_edges
        invariant
            n >= 2,
            2 <= max_weight <= u64::MAX / 2,
            walk_invariant(walk@, weights@, n as int, max_weight),
            current == walk@.last(),
            closing_at < walk@.len(),
            forall|u: usize| u < n ==> #[trigger] walk@.contains(u),
        decreases additional_edges - added,
    {
        let next = random_other(current, n);
        let w = random_weight(max_weight);
        walk_push(&mut walk, &mut weights, next, w, Ghost(n as int), Ghost(max_weight));
        current = next;
        added += 1;
    }
    let g = build_graph(n, &walk, &weights, closing_at);
    proof {
        let s = generator_steps(walk@, weights@, closing_at as int);
        assert forall|k: int| 0 <= k < s.len() implies {
            let w = (#[trigger] s[k]).2;
            (1 <= w <= max_weight) || w == CLOSING_WEIGHT
        } by {
            if k < closing_at {
                assert(s[k] == walk_step(walk@, weights@, k));
            } else if k == closing_at {
            } else if k < s.len() - 1 {
                assert(s[k] == walk_step(walk@, weights@, closing_at + (k - closing_at - 1)));
            }
        }
        assert forall|i: int, j: int| 0 <= i < n && 0 <= j < n implies #[trigger] weight(g@, i, j) == weight(g@, j, i) by {
            lemma_edge_weight(s, max_weight, i, j);
        }
        assert forall|i: int| 0 <= i < n implies #[trigger] weight(g@, i, i) == 0 by {
            lemma_edge_weight(s, max_weight, i, i);
        }
        assert forall|i: int, j: int| 0 <= i < n && 0 <= j < n implies {
            let x = #[trigger] weight(g@, i, j);
            x == 0 || (1 <= x <= max_weight) || x == CLOSING_WEIGHT
        } by {
            lemma_edge_weight(s, max_weight, i, j);
        }
        assert forall|u: int| 0 <= u < n implies #[trigger] reachable(g@, 0, u) by {
            assert(walk@.contains(u as usize));
            let k = choose|k: int| 0 <= k < walk@.len() && walk@[k] == u as usize;
            let w = Seq::new((k + 1) as nat, |m: int| walk@[m] as int);
            assert forall|m: int| 0 <= m < w.len() - 1 implies weight(g@, #[trigger] w[m], w[m + 1]) != 0 by {
                lemma_walk_edges_set(walk@, weights@, closing_at as int, max_weight, m);
            }
            assert(is_walk(g@, w) && w[0] == 0 && w.last() == u);
        }
    }
    g
}

/// The generator's walk so far: it starts at node 0, stays among the `n`
/// nodes, never stays put, and each of its steps has a weight in range.
pub open spec fn walk_invariant(walk: Seq<usize>, weights: Seq<u64>, n: int, max_weight: u64) -> bool {
    &&& walk.len() >= 1
    &&& walk[0] == 0
    &&& weights.len() == walk.len() - 1
    &&& forall|k: int| 0 <= k < walk.len() ==> #[trigger] walk[k] < n
    &&& forall|k: int| 0 <= k < walk.len() - 1 ==> #[trigger] walk[k] != walk[k + 1]
    &&& forall|k: int| 0 <= k < weights.len() ==> 1 <= #[trigger] weights[k] <= max_weight
}

/// Adds a step to `next`, of weight `w`, to the generator's walk.
fn walk_push(
    walk: &mut Vec<usize>,
    weights: &mut Vec<u64>,
    next: usize,
    w: u64,
    Ghost(n): Ghost<int>,
    Ghost(max_weight): Ghost<u64>,
)
    requires
        walk_invariant(old(walk)@, old(weights)@, n, max_weight),
        next < n,
        next != old(walk)@.last(),
        1 <= w <= max_weight,
    ensures
        walk_invariant(final(walk)@, final(weights)@, n, max_weight),
        final(walk)@ == old(walk)@.push(next),
        final(weights)@ == old(weights)@.push(w),
        forall|u: usize| #[trigger] final(walk)@.contains(u) <==> old(walk)@.contains(u) || u == next,
{
    let ghost p = walk@;
    walk.push(next);
    weights.push(w);
    proof {
        let q = walk@;
        assert forall|k: int| 0 <= k < q.len() - 1 implies #[trigger] q[k] != q[k + 1] by {
            if k < p.len() - 1 {
                assert(q[k] == p[k] && q[k + 1] == p[k + 1]);
            }
        }
        assert forall|k: int| 0 <= k < q.len() implies #[trigger] q[k] < n by {
            if k < p.len() {
                assert(q[k] == p[k]);
            }
        }
        assert forall|u: usize| #[trigger] q.contains(u) <==> p.contains(u) || u == next by {
            if p.contains(u) {
                let k = choose|k: int| 0 <= k < p.len() && p[k] == u;
                assert(q[k] == u);
            }
            if u == next {
                assert(q[q.len() - 1] == u);
            }
            if q.contains(u) && u != next {
                let k = choose|k: int| 0 <= k < q.len() && q[k] == u;
                assert(p[k] == u);
            }
        }
    }
}

/// In a symmetric graph whose nodes can all be reached from node 0, any node
/// can be reached from any other: the walk back to node 0 followed by the walk
/// out of it.
pub proof fn lemma_every_pair_reachable(g: Seq<Vec<u64>>, u: int, v: int)
    requires
        is_symmetric(g),
        reachable_from_zero(g),
        0 <= u < g.len(),
        0 <= v < g.len(),
    ensures
        reachable(g, u, v),
{
    assert(reachable(g, 0, u));
    assert(reachable(g, 0, v));
    let wu = choose|w: Seq<int>| is_walk(g, w) && w[0] == 0 && #[trigger] w.last() == u;
    let wv = choose|w: Seq<int>| is_walk(g, w) && w[0] == 0 && #[trigger] w.last() == v;
    let back = Seq::new(wu.len(), |k: int| wu[wu.len() - 1 - k]);
    let out = wv.subrange(1, wv.len() as int);
    let x = back + out;
    assert forall|k: int| 0 <= k < x.len() implies 0 <= #[trigger] x[k] < g.len() by {
        if k < back.len() {
            assert(x[k] == wu[wu.len() - 1 - k]);
        } else {
            assert(x[k] == wv[k - back.len() + 1]);
        }
    }
    assert forall|k: int| 0 <= k < x.len() - 1 implies weight(g, #[trigger] x[k], x[k + 1]) != 0 by {
        if k < back.len() - 1 {
            let a = wu.len() - 2 - k;
            assert(x[k] == wu[a + 1] && x[k + 1] == wu[a]);
            assert(weight(g, wu[a], wu[a + 1]) != 0);
        } else if k == back.len() - 1 {
            assert(x[k] == wv[0] && x[k + 1] == wv[1]);
        } else {
            let a = k - back.len() + 1;
            assert(x[k] == wv[a] && x[k + 1] == wv[a + 1]);
        }
    }
    assert(x[0] == u);
    assert(x.last() == v) by {
        if wv.len() == 1 {
            assert(x.last() == wu[0]);
        } else {
            assert(x.last() == wv.last());
        }
    }
    assert(is_walk(g, x));
}

/// Why a search cannot begin on the inputs given.
#[derive(Debug, Clone, Copy, PartialEq, Eq, Structural)]
pub enum InputError {
    /// Some row of the weight matrix does not have one entry per node.
    NotSquare,
    /// No target was given.
    NoTargets,
    /// The start is not a node of the graph.
    StartOutOfRange,
    /// Some target is not a node of the graph.
    TargetOutOfRange,
}

/// Every target is a node of a graph of `n` nodes.
pub open spec fn targets_in_range(targets: Seq<usize>, n: int) -> bool {
    forall|i: int| 0 <= i < targets.len() ==> #[trigger] targets[i] < n
}

/// The first check that the inputs of a search fail, if any.
pub open spec fn input_error(g: Seq<Vec<u64>>, start: usize, targets: Seq<usize>) -> Option<InputError> {
    if !is_square(g) {
        Some(InputError::NotSquare)
    } else if targets.len() == 0 {
        Some(InputError::NoTargets)
    } else if start >= g.len() {
        Some(InputError::StartOutOfRange)
    } else if !targets_in_range(targets, g.len() as int) {
        Some(InputError::TargetOutOfRange)
    } else {
        None
    }
}

/// Checks the inputs of a search before any round begins: a square weight
/// matrix, at least one target, and a start and targets that are nodes.
pub fn check_input(weights: &Vec<Vec<u64>>, start: usize, targets: &Vec<usize>) -> (r: Result<
    (),
    InputError,
>)
    ensures
        r == (match input_error(weights@, start, targets@) {
            Some(e) => Err(e),
            None => Ok(()),
        }),
{
    let n = weights.len();
    let mut i: usize = 0;
    while i < n
        invariant
            i <= n,
            n == weights@.len(),
            forall|k: int| 0 <= k < i ==> #[trigger] weights@[k]@.len() == n,
        decreases n - i,
    {
        if weights[i].len() != n {
            return Err(InputError::NotSquare);
        }
        i += 1;
    }
    if targets.len() == 0 {
        return Err(InputError::NoTargets);
    }
    if start >= n {
        return Err(InputError::StartOutOfRange);
    }
    let mut k: usize = 0;
    while k < targets.len()
        invariant
            k <= targets@.len(),
            n == weights@.len(),
            is_square(weights@),
            targets@.len() > 0,
            start < n,
            forall|j: int| 0 <= j < k ==> #[trigger] targets@[j] < n,
        decreases targets@.len() - k,
    {
        if targets[k] >= n {
            assert(!targets_in_range(targets@, n as int));
            return Err(InputError::TargetOutOfRange);
        }
        k += 1;
    }
    Ok(())
}

} // verus!
