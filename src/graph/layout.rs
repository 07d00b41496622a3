use vstd::prelude::*;
use std::collections::VecDeque;
use crate::graph::parser::{Graph, Node, node_names};
use crate::layout::{first_index, participant_index};

verus! {

/// Each edge as the indices of its two nodes in the graph's node list.
pub open spec fn edge_ends(g: &Graph) -> Seq<(int, int)> {
    g.edges@.map_values(
        |e: crate::graph::parser::Edge|
            (first_index(node_names(g.nodes@), e.from@), first_index(node_names(g.nodes@), e.to@)),
    )
}

/// Every edge joins two nodes of the graph.
pub open spec fn graph_wf(g: &Graph) -> bool {
    forall|j: int|
        0 <= j < g.edges@.len() ==> node_names(g.nodes@).contains((#[trigger] g.edges@[j]).from@)
            && node_names(g.nodes@).contains(g.edges@[j].to@)
}

/// Targets of the edges leaving node `u`, in edge order.
pub open spec fn targets_from(e: Seq<(int, int)>, u: int) -> Seq<int>
    decreases e.len(),
{
    if e.len() == 0 {
        Seq::empty()
    } else if e.last().0 == u {
        targets_from(e.drop_last(), u).push(e.last().1)
    } else {
        targets_from(e.drop_last(), u)
    }
}

/// Node `u`'s list in `adjacency` holds the targets of its edges, in edge order.
pub open spec fn is_adjacency(g: &Graph, adjacency: Seq<Vec<usize>>) -> bool {
    &&& adjacency.len() == g.nodes@.len()
    &&& forall|u: int|
        0 <= u < adjacency.len() ==> (#[trigger] adjacency[u])@.map_values(|x: usize| x as int)
            == targets_from(edge_ends(g), u)
}

/// The graph has no directed cycle: its nodes can be numbered so that every edge
/// leads to a higher number.
pub open spec fn acyclic(n: int, e: Seq<(int, int)>) -> bool {
    exists|f: Seq<int>| is_topological(f, n, e)
}

/// `f` numbers the nodes `0 .. n` so that every edge leads to a higher number.
pub open spec fn is_topological(f: Seq<int>, n: int, e: Seq<(int, int)>) -> bool {
    f.len() == n && forall|j: int| 0 <= j < e.len() ==> f[(#[trigger] e[j]).0] < f[e[j].1]
}

/// `v` is a source (no edge enters it) ranked 0, or some edge enters it from a
/// node ranked exactly one lower.
pub open spec fn layered(e: Seq<(int, int)>, ranks: Seq<Option<usize>>, v: int) -> bool {
    ||| (ranks[v] == Some(0usize) && forall|j: int| 0 <= j < e.len() ==> (#[trigger] e[j]).1 != v)
    ||| exists|j: int|
        0 <= j < e.len() && (#[trigger] e[j]).1 == v && ranks[e[j].0] is Some && ranks[e[j].0]->Some_0
            + 1 == ranks[v]->Some_0
}

/// `v` would be layered if it got rank `r`.
pub open spec fn enters_at(e: Seq<(int, int)>, ranks: Seq<Option<usize>>, v: int, r: int) -> bool {
    ||| (r == 0 && forall|j: int| 0 <= j < e.len() ==> (#[trigger] e[j]).1 != v)
    ||| exists|j: int|
        0 <= j < e.len() && (#[trigger] e[j]).1 == v && ranks[e[j].0] is Some && ranks[e[j].0]->Some_0
            + 1 == r
}

/// Edges into `v` whose source has no rank yet.
pub open spec fn live_in(e: Seq<(int, int)>, ranks: Seq<Option<usize>>, v: int) -> int
    decreases e.len(),
{
    if e.len() == 0 {
        0
    } else {
        live_in(e.drop_last(), ranks, v) + if e.last().1 == v && ranks[e.last().0] is None {
            1int
        } else {
            0int
        }
    }
}

/// Occurrences of `v` in `s`.
pub open spec fn occ(s: Seq<int>, v: int) -> int
    decreases s.len(),
{
    if s.len() == 0 {
        0
    } else {
        occ(s.drop_last(), v) + if s.last() == v { 1int } else { 0int }
    }
}

/// Nodes without a rank.
pub open spec fn unranked_count(ranks: Seq<Option<usize>>) -> int
    decreases ranks.len(),
{
    if ranks.len() == 0 {
        0
    } else {
        unranked_count(ranks.drop_last()) + if ranks.last() is None { 1int } else { 0int }
    }
}

/// Both ends of every edge are nodes `0 .. n`.
pub open spec fn ends_in_range(n: int, e: Seq<(int, int)>) -> bool {
    forall|j: int| 0 <= j < e.len() ==> 0 <= (#[trigger] e[j]).0 < n && 0 <= e[j].1 < n
}

proof fn lemma_live_in_bounds(e: Seq<(int, int)>, ranks: Seq<Option<usize>>, v: int)
    requires
        ends_in_range(ranks.len() as int, e),
    ensures
        0 <= live_in(e, ranks, v) <= e.len(),
        live_in(e, ranks, v) == 0 ==> forall|j: int|
            0 <= j < e.len() && (#[trigger] e[j]).1 == v ==> ranks[e[j].0] is Some,
        live_in(e, ranks, v) > 0 ==> exists|j: int|
            0 <= j < e.len() && (#[trigger] e[j]).1 == v && ranks[e[j].0] is None,
    decreases e.len(),
{
    if e.len() > 0 {
        let p = e.drop_last();
        assert forall|j: int| 0 <= j < p.len() implies p[j] == e[j] by {}
        lemma_live_in_bounds(p, ranks, v);
        if live_in(p, ranks, v) > 0 {
            let j = choose|j: int| 0 <= j < p.len() && (#[trigger] p[j]).1 == v && ranks[p[j].0] is None;
            assert(e[j] == p[j]);
        }
        if live_in(e, ranks, v) > 0 && live_in(p, ranks, v) == 0 {
            assert(e[e.len() - 1].1 == v);
        }
    }
}

proof fn lemma_live_in_rank(e: Seq<(int, int)>, ranks: Seq<Option<usize>>, u: int, r: usize, v: int)
    requires
        ends_in_range(ranks.len() as int, e),
        0 <= u < ranks.len(),
        ranks[u] is None,
    ensures
        live_in(e, ranks, v) == live_in(e, ranks.update(u, Some(r)), v) + occ(targets_from(e, u), v),
    decreases e.len(),
{
    if e.len() > 0 {
        let p = e.drop_last();
        assert forall|j: int| 0 <= j < p.len() implies p[j] == e[j] by {}
        lemma_live_in_rank(p, ranks, u, r, v);
        if e.last().0 == u {
            assert(targets_from(e, u).drop_last() =~= targets_from(p, u));
        }
    }
}

proof fn lemma_occ_prefix(s: Seq<int>, t: int, v: int)
    requires
        0 <= t < s.len(),
    ensures
        occ(s.take(t + 1), v) == occ(s.take(t), v) + if s[t] == v { 1int } else { 0int },
{
    assert(s.take(t + 1).drop_last() =~= s.take(t));
}

proof fn lemma_occ_bounds(s: Seq<int>, t: int, v: int)
    requires
        0 <= t <= s.len(),
    ensures
        0 <= occ(s.take(t), v) <= occ(s, v),
        occ(s, v) - occ(s.take(t), v) == 0 ==> forall|i: int| t <= i < s.len() ==> s[i] != v,
    decreases s.len() - t,
{
    if t < s.len() {
        lemma_occ_prefix(s, t, v);
        lemma_occ_bounds(s, t + 1, v);
    } else {
        assert(s.take(t) =~= s);
    }
    lemma_occ_nonneg(s.take(t), v);
}

proof fn lemma_occ_nonneg(s: Seq<int>, v: int)
    ensures
        occ(s, v) >= 0,
    decreases s.len(),
{
    if s.len() > 0 {
        lemma_occ_nonneg(s.drop_last(), v);
    }
}

proof fn lemma_unranked_count(ranks: Seq<Option<usize>>, u: int, r: usize)
    requires
        0 <= u < ranks.len(),
        ranks[u] is None,
    ensures
        unranked_count(ranks.update(u, Some(r))) == unranked_count(ranks) - 1,
        unranked_count(ranks) >= 1,
    decreases ranks.len(),
{
    let q = ranks.update(u, Some(r));
    assert(q.drop_last() =~= if u < ranks.len() - 1 {
        ranks.drop_last().update(u, Some(r))
    } else {
        ranks.drop_last()
    });
    if u < ranks.len() - 1 {
        lemma_unranked_count(ranks.drop_last(), u, r);
    } else {
        lemma_unranked_nonneg(ranks.drop_last());
    }
}

proof fn lemma_unranked_nonneg(ranks: Seq<Option<usize>>)
    ensures
        0 <= unranked_count(ranks) <= ranks.len(),
        unranked_count(ranks) == 0 ==> forall|i: int| 0 <= i < ranks.len() ==> ranks[i] is Some,
    decreases ranks.len(),
{
    if ranks.len() > 0 {
        lemma_unranked_nonneg(ranks.drop_last());
        assert forall|i: int| 0 <= i < ranks.len() - 1 implies ranks[i] == ranks.drop_last()[i] by {}
    }
}

/// An unranked node whose number under `f` is least among the unranked nodes
/// below `i`, or -1 when all of them are ranked.
proof fn least_unranked(f: Seq<int>, ranks: Seq<Option<usize>>, i: int) -> (m: int)
    requires
        0 <= i <= ranks.len() == f.len(),
    ensures
        m == -1 ==> forall|x: int| 0 <= x < i ==> ranks[x] is Some,
        m != -1 ==> 0 <= m < i && ranks[m] is None && forall|x: int|
            0 <= x < i && ranks[x] is None ==> f[m] <= f[x],
    decreases i,
{
    if i == 0 {
        -1
    } else {
        let m = least_unranked(f, ranks, i - 1);
        if ranks[i - 1] is Some {
            m
        } else if m == -1 || f[i - 1] < f[m] {
            i - 1
        } else {
            m
        }
    }
}

/// The node indices of each edge's ends.
fn edge_indices(graph: &Graph) -> (r: Vec<(usize, usize)>)
    requires
        graph_wf(graph),
    ensures
        r@.len() == graph.edges@.len(),
        forall|j: int|
            0 <= j < r@.len() ==> (#[trigger] r@[j]).0 as int == edge_ends(graph)[j].0 && r@[j].1 as int
                == edge_ends(graph)[j].1,
        ends_in_range(graph.nodes@.len() as int, edge_ends(graph)),
{
    let mut ends: Vec<(usize, usize)> = Vec::new();
    let mut j: usize = 0;
    while j < graph.edges.len()
        invariant
            graph_wf(graph),
            j <= graph.edges@.len(),
            ends@.len() == j,
            forall|i: int|
                0 <= i < j ==> (#[trigger] ends@[i]).0 as int == edge_ends(graph)[i].0 && ends@[i].1 as int
                    == edge_ends(graph)[i].1,
            forall|i: int|
                0 <= i < j ==> 0 <= (#[trigger] edge_ends(graph)[i]).0 < graph.nodes@.len() && 0
                    <= edge_ends(graph)[i].1 < graph.nodes@.len(),
        decreases graph.edges@.len() - j,
    {
        let edge = &graph.edges[j];
        let from = participant_index(&graph.nodes, &edge.from);
        let to = participant_index(&graph.nodes, &edge.to);
        ends.push((from, to));
        j = j + 1;
    }
    ends
}

/// For each node, in node order, the targets of its edges in edge order.
pub fn build_adjacency_graph(graph: &Graph) -> (r: Vec<Vec<usize>>)
    requires
        graph_wf(graph),
    ensures
        is_adjacency(graph, r@),
{
    let ends = edge_indices(graph);
    let ghost e = edge_ends(graph);
    let n = graph.nodes.len();
    let mut adjacency: Vec<Vec<usize>> = Vec::new();
    let mut u: usize = 0;
    while u < n
        invariant
            n == graph.nodes@.len(),
            e == edge_ends(graph),
            ends@.len() == e.len(),
            forall|j: int|
                0 <= j < ends@.len() ==> (#[trigger] ends@[j]).0 as int == e[j].0 && ends@[j].1 as int
                    == e[j].1,
            u <= n,
            adjacency@.len() == u,
            forall|w: int|
                0 <= w < u ==> (#[trigger] adjacency@[w])@.map_values(|x: usize| x as int)
                    == targets_from(e, w),
        decreases n - u,
    {
        let mut targets: Vec<usize> = Vec::new();
        let mut j: usize = 0;
        while j < ends.len()
            invariant
                ends@.len() == e.len(),
                forall|i: int|
                    0 <= i < ends@.len() ==> (#[trigger] ends@[i]).0 as int == e[i].0 && ends@[i].1 as int
                        == e[i].1,
                j <= ends@.len(),
                targets@.map_values(|x: usize| x as int) == targets_from(e.take(j as int), u as int),
            decreases ends@.len() - j,
        {
            assert(e.take(j + 1).drop_last() =~= e.take(j as int));
            if ends[j].0 == u {
                targets.push(ends[j].1);
                assert(targets@.map_values(|x: usize| x as int) =~= targets_from(e.take(j + 1), u as int));
            }
            j = j + 1;
        }
        assert(e.take(j as int) =~= e);
        adjacency.push(targets);
        u = u + 1;
    }
    adjacency
}

/// Some edge leads from `u` to `x`.
pub open spec fn edge_between(e: Seq<(int, int)>, u: int, x: int) -> bool {
    exists|j: int| 0 <= j < e.len() && (#[trigger] e[j]).0 == u && e[j].1 == x
}

proof fn lemma_targets_are_edges(e: Seq<(int, int)>, u: int)
    ensures
        forall|i: int|
            0 <= i < targets_from(e, u).len() ==> edge_between(e, u, #[trigger] targets_from(e, u)[i]),
    decreases e.len(),
{
    if e.len() > 0 {
        let p = e.drop_last();
        lemma_targets_are_edges(p, u);
        let tp = targets_from(p, u);
        assert forall|i: int| 0 <= i < targets_from(e, u).len() implies edge_between(
            e,
            u,
            #[trigger] targets_from(e, u)[i],
        ) by {
            if i < tp.len() {
                assert(targets_from(e, u)[i] == tp[i]);
                assert(edge_between(p, u, tp[i]));
                let j = choose|j: int| 0 <= j < p.len() && (#[trigger] p[j]).0 == u && p[j].1 == tp[i];
                assert(e[j] == p[j]);
            } else {
                let j = e.len() - 1;
                assert(e[j] == e.last());
                assert(e[j].0 == u && e[j].1 == targets_from(e, u)[i]);
            }
        }
    }
}

proof fn lemma_enters_update(e: Seq<(int, int)>, ranks: Seq<Option<usize>>, u: int, r: usize, v: int, k: int)
    requires
        0 <= u < ranks.len(),
        ranks[u] is None,
        ends_in_range(ranks.len() as int, e),
        enters_at(e, ranks, v, k),
    ensures
        enters_at(e, ranks.update(u, Some(r)), v, k),
{
    if !(k == 0 && forall|j: int| 0 <= j < e.len() ==> (#[trigger] e[j]).1 != v) {
        let j = choose|j: int|
            0 <= j < e.len() && (#[trigger] e[j]).1 == v && ranks[e[j].0] is Some && ranks[e[j].0]->Some_0
                + 1 == k;
        assert(ranks.update(u, Some(r))[e[j].0] == ranks[e[j].0]);
    }
}

proof fn lemma_layered_update(e: Seq<(int, int)>, ranks: Seq<Option<usize>>, u: int, r: usize, w: int)
    requires
        0 <= u < ranks.len(),
        0 <= w < ranks.len(),
        w != u,
        ranks[u] is None,
        ranks[w] is Some,
        ends_in_range(ranks.len() as int, e),
        layered(e, ranks, w),
    ensures
        layered(e, ranks.update(u, Some(r)), w),
{
    let q = ranks.update(u, Some(r));
    assert(q[w] == ranks[w]);
    if !(ranks[w] == Some(0usize) && forall|j: int| 0 <= j < e.len() ==> (#[trigger] e[j]).1 != w) {
        let j = choose|j: int|
            0 <= j < e.len() && (#[trigger] e[j]).1 == w && ranks[e[j].0] is Some && ranks[e[j].0]->Some_0
                + 1 == ranks[w]->Some_0;
        assert(q[e[j].0] == ranks[e[j].0]);
    }
}

proof fn lemma_all_unranked(ranks: Seq<Option<usize>>)
    requires
        forall|i: int| 0 <= i < ranks.len() ==> ranks[i] is None,
    ensures
        unranked_count(ranks) == ranks.len(),
    decreases ranks.len(),
{
    if ranks.len() > 0 {
        lemma_all_unranked(ranks.drop_last());
    }
}

/// Where Kahn's algorithm stops: every unranked node still has an edge coming in
/// from an unranked node, and ranks grow along every edge into a ranked node.
proof fn lemma_kahn_outcome(e: Seq<(int, int)>, ranks: Seq<Option<usize>>)
    requires
        ends_in_range(ranks.len() as int, e),
        forall|w: int| 0 <= w < ranks.len() && ranks[w] is None ==> live_in(e, ranks, w) > 0,
        forall|jj: int|
            0 <= jj < e.len() && ranks[(#[trigger] e[jj]).1] is Some ==> ranks[e[jj].0] is Some
                && ranks[e[jj].0]->Some_0 < ranks[e[jj].1]->Some_0,
    ensures
        (forall|v: int| 0 <= v < ranks.len() ==> ranks[v] is Some) <==> acyclic(ranks.len() as int, e),
        (forall|v: int| 0 <= v < ranks.len() ==> ranks[v] is Some) <==> !exists|walk: Seq<int>|
            is_cycle(e, walk),
{
    let nn = ranks.len() as int;
    assert(stuck(e, ranks)) by {
        assert forall|w: int| 0 <= w < ranks.len() && ranks[w] is None implies exists|j: int|
            0 <= j < e.len() && (#[trigger] e[j]).1 == w && ranks[e[j].0] is None by {
            lemma_live_in_bounds(e, ranks, w);
        }
    }
    if forall|v: int| 0 <= v < ranks.len() ==> ranks[v] is Some {
        let f = Seq::new(nn as nat, |i: int| ranks[i]->Some_0 as int);
        assert forall|jj: int| 0 <= jj < e.len() implies f[(#[trigger] e[jj]).0] < f[e[jj].1] by {
            assert(ranks[e[jj].1] is Some);
        }
        assert(is_topological(f, nn, e));
    } else {
        let v = choose|v: int| 0 <= v < ranks.len() && !(ranks[v] is Some);
        let walk = lemma_stuck_has_cycle(e, ranks, v);
        lemma_cycle_not_acyclic(nn, e, walk);
    }
    if exists|walk: Seq<int>| is_cycle(e, walk) {
        let walk = choose|walk: Seq<int>| is_cycle(e, walk);
        lemma_cycle_not_acyclic(nn, e, walk);
    }
}

/// Ranks the nodes layer by layer (Kahn's algorithm): the nodes without incoming
/// edges get rank 0, and a node gets the next rank once all its predecessors are
/// ranked. Along every edge whose target is ranked the source is ranked lower; and
/// every node is ranked exactly when the graph is acyclic, so a missing rank
/// reveals a cycle.
pub fn assign_ranks(graph: &Graph, adjacency: &Vec<Vec<usize>>) -> (r: Vec<Option<usize>>)
    requires
        graph_wf(graph),
        is_adjacency(graph, adjacency@),
    ensures
        r@.len() == graph.nodes@.len(),
        forall|j: int|
            0 <= j < edge_ends(graph).len() && r@[(#[trigger] edge_ends(graph)[j]).1] is Some
                ==> r@[edge_ends(graph)[j].0] is Some && r@[edge_ends(graph)[j].0]->Some_0
                < r@[edge_ends(graph)[j].1]->Some_0,
        forall|v: int| 0 <= v < r@.len() && r@[v] is Some ==> layered(edge_ends(graph), r@, v),
        (forall|v: int| 0 <= v < r@.len() ==> r@[v] is Some) <==> acyclic(
            graph.nodes@.len() as int,
            edge_ends(graph),
        ),
        (forall|v: int| 0 <= v < r@.len() ==> r@[v] is Some) <==> !exists|walk: Seq<int>|
            is_cycle(edge_ends(graph), walk),
{
    let n = graph.nodes.len();
    let ends = edge_indices(graph);
    let ghost e = edge_ends(graph);
    let mut ranks: Vec<Option<usize>> = Vec::new();
    let mut in_degrees: Vec<usize> = Vec::new();
    let mut v: usize = 0;
    while v < n
        invariant
            v <= n,
            ranks@.len() == v,
            in_degrees@.len() == v,
            forall|i: int| 0 <= i < v ==> ranks@[i] is None,
            forall|i: int| 0 <= i < v ==> in_degrees@[i] == 0,
        decreases n - v,
    {
        ranks.push(None);
        in_degrees.push(0);
        v = v + 1;
    }
    let mut j: usize = 0;
    assert(e.take(0) =~= Seq::<(int, int)>::empty());
    while j < ends.len()
        invariant
            n == graph.nodes@.len(),
            e == edge_ends(graph),
            ends_in_range(n as int, e),
            ends@.len() == e.len(),
            forall|i: int|
                0 <= i < ends@.len() ==> (#[trigger] ends@[i]).0 as int == e[i].0 && ends@[i].1 as int
                    == e[i].1,
            j <= ends@.len(),
            ranks@.len() == n,
            in_degrees@.len() == n,
            forall|i: int| 0 <= i < n ==> ranks@[i] is None,
            forall|w: int| 0 <= w < n ==> in_degrees@[w] == live_in(e.take(j as int), ranks@, w),
        decreases ends@.len() - j,
    {
        let to = ends[j].1;
        proof {
            assert(ends_in_range(n as int, e.take(j as int)));
            lemma_live_in_bounds(e.take(j as int), ranks@, to as int);
            assert(e.take(j + 1).drop_last() =~= e.take(j as int));
        }
        let d = in_degrees[to] + 1;
        in_degrees.set(to, d);
        j = j + 1;
    }
    assert(e.take(j as int) =~= e);
    let mut queue: VecDeque<usize> = VecDeque::new();
    let mut v: usize = 0;
    while v < n
        invariant
            n == graph.nodes@.len(),
            v <= n,
            ranks@.len() == n,
            in_degrees@.len() == n,
            forall|i: int| 0 <= i < queue@.len() ==> (#[trigger] queue@[i]) < v && in_degrees@[queue@[i] as int] == 0,
            forall|i: int, k: int| 0 <= i < k < queue@.len() ==> queue@[i] != queue@[k],
            forall|w: int| 0 <= w < v && in_degrees@[w] == 0 ==> queue@.contains(w as usize),
        decreases n - v,
    {
        let ghost qb = queue@;
        if in_degrees[v] == 0 {
            queue.push_back(v);
            assert(queue@[queue@.len() - 1] == v);
        }
        proof {
            assert forall|w: int| 0 <= w < v + 1 && in_degrees@[w] == 0 implies queue@.contains(
                w as usize,
            ) by {
                if w < v {
                    let i = choose|i: int| 0 <= i < qb.len() && qb[i] == w as usize;
                    assert(queue@[i] == w as usize);
                } else {
                    assert(queue@[queue@.len() - 1] == v);
                }
            }
        }
        v = v + 1;
    }
    proof {
        lemma_all_unranked(ranks@);
        assert forall|i: int, jj: int|
            0 <= i < queue@.len() && 0 <= jj < e.len() && (#[trigger] e[jj]).1 == #[trigger] queue@[i] implies false by {
            lemma_live_in_bounds(e, ranks@, queue@[i] as int);
        }
    }
    let mut current_rank: usize = 0;
    let mut layer_left: usize = queue.len();
    let mut done: usize = 0;
    while queue.len() > 0
        invariant
            n == graph.nodes@.len(),
            e == edge_ends(graph),
            ends_in_range(n as int, e),
            is_adjacency(graph, adjacency@),
            ranks@.len() == n,
            in_degrees@.len() == n,
            forall|w: int| 0 <= w < n ==> in_degrees@[w] == live_in(e, ranks@, w),
            forall|i: int| 0 <= i < queue@.len() ==> (#[trigger] queue@[i]) < n && ranks@[queue@[i] as int] is None,
            forall|i: int, k: int| 0 <= i < k < queue@.len() ==> queue@[i] != queue@[k],
            forall|w: int|
                0 <= w < n && ranks@[w] is None ==> (queue@.contains(w as usize) <==> in_degrees@[w] == 0),
            forall|w: int| 0 <= w < n && ranks@[w] is Some ==> ranks@[w]->Some_0 <= current_rank,
            forall|jj: int|
                0 <= jj < e.len() && ranks@[(#[trigger] e[jj]).1] is Some ==> ranks@[e[jj].0] is Some
                    && ranks@[e[jj].0]->Some_0 < ranks@[e[jj].1]->Some_0,
            layer_left <= queue@.len(),
            forall|i: int, jj: int|
                0 <= i < layer_left && 0 <= jj < e.len() && (#[trigger] e[jj]).1 == #[trigger] queue@[i] ==> ranks@[e[jj].0]
                    is Some && ranks@[e[jj].0]->Some_0 < current_rank,
            forall|i: int, jj: int|
                layer_left <= i < queue@.len() && 0 <= jj < e.len() && (#[trigger] e[jj]).1 == #[trigger] queue@[i]
                    ==> ranks@[e[jj].0] is Some && ranks@[e[jj].0]->Some_0 <= current_rank,
            done + unranked_count(ranks@) == n,
            current_rank <= done,
            forall|w: int| 0 <= w < n && ranks@[w] is Some ==> layered(e, ranks@, w),
            forall|i: int|
                0 <= i < layer_left ==> enters_at(e, ranks@, #[trigger] queue@[i] as int, current_rank as int),
            forall|i: int|
                layer_left <= i < queue@.len() ==> enters_at(
                    e,
                    ranks@,
                    #[trigger] queue@[i] as int,
                    current_rank + 1,
                ),
            layer_left == 0 && queue@.len() > 0 ==> current_rank < done,
        decreases unranked_count(ranks@),
    {
        proof {
            lemma_unranked_nonneg(ranks@);
        }
        if layer_left == 0 {
            current_rank = current_rank + 1;
            layer_left = queue.len();
        }
        let ghost q0 = queue@;
        let u = match queue.pop_front() {
            Some(x) => x,
            None => 0,
        };
        layer_left = layer_left - 1;
        let ghost old_ranks = ranks@;
        let ghost tu = targets_from(e, u as int);
        proof {
            assert(q0.contains(u));
            lemma_live_in_bounds(e, old_ranks, u as int);
            lemma_targets_are_edges(e, u as int);
            assert forall|i: int| 0 <= i < tu.len() implies old_ranks[tu[i]] is None && tu[i] != u && 0 <= tu[i] < n by {
                assert(edge_between(e, u as int, tu[i]));
                let jj = choose|jj: int| 0 <= jj < e.len() && (#[trigger] e[jj]).0 == u && e[jj].1 == tu[i];
                assert(ends_in_range(n as int, e));
            }
            assert forall|w: int| 0 <= w < n implies live_in(e, old_ranks, w) == live_in(
                e,
                old_ranks.update(u as int, Some(current_rank)),
                w,
            ) + occ(tu, w) by {
                lemma_live_in_rank(e, old_ranks, u as int, current_rank, w);
            }
            lemma_unranked_count(old_ranks, u as int, current_rank);
        }
        ranks.set(u, Some(current_rank));
        proof {
            assert(queue@ =~= q0.subrange(1, q0.len() as int));
            let nr = ranks@;
            assert(nr == old_ranks.update(u as int, Some(current_rank)));
            assert(enters_at(e, old_ranks, q0[0] as int, current_rank as int));
            lemma_enters_update(e, old_ranks, u as int, current_rank, u as int, current_rank as int);
            assert(nr[u as int] == Some(current_rank));
            assert(layered(e, nr, u as int)) by {
                if !(current_rank == 0 && forall|j: int| 0 <= j < e.len() ==> (#[trigger] e[j]).1 != u) {
                    let j = choose|j: int|
                        0 <= j < e.len() && (#[trigger] e[j]).1 == u && nr[e[j].0] is Some
                            && nr[e[j].0]->Some_0 + 1 == current_rank;
                }
            }
            assert forall|w: int| 0 <= w < n && nr[w] is Some implies layered(e, nr, w) by {
                if w != u {
                    lemma_layered_update(e, old_ranks, u as int, current_rank, w);
                }
            }
            assert forall|i: int| 0 <= i < layer_left implies enters_at(
                e,
                nr,
                #[trigger] queue@[i] as int,
                current_rank as int,
            ) by {
                assert(queue@[i] == q0[i + 1]);
                lemma_enters_update(e, old_ranks, u as int, current_rank, q0[i + 1] as int, current_rank as int);
            }
            assert forall|i: int| layer_left <= i < queue@.len() implies enters_at(
                e,
                nr,
                #[trigger] queue@[i] as int,
                current_rank + 1,
            ) by {
                assert(queue@[i] == q0[i + 1]);
                lemma_enters_update(e, old_ranks, u as int, current_rank, q0[i + 1] as int, current_rank + 1);
            }
            assert forall|w: int|
                0 <= w < n && ranks@[w] is None implies (queue@.contains(w as usize) <==> in_degrees@[w]
                == 0) by {
                if queue@.contains(w as usize) {
                    let i = choose|i: int| 0 <= i < queue@.len() && queue@[i] == w as usize;
                    assert(q0[i + 1] == w as usize);
                }
                if q0.contains(w as usize) {
                    let i = choose|i: int| 0 <= i < q0.len() && q0[i] == w as usize;
                    assert(i != 0);
                    assert(queue@[i - 1] == w as usize);
                }
            }
        }
        let targets = &adjacency[u];
        assert(targets@.map_values(|x: usize| x as int) == tu);
        let mut t: usize = 0;
        while t < targets.len()
            invariant
                n == graph.nodes@.len(),
                e == edge_ends(graph),
                ends_in_range(n as int, e),
                targets@.map_values(|x: usize| x as int) == tu,
                tu == targets_from(e, u as int),
                t <= targets@.len(),
                ranks@ == old_ranks.update(u as int, Some(current_rank)),
                ranks@.len() == n,
                in_degrees@.len() == n,
                forall|i: int| 0 <= i < tu.len() ==> ranks@[tu[i]] is None && 0 <= tu[i] < n,
                forall|w: int|
                    0 <= w < n ==> in_degrees@[w] == live_in(e, ranks@, w) + occ(tu, w) - occ(
                        tu.take(t as int),
                        w,
                    ),
                forall|i: int| 0 <= i < queue@.len() ==> (#[trigger] queue@[i]) < n && ranks@[queue@[i] as int] is None,
                forall|i: int, k: int| 0 <= i < k < queue@.len() ==> queue@[i] != queue@[k],
                forall|w: int|
                    0 <= w < n && ranks@[w] is None ==> (queue@.contains(w as usize) <==> in_degrees@[w] == 0),
                forall|w: int| 0 <= w < n && ranks@[w] is Some ==> ranks@[w]->Some_0 <= current_rank,
                layer_left <= queue@.len(),
                forall|i: int, jj: int|
                    0 <= i < layer_left && 0 <= jj < e.len() && (#[trigger] e[jj]).1 == #[trigger] queue@[i] ==> ranks@[e[jj].0]
                        is Some && ranks@[e[jj].0]->Some_0 < current_rank,
                forall|i: int, jj: int|
                    layer_left <= i < queue@.len() && 0 <= jj < e.len() && (#[trigger] e[jj]).1 == #[trigger] queue@[i]
                        ==> ranks@[e[jj].0] is Some && ranks@[e[jj].0]->Some_0 <= current_rank,
                ranks@[u as int] == Some(current_rank),
                forall|i: int| 0 <= i < tu.len() ==> edge_between(e, u as int, #[trigger] tu[i]),
                forall|w: int| 0 <= w < n && ranks@[w] is Some ==> layered(e, ranks@, w),
                forall|i: int|
                    0 <= i < layer_left ==> enters_at(e, ranks@, #[trigger] queue@[i] as int, current_rank as int),
                forall|i: int|
                    layer_left <= i < queue@.len() ==> enters_at(
                        e,
                        ranks@,
                        #[trigger] queue@[i] as int,
                        current_rank + 1,
                    ),
            decreases targets@.len() - t,
        {
            let v = targets[t];
            proof {
                assert(tu[t as int] == v);
                lemma_occ_prefix(tu, t as int, v as int);
                lemma_occ_bounds(tu, t + 1, v as int);
                lemma_live_in_bounds(e, ranks@, v as int);
            }
            let d = in_degrees[v] - 1;
            let ghost qb = queue@;
            in_degrees.set(v, d);
            proof {
                assert forall|w: int| 0 <= w < n implies occ(tu.take(t + 1), w) == occ(tu.take(t as int), w)
                    + if tu[t as int] == w { 1int } else { 0int } by {
                    lemma_occ_prefix(tu, t as int, w);
                }
            }
            if d == 0 {
                proof {
                    assert(queue@ == qb);
                    assert(live_in(e, ranks@, v as int) == 0);
                    assert(!queue@.contains(v));
                }
                queue.push_back(v);
                proof {
                    assert(queue@[queue@.len() - 1] == v);
                    assert(edge_between(e, u as int, tu[t as int]));
                    let jv = choose|jj: int| 0 <= jj < e.len() && (#[trigger] e[jj]).0 == u && e[jj].1 == tu[t as int];
                    assert(enters_at(e, ranks@, v as int, current_rank + 1));
                    assert forall|i: int| 0 <= i < queue@.len() - 1 implies queue@[i] == qb[i] by {}
                    assert forall|w: int|
                        0 <= w < n && ranks@[w] is None implies (queue@.contains(w as usize) <==> in_degrees@[w]
                        == 0) by {
                        if w != v {
                            if queue@.contains(w as usize) {
                                let i = choose|i: int| 0 <= i < queue@.len() && queue@[i] == w as usize;
                                assert(i < queue@.len() - 1);
                                assert(qb[i] == w as usize);
                            }
                            if qb.contains(w as usize) {
                                let i = choose|i: int| 0 <= i < qb.len() && qb[i] == w as usize;
                                assert(queue@[i] == w as usize);
                            }
                        }
                    }
                }
            }
            t = t + 1;
        }
        proof {
            assert(tu.take(t as int) =~= tu);
        }
        done = done + 1;
    }
    proof {
        assert forall|w: int| 0 <= w < n && ranks@[w] is None implies live_in(e, ranks@, w) > 0 by {
            lemma_live_in_bounds(e, ranks@, w);
            assert(queue@.len() == 0);
            assert(!queue@.contains(w as usize));
            assert(in_degrees@[w] != 0);
        }
        lemma_kahn_outcome(e, ranks@);
    }
    ranks
}

/// Every node ranked, with the given ranks.
pub open spec fn all_ranked(ranks: Seq<usize>) -> Seq<Option<usize>> {
    ranks.map_values(|x: usize| Some(x))
}

#[derive(Debug)]
pub struct CycleError {
    pub message: String,
}

/// The rank of every node, in node order, or an error exactly when the graph has a
/// directed cycle (some node then never gets a rank).
pub fn rank_nodes(graph: &Graph) -> (r: Result<Vec<usize>, CycleError>)
    requires
        graph_wf(graph),
    ensures
        match r {
            Ok(ranks) => {
                &&& acyclic(graph.nodes@.len() as int, edge_ends(graph))
                &&& !exists|walk: Seq<int>| is_cycle(edge_ends(graph), walk)
                &&& ranks@.len() == graph.nodes@.len()
                &&& forall|j: int|
                    0 <= j < edge_ends(graph).len() ==> ranks@[(#[trigger] edge_ends(graph)[j]).0]
                        < ranks@[edge_ends(graph)[j].1]
                &&& forall|v: int|
                    0 <= v < ranks@.len() ==> #[trigger] layered(edge_ends(graph), all_ranked(ranks@), v)
            },
            Err(_) => !acyclic(graph.nodes@.len() as int, edge_ends(graph)) && exists|walk: Seq<int>|
                is_cycle(edge_ends(graph), walk),
        },
{
    let adjacency = build_adjacency_graph(graph);
    let ranks = assign_ranks(graph, &adjacency);
    let ghost e = edge_ends(graph);
    let mut out: Vec<usize> = Vec::new();
    let mut i: usize = 0;
    while i < ranks.len()
        invariant
            i <= ranks@.len(),
            ranks@.len() == graph.nodes@.len(),
            e == edge_ends(graph),
            (forall|v: int| 0 <= v < ranks@.len() ==> ranks@[v] is Some) <==> acyclic(
                graph.nodes@.len() as int,
                e,
            ),
            (forall|v: int| 0 <= v < ranks@.len() ==> ranks@[v] is Some) <==> !exists|walk: Seq<int>|
                is_cycle(e, walk),
            forall|j: int|
                0 <= j < e.len() && ranks@[(#[trigger] e[j]).1] is Some ==> ranks@[e[j].0] is Some
                    && ranks@[e[j].0]->Some_0 < ranks@[e[j].1]->Some_0,
            forall|v: int| 0 <= v < ranks@.len() && ranks@[v] is Some ==> layered(e, ranks@, v),
            out@.len() == i,
            forall|k: int| 0 <= k < i ==> ranks@[k] == Some(#[trigger] out@[k]),
        decreases ranks@.len() - i,
    {
        match ranks[i] {
            Some(rank) => out.push(rank),
            None => {
                assert(ranks@[i as int] is None);
                return Err(CycleError { message: String::from_str("Graph has a cycle") });
            },
        }
        i = i + 1;
    }
    proof {
        assert forall|v: int| 0 <= v < ranks@.len() implies ranks@[v] is Some by {
            assert(ranks@[v] == Some(out@[v]));
        }
        assert(ranks@ =~= all_ranked(out@));
        assert forall|j: int| 0 <= j < e.len() implies out@[(#[trigger] e[j]).0] < out@[e[j].1] by {
            assert(ends_in_range(graph.nodes@.len() as int, e)) by {
                assert forall|jj: int| 0 <= jj < e.len() implies 0 <= (#[trigger] e[jj]).0
                    < graph.nodes@.len() && 0 <= e[jj].1 < graph.nodes@.len() by {
                    crate::layout::lemma_first_index(node_names(graph.nodes@), graph.edges@[jj].from@);
                    crate::layout::lemma_first_index(node_names(graph.nodes@), graph.edges@[jj].to@);
                }
            }
            assert(ranks@[e[j].1] == Some(out@[e[j].1]));
        }
    }
    Ok(out)
}

/// The edges `walk[0], walk[1], ...` (indices into `e`) follow one another and the
/// last leads back to where the first starts: a directed cycle.
pub open spec fn is_cycle(e: Seq<(int, int)>, walk: Seq<int>) -> bool {
    &&& walk.len() > 0
    &&& forall|i: int| 0 <= i < walk.len() ==> 0 <= #[trigger] walk[i] < e.len()
    &&& forall|i: int| 0 <= i < walk.len() - 1 ==> e[#[trigger] walk[i]].1 == e[walk[i + 1]].0
    &&& e[walk.last()].1 == e[walk[0]].0
}

proof fn lemma_walk_increases(e: Seq<(int, int)>, walk: Seq<int>, f: Seq<int>, n: int, k: int)
    requires
        is_topological(f, n, e),
        ends_in_range(n, e),
        is_cycle(e, walk),
        0 <= k < walk.len(),
    ensures
        f[e[walk[0]].0] < f[e[walk[k]].1],
    decreases k,
{
    assert(f[e[walk[k]].0] < f[e[walk[k]].1]);
    if k > 0 {
        lemma_walk_increases(e, walk, f, n, k - 1);
        assert(e[walk[k - 1]].1 == e[walk[k]].0);
    }
}

/// A graph with a directed cycle is not acyclic: no numbering of its nodes grows
/// along every edge, so some node is left without a rank.
pub proof fn lemma_cycle_not_acyclic(n: int, e: Seq<(int, int)>, walk: Seq<int>)
    requires
        ends_in_range(n, e),
        is_cycle(e, walk),
    ensures
        !acyclic(n, e),
{
    if acyclic(n, e) {
        let f = choose|f: Seq<int>| is_topological(f, n, e);
        lemma_walk_increases(e, walk, f, n, walk.len() - 1);
    }
}

/// Every unranked node has an edge coming in from an unranked node.
pub open spec fn stuck(e: Seq<(int, int)>, ranks: Seq<Option<usize>>) -> bool {
    forall|w: int|
        0 <= w < ranks.len() && ranks[w] is None ==> exists|j: int|
            0 <= j < e.len() && (#[trigger] e[j]).1 == w && ranks[e[j].0] is None
}

/// A walk of `k` edges backwards from the unranked node `v` through unranked nodes:
/// the nodes visited, and the edges taken (edge `i` leads from node `i + 1` to node `i`).
proof fn back_walk(e: Seq<(int, int)>, ranks: Seq<Option<usize>>, v: int, k: nat) -> (r: (Seq<int>, Seq<int>))
    requires
        ends_in_range(ranks.len() as int, e),
        stuck(e, ranks),
        0 <= v < ranks.len(),
        ranks[v] is None,
    ensures
        r.0.len() == k + 1,
        r.1.len() == k,
        r.0[0] == v,
        forall|i: int| 0 <= i <= k ==> 0 <= #[trigger] r.0[i] < ranks.len() && ranks[r.0[i]] is None,
        forall|i: int|
            0 <= i < k ==> 0 <= #[trigger] r.1[i] < e.len() && e[r.1[i]].1 == r.0[i] && e[r.1[i]].0
                == r.0[i + 1],
    decreases k,
{
    if k == 0 {
        (seq![v], Seq::empty())
    } else {
        let (xs, js) = back_walk(e, ranks, v, (k - 1) as nat);
        let x = xs[k - 1];
        assert(0 <= x < ranks.len() && ranks[x] is None);
        let j = choose|j: int| 0 <= j < e.len() && (#[trigger] e[j]).1 == x && ranks[e[j].0] is None;
        let r = (xs.push(e[j].0), js.push(j));
        assert forall|i: int| 0 <= i < k implies 0 <= #[trigger] r.1[i] < e.len() && e[r.1[i]].1 == r.0[i]
            && e[r.1[i]].0 == r.0[i + 1] by {
            if i < k - 1 {
                assert(r.1[i] == js[i]);
            }
        }
        r
    }
}

/// Among `n + 1` values in `0 .. n` two are equal.
proof fn lemma_pigeonhole(xs: Seq<int>, n: int) -> (r: (int, int))
    requires
        xs.len() == n + 1,
        n >= 0,
        forall|i: int| 0 <= i < xs.len() ==> 0 <= #[trigger] xs[i] < n,
    ensures
        0 <= r.0 < r.1 < xs.len(),
        xs[r.0] == xs[r.1],
{
    if xs.no_duplicates() {
        xs.unique_seq_to_set();
        vstd::set_lib::lemma_int_range(0, n);
        assert(xs.to_set().subset_of(vstd::set_lib::set_int_range(0, n)));
        vstd::set_lib::lemma_len_subset(xs.to_set(), vstd::set_lib::set_int_range(0, n));
    }
    let (a, b) = choose|a: int, b: int| 0 <= a < xs.len() && 0 <= b < xs.len() && a != b && xs[a] == xs[b];
    if a < b {
        (a, b)
    } else {
        (b, a)
    }
}

/// When every unranked node has an unranked predecessor and some node is
/// unranked, the graph has a directed cycle.
proof fn lemma_stuck_has_cycle(e: Seq<(int, int)>, ranks: Seq<Option<usize>>, v: int) -> (walk: Seq<int>)
    requires
        ends_in_range(ranks.len() as int, e),
        stuck(e, ranks),
        0 <= v < ranks.len(),
        ranks[v] is None,
    ensures
        is_cycle(e, walk),
{
    let n = ranks.len() as int;
    let (xs, js) = back_walk(e, ranks, v, n as nat);
    let (a, b) = lemma_pigeonhole(xs, n);
    let walk = Seq::new((b - a) as nat, |t: int| js[b - 1 - t]);
    assert forall|t: int| 0 <= t < walk.len() - 1 implies e[#[trigger] walk[t]].1 == e[walk[t + 1]].0 by {
        assert(walk[t] == js[b - 1 - t]);
        assert(walk[t + 1] == js[b - 2 - t]);
    }
    assert(walk.last() == js[a]);
    assert(walk[0] == js[b - 1]);
    walk
}

} // verus!
