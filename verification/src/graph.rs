//! Directed-graph analysis behind relation conflict proofs: strongly
//! connected components and positive-weight cycle detection.
use crate::dyadic::ExactDyadic;
use crate::relaxation::{back, back_edges, proof_chain, relax_rounds};
use vstd::prelude::*;

verus! {

/// Every neighbour listed in `adjacency` names one of its `n` nodes.
pub open spec fn valid_adjacency(adjacency: Seq<Vec<usize>>, n: int) -> bool {
    forall|u: int, k: int|
        0 <= u < adjacency.len() && 0 <= k < adjacency[u]@.len() ==> #[trigger] adjacency[u]@[k]
            < n
}

/// The number of `false` entries.
pub open spec fn count_unset(flags: Seq<bool>) -> nat
    decreases flags.len(),
{
    if flags.len() == 0 {
        0
    } else {
        count_unset(flags.drop_last()) + if flags.last() {
            0nat
        } else {
            1nat
        }
    }
}

/// The number of entries equal to `marker`.
pub open spec fn count_equal(labels: Seq<usize>, marker: usize) -> nat
    decreases labels.len(),
{
    if labels.len() == 0 {
        0
    } else {
        count_equal(labels.drop_last(), marker) + if labels.last() == marker {
            1nat
        } else {
            0nat
        }
    }
}

pub(crate) proof fn lemma_count_unset_set(flags: Seq<bool>, i: int)
    requires
        0 <= i < flags.len(),
        !flags[i],
    ensures
        count_unset(flags.update(i, true)) + 1 == count_unset(flags),
    decreases flags.len(),
{
    let updated = flags.update(i, true);
    if i == flags.len() - 1 {
        assert(updated.drop_last() =~= flags.drop_last());
    } else {
        lemma_count_unset_set(flags.drop_last(), i);
        assert(updated.drop_last() =~= flags.drop_last().update(i, true));
    }
}

proof fn lemma_count_equal_set(labels: Seq<usize>, i: int, marker: usize, value: usize)
    requires
        0 <= i < labels.len(),
        labels[i] == marker,
        value != marker,
    ensures
        count_equal(labels.update(i, value), marker) + 1 == count_equal(labels, marker),
    decreases labels.len(),
{
    let updated = labels.update(i, value);
    if i == labels.len() - 1 {
        assert(updated.drop_last() =~= labels.drop_last());
    } else {
        lemma_count_equal_set(labels.drop_last(), i, marker, value);
        assert(updated.drop_last() =~= labels.drop_last().update(i, value));
    }
}

/// The remaining depth-first work held by a stack of `(node, next neighbour)`
/// frames.
pub open spec fn stack_work(stack: Seq<(usize, usize)>, adjacency: Seq<Vec<usize>>) -> nat
    decreases stack.len(),
{
    if stack.len() == 0 {
        0
    } else {
        let (node, next) = stack.last();
        stack_work(stack.drop_last(), adjacency) + (adjacency[node as int]@.len() - next
            + 1) as nat
    }
}

pub(crate) proof fn lemma_distinct_bounded(s: Seq<int>, n: int)
    requires
        s.no_duplicates(),
        forall|i: int| 0 <= i < s.len() ==> 0 <= #[trigger] s[i] < n,
        0 <= n,
    ensures
        s.len() <= n,
{
    s.unique_seq_to_set();
    vstd::set_lib::lemma_int_range(0, n);
    assert(s.to_set().subset_of(vstd::set_lib::set_int_range(0, n)));
    vstd::set_lib::lemma_len_subset(s.to_set(), vstd::set_lib::set_int_range(0, n));
}

/// Every node reachable from the last node of `finished` has finished too,
/// or reaches that node back from a node that has not finished.
pub open spec fn finished_closure(adjacency: Seq<Vec<usize>>, finished: Seq<usize>) -> bool {
    forall|x: usize|
        #[trigger] reaches(adjacency, finished.last(), x) ==> finished.contains(x) || exists|g: usize|
            !finished.contains(g) && reaches(adjacency, g, finished.last()) && reaches(
                adjacency,
                finished.last(),
                g,
            )
}

/// Every node of `finished` lies in the graph, and its successors are all
/// visited.
pub open spec fn successors_visited(adjacency: Seq<Vec<usize>>, visited: Seq<bool>, finished: Seq<usize>) -> bool {
    &&& forall|i: int| 0 <= i < finished.len() ==> #[trigger] finished[i] < adjacency.len()
    &&& forall|i: int, k: int|
        0 <= i < finished.len() && 0 <= k < adjacency[finished[i] as int]@.len()
            ==> #[trigger] visited[adjacency[finished[i] as int]@[k] as int]
}

/// The nodes of depth-first frames.
pub open spec fn frame_nodes(stack: Seq<(usize, usize)>) -> Seq<usize> {
    stack.map_values(|frame: (usize, usize)| frame.0)
}

/// Walking from `u` over finished nodes whose successors are all visited,
/// each node is finished or the walk has met a node still on the stack.
proof fn lemma_walk_stays_finished(
    adjacency: Seq<Vec<usize>>,
    visited: Seq<bool>,
    finished: Seq<usize>,
    stack_nodes: Seq<usize>,
    u: usize,
    path: Seq<usize>,
    j: int,
)
    requires
        visited.len() == adjacency.len(),
        valid_adjacency(adjacency, adjacency.len() as int),
        finished.contains(u),
        successors_visited(adjacency, visited, finished),
        forall|v: usize| v < adjacency.len() && #[trigger] visited[v as int] ==> finished.contains(v) || stack_nodes.contains(v),
        node_walk(adjacency, path),
        path[0] == u,
        0 <= j < path.len(),
    ensures
        finished.contains(path[j]) || exists|g: usize| stack_nodes.contains(g) && reaches(adjacency, u, g),
    decreases j,
{
    if j > 0 {
        lemma_walk_stays_finished(adjacency, visited, finished, stack_nodes, u, path, j - 1);
        if finished.contains(path[j - 1]) {
            let a = path[j - 1];
            assert(a < adjacency.len() && adjacency[a as int]@.contains(path[j - 1 + 1]));
            let i = choose|i: int| 0 <= i < finished.len() && finished[i] == a;
            let k = choose|k: int| 0 <= k < adjacency[a as int]@.len() && adjacency[a as int]@[k] == path[j];
            assert(visited[adjacency[finished[i] as int]@[k] as int]);
            assert(path[j] < adjacency.len());
            assert(visited[path[j] as int]);
            if stack_nodes.contains(path[j]) {
                lemma_walk_prefix(adjacency, path, j);
                assert(path.take(j + 1)[0] == u);
                assert(path.take(j + 1).last() == path[j]);
                assert(reaches(adjacency, u, path[j]));
            }
        }
    }
}

/// When `u` finishes last, every node it reaches has finished or reaches
/// `u` back from the stack.
proof fn lemma_finish_closure(
    adjacency: Seq<Vec<usize>>,
    visited: Seq<bool>,
    finished: Seq<usize>,
    stack_nodes: Seq<usize>,
)
    requires
        visited.len() == adjacency.len(),
        valid_adjacency(adjacency, adjacency.len() as int),
        finished.len() >= 1,
        successors_visited(adjacency, visited, finished),
        forall|v: usize| v < adjacency.len() && #[trigger] visited[v as int] ==> finished.contains(v) || stack_nodes.contains(v),
        forall|g: usize|
            #[trigger] stack_nodes.contains(g) ==> !finished.contains(g) && reaches(adjacency, g, finished.last()),
    ensures
        finished_closure(adjacency, finished),
{
    let u = finished.last();
    assert(finished.contains(u)) by {
        assert(finished[finished.len() - 1] == u);
    }
    assert forall|x: usize| #[trigger] reaches(adjacency, u, x) implies finished.contains(x) || exists|g: usize|
        !finished.contains(g) && reaches(adjacency, g, u) && reaches(adjacency, u, g) by {
        let path = choose|path: Seq<usize>| #[trigger] node_walk(adjacency, path) && path[0] == u && path.last() == x;
        lemma_walk_stays_finished(adjacency, visited, finished, stack_nodes, u, path, path.len() - 1);
        if !finished.contains(x) {
            let g = choose|g: usize| stack_nodes.contains(g) && reaches(adjacency, u, g);
            assert(!finished.contains(g) && reaches(adjacency, g, u));
        }
    }
}

/// Depth-first finishing order of every node of the graph: each node once,
/// and each node finished after every node it reaches, unless some node it
/// reaches and that reaches it back finishes later still.
fn depth_first_finish_order(adjacency: &[Vec<usize>]) -> (order: Vec<usize>)
    requires
        valid_adjacency(adjacency@, adjacency.len() as int),
    ensures
        forall|i: int| 0 <= i < order.len() ==> #[trigger] order[i] < adjacency.len(),
        forall|v: usize| v < adjacency.len() ==> #[trigger] order@.contains(v),
        order@.no_duplicates(),
        forall|i: int| 0 <= i < order.len() ==> #[trigger] finished_closure(adjacency@, order@.take(i + 1)),
{
    let n = adjacency.len();
    let mut visited: Vec<bool> = Vec::with_capacity(n);
    let mut fill: usize = 0;
    while fill < n
        invariant
            fill <= n,
            visited.len() == fill,
            forall|v: int| 0 <= v < fill ==> !visited[v],
        decreases n - fill,
    {
        visited.push(false);
        fill = fill + 1;
    }
    let mut finish_order: Vec<usize> = Vec::with_capacity(n);
    let mut start: usize = 0;
    while start < n
        invariant
            n == adjacency.len(),
            valid_adjacency(adjacency@, n as int),
            visited.len() == n,
            start <= n,
            forall|v: int| 0 <= v < start ==> visited[v],
            forall|v: usize| v < n && #[trigger] visited@[v as int] ==> finish_order@.contains(v),
            forall|v: usize| #[trigger] finish_order@.contains(v) ==> v < n && visited@[v as int],
            forall|i: int| 0 <= i < finish_order.len() ==> #[trigger] finish_order[i] < n,
            finish_order@.no_duplicates(),
            successors_visited(adjacency@, visited@, finish_order@),
            forall|i: int|
                0 <= i < finish_order.len() ==> #[trigger] finished_closure(
                    adjacency@,
                    finish_order@.take(i + 1),
                ),
        decreases n - start,
    {
        if !visited[start] {
            proof {
                lemma_count_unset_set(visited@, start as int);
            }
            visited.set(start, true);
            let mut stack: Vec<(usize, usize)> = Vec::new();
            stack.push((start, 0));
            proof {
                assert(stack[0].0 == start);
                assert(!finish_order@.contains(start));
                assert(frame_nodes(stack@) =~= seq![start]);
                assert forall|v: usize| v < n && #[trigger] visited@[v as int] implies finish_order@.contains(v)
                    || frame_nodes(stack@).contains(v) by {
                    if v == start {
                        assert(frame_nodes(stack@)[0] == v);
                    }
                }
            }
            while stack.len() > 0
                invariant
                    n == adjacency.len(),
                    valid_adjacency(adjacency@, n as int),
                    visited.len() == n,
                    start < n,
                    visited[start as int],
                    forall|v: int| 0 <= v < start ==> visited[v],
                    forall|i: int|
                        0 <= i < stack.len() ==> (#[trigger] stack[i]).0 < n && visited[stack[i].0 as int]
                            && stack[i].1 <= adjacency[stack[i].0 as int]@.len(),
                    forall|i: int| 0 <= i < stack.len() ==> !finish_order@.contains(#[trigger] stack[i].0),
                    forall|i: int, j: int| 0 <= i < j < stack.len() ==> stack[i].0 != stack[j].0,
                    forall|i: int, q: int|
                        0 <= i < stack.len() && 0 <= q < stack[i].1 ==> #[trigger] visited@[adjacency@[stack[i].0 as int]@[q] as int],
                    forall|i: int, j: int|
                        0 <= i < j < stack.len() ==> #[trigger] reaches(adjacency@, stack[i].0, stack[j].0),
                    forall|v: usize|
                        v < n && #[trigger] visited@[v as int] ==> finish_order@.contains(v) || frame_nodes(stack@).contains(v),
                    forall|v: usize| #[trigger] finish_order@.contains(v) ==> v < n && visited@[v as int],
                    forall|i: int| 0 <= i < finish_order.len() ==> #[trigger] finish_order[i] < n,
                    finish_order@.no_duplicates(),
                    successors_visited(adjacency@, visited@, finish_order@),
                    forall|i: int|
                        0 <= i < finish_order.len() ==> #[trigger] finished_closure(
                            adjacency@,
                            finish_order@.take(i + 1),
                        ),
                decreases count_unset(visited@), stack_work(stack@, adjacency@),
            {
                let top = stack.len() - 1;
                let (node, next) = stack[top];
                if next < adjacency[node].len() {
                    let neighbor = adjacency[node][next];
                    let ghost before = stack@;
                    let ghost visited_before = visited@;
                    stack.set(top, (node, next + 1));
                    if !visited[neighbor] {
                        proof {
                            lemma_count_unset_set(visited@, neighbor as int);
                        }
                        visited.set(neighbor, true);
                        stack.push((neighbor, 0));
                        proof {
                            assert(!finish_order@.contains(neighbor));
                            assert(adjacency@[node as int]@.contains(neighbor)) by {
                                assert(adjacency@[node as int]@[next as int] == neighbor);
                            }
                            lemma_reaches_edge(adjacency@, node, neighbor);
                            assert forall|i: int, j: int| 0 <= i < j < stack.len() implies #[trigger] reaches(
                                adjacency@,
                                stack[i].0,
                                stack[j].0,
                            ) by {
                                if j < stack.len() - 1 {
                                    assert(stack[i].0 == before[i].0 && stack[j].0 == before[j].0);
                                } else if i < top {
                                    assert(stack[i].0 == before[i].0);
                                    assert(reaches(adjacency@, before[i].0, before[top as int].0));
                                    lemma_reaches_trans(adjacency@, before[i].0, node, neighbor);
                                }
                            }
                            assert forall|v: usize| v < n && #[trigger] visited@[v as int] implies finish_order@.contains(v)
                                || frame_nodes(stack@).contains(v) by {
                                if v == neighbor {
                                    assert(frame_nodes(stack@)[stack.len() - 1] == v);
                                } else if !finish_order@.contains(v) {
                                    assert(frame_nodes(before).contains(v));
                                    let i = choose|i: int| 0 <= i < frame_nodes(before).len() && frame_nodes(before)[i] == v;
                                    assert(frame_nodes(stack@)[i] == v);
                                }
                            }
                            assert forall|i: int, q: int|
                                0 <= i < stack.len() && 0 <= q < stack[i].1 implies #[trigger] visited@[adjacency@[stack[i].0 as int]@[q] as int] by {
                                if i < top {
                                    assert(stack[i] == before[i]);
                                    assert(visited_before[adjacency@[before[i].0 as int]@[q] as int]);
                                } else if i == top && q < next {
                                    assert(visited_before[adjacency@[before[top as int].0 as int]@[q] as int]);
                                }
                            }
                        }
                    } else {
                        proof {
                            assert(stack@.drop_last() =~= before.drop_last());
                            assert forall|v: usize| v < n && #[trigger] visited@[v as int] implies finish_order@.contains(v)
                                || frame_nodes(stack@).contains(v) by {
                                if !finish_order@.contains(v) {
                                    assert(frame_nodes(before).contains(v));
                                    let i = choose|i: int| 0 <= i < frame_nodes(before).len() && frame_nodes(before)[i] == v;
                                    assert(frame_nodes(stack@)[i] == v);
                                }
                            }
                            assert forall|i: int, q: int|
                                0 <= i < stack.len() && 0 <= q < stack[i].1 implies #[trigger] visited@[adjacency@[stack[i].0 as int]@[q] as int] by {
                                if i < top {
                                    assert(stack[i] == before[i]);
                                } else if q < next {
                                    assert(visited_before[adjacency@[before[top as int].0 as int]@[q] as int]);
                                }
                            }
                            assert forall|i: int, j: int| 0 <= i < j < stack.len() implies #[trigger] reaches(
                                adjacency@,
                                stack[i].0,
                                stack[j].0,
                            ) by {
                                assert(stack[i].0 == before[i].0 && stack[j].0 == before[j].0);
                            }
                        }
                    }
                } else {
                    let ghost before = stack@;
                    let ghost old_finish = finish_order@;
                    stack.pop();
                    finish_order.push(node);
                    proof {
                        assert(stack@ =~= before.drop_last());
                        assert(!old_finish.contains(node));
                        assert(finish_order@.no_duplicates()) by {
                            assert forall|i: int, j: int| 0 <= i < j < finish_order@.len() implies finish_order@[i]
                                != finish_order@[j] by {
                                if j == finish_order@.len() - 1 {
                                    assert(finish_order@[i] == old_finish[i]);
                                    assert(old_finish.contains(old_finish[i]));
                                }
                            }
                        }
                        assert forall|v: usize| #[trigger] finish_order@.contains(v) implies v < n && visited@[v as int] by {
                            if v != node {
                                let j = choose|j: int| 0 <= j < finish_order@.len() && finish_order@[j] == v;
                                assert(old_finish[j] == v);
                                assert(old_finish.contains(v));
                            }
                        }
                        assert(successors_visited(adjacency@, visited@, finish_order@)) by {
                            assert forall|i: int, k: int|
                                0 <= i < finish_order@.len() && 0 <= k < adjacency@[finish_order@[i] as int]@.len()
                                    implies #[trigger] visited@[adjacency@[finish_order@[i] as int]@[k] as int] by {
                                if i < old_finish.len() {
                                    assert(finish_order@[i] == old_finish[i]);
                                } else {
                                    assert(finish_order@[i] == node);
                                    assert(before[top as int].0 == node);
                                    assert(before[top as int].1 == adjacency@[node as int]@.len());
                                }
                            }
                        }
                        assert forall|v: usize| v < n && #[trigger] visited@[v as int] implies finish_order@.contains(v)
                            || frame_nodes(stack@).contains(v) by {
                            if v == node {
                                assert(finish_order@[finish_order.len() - 1] == node);
                            } else if old_finish.contains(v) {
                                let j = choose|j: int| 0 <= j < old_finish.len() && old_finish[j] == v;
                                assert(finish_order@[j] == v);
                            } else {
                                assert(frame_nodes(before).contains(v));
                                let i = choose|i: int| 0 <= i < frame_nodes(before).len() && frame_nodes(before)[i] == v;
                                assert(i != top);
                                assert(frame_nodes(stack@)[i] == v);
                            }
                        }
                        assert forall|g: usize| #[trigger] frame_nodes(stack@).contains(g) implies !finish_order@.contains(g)
                            && reaches(adjacency@, g, finish_order@.last()) by {
                            let i = choose|i: int| 0 <= i < frame_nodes(stack@).len() && frame_nodes(stack@)[i] == g;
                            assert(stack[i] == before[i]);
                            assert(reaches(adjacency@, before[i].0, before[top as int].0));
                            assert(g != node);
                            if finish_order@.contains(g) {
                                let j = choose|j: int| 0 <= j < finish_order@.len() && finish_order@[j] == g;
                                assert(old_finish[j] == g);
                                assert(old_finish.contains(g));
                            }
                        }
                        lemma_finish_closure(adjacency@, visited@, finish_order@, frame_nodes(stack@));
                        assert(finish_order@.take(finish_order@.len() as int) =~= finish_order@);
                        assert forall|i: int| 0 <= i < finish_order.len() implies #[trigger] finished_closure(
                            adjacency@,
                            finish_order@.take(i + 1),
                        ) by {
                            if i < old_finish.len() {
                                assert(finish_order@.take(i + 1) =~= old_finish.take(i + 1));
                            }
                        }
                        assert forall|i: int| 0 <= i < stack.len() implies !finish_order@.contains(#[trigger] stack[i].0) by {
                            assert(stack[i] == before[i]);
                            assert(stack[i].0 != node);
                            if finish_order@.contains(stack[i].0) {
                                let j = choose|j: int| 0 <= j < finish_order@.len() && finish_order@[j] == stack[i].0;
                                assert(old_finish[j] == stack[i].0);
                                assert(old_finish.contains(stack[i].0));
                            }
                        }
                    }
                }
            }
        }
        start = start + 1;
    }
    proof {
        assert forall|v: usize| v < n implies #[trigger] finish_order@.contains(v) by {
            assert(visited@[v as int]);
        }
    }
    finish_order
}

/// Every reverse edge `u -> w` leads to an assigned label no later than the
/// label of `u`.
pub open spec fn labels_respect_edges(labels: Seq<usize>, edges: Seq<Vec<usize>>) -> bool {
    forall|u: int, k: int|
        0 <= u < edges.len() && 0 <= k < edges[u]@.len() ==> labels[#[trigger] edges[u]@[k] as int]
            <= labels[u]
}

/// `reverse` lists, for each edge `a -> b` of `adjacency`, the node `a`
/// among the entries of `b`.
pub open spec fn lists_reversed(adjacency: Seq<Vec<usize>>, reverse: Seq<Vec<usize>>) -> bool {
    forall|a: int, k: int|
        0 <= a < adjacency.len() && 0 <= k < adjacency[a]@.len() ==> (#[trigger] adjacency[a]@[k])
            < reverse.len() && reverse[adjacency[a]@[k] as int]@.contains(a as usize)
}

/// `path` is a walk of nodes along the edges of `adjacency`.
pub open spec fn node_walk(adjacency: Seq<Vec<usize>>, path: Seq<usize>) -> bool {
    &&& path.len() >= 1
    &&& forall|i: int|
        0 <= i < path.len() - 1 ==> (#[trigger] path[i]) < adjacency.len() && adjacency[path[i] as int]@.contains(
            path[i + 1],
        )
}

/// Some walk along the edges of `adjacency` leads from `a` to `b`.
pub open spec fn reaches(adjacency: Seq<Vec<usize>>, a: usize, b: usize) -> bool {
    exists|path: Seq<usize>| #[trigger] node_walk(adjacency, path) && path[0] == a && path.last() == b
}

/// A node reaches itself, and an edge reaches its target.
proof fn lemma_reaches_self(adjacency: Seq<Vec<usize>>, a: usize)
    ensures
        reaches(adjacency, a, a),
{
    let path = seq![a];
    assert(node_walk(adjacency, path));
}

proof fn lemma_reaches_edge(adjacency: Seq<Vec<usize>>, a: usize, b: usize)
    requires
        a < adjacency.len(),
        adjacency[a as int]@.contains(b),
    ensures
        reaches(adjacency, a, b),
{
    let path = seq![a, b];
    assert(path[0] < adjacency.len() && adjacency[path[0] as int]@.contains(path[0int + 1]));
    assert(node_walk(adjacency, path));
}

/// Reaching is transitive.
proof fn lemma_reaches_trans(adjacency: Seq<Vec<usize>>, a: usize, b: usize, c: usize)
    requires
        reaches(adjacency, a, b),
        reaches(adjacency, b, c),
    ensures
        reaches(adjacency, a, c),
{
    let p = choose|path: Seq<usize>| #[trigger] node_walk(adjacency, path) && path[0] == a && path.last() == b;
    let q = choose|path: Seq<usize>| #[trigger] node_walk(adjacency, path) && path[0] == b && path.last() == c;
    let joined = p + q.drop_first();
    assert forall|i: int| 0 <= i < joined.len() - 1 implies (#[trigger] joined[i]) < adjacency.len()
        && adjacency[joined[i] as int]@.contains(joined[i + 1]) by {
        if i < p.len() - 1 {
            assert(joined[i] == p[i] && joined[i + 1] == p[i + 1]);
        } else if i == p.len() - 1 {
            assert(joined[i] == q[0]);
            assert(joined[i + 1] == q[1]);
            assert(q[0] < adjacency.len() && adjacency[q[0] as int]@.contains(q[0int + 1]));
        } else {
            let j = i - p.len() + 1;
            assert(joined[i] == q[j] && joined[i + 1] == q[j + 1]);
        }
    }
    if q.len() == 1 {
        assert(joined =~= p);
    }
    assert(node_walk(adjacency, joined));
}

/// The first `j + 1` nodes of a walk are a walk.
proof fn lemma_walk_prefix(adjacency: Seq<Vec<usize>>, path: Seq<usize>, j: int)
    requires
        node_walk(adjacency, path),
        0 <= j < path.len(),
    ensures
        node_walk(adjacency, path.take(j + 1)),
{
    let prefix = path.take(j + 1);
    assert forall|i: int| 0 <= i < prefix.len() - 1 implies (#[trigger] prefix[i]) < adjacency.len()
        && adjacency[prefix[i] as int]@.contains(prefix[i + 1]) by {
        assert(prefix[i] == path[i] && prefix[i + 1] == path[i + 1]);
    }
}

/// Labels that respect the reverse edges never decrease along a walk of
/// the forward edges.
proof fn lemma_labels_grow_along_walk(
    adjacency: Seq<Vec<usize>>,
    reverse: Seq<Vec<usize>>,
    labels: Seq<usize>,
    path: Seq<usize>,
    i: int,
)
    requires
        lists_reversed(adjacency, reverse),
        labels_respect_edges(labels, reverse),
        node_walk(adjacency, path),
        0 <= i < path.len(),
    ensures
        labels[path[0] as int] <= labels[path[i] as int],
    decreases i,
{
    if i > 0 {
        lemma_labels_grow_along_walk(adjacency, reverse, labels, path, i - 1);
        let a = path[i - 1];
        let b = path[i];
        assert(path[i - 1] < adjacency.len() && adjacency[a as int]@.contains(path[i - 1 + 1]));
        let k = choose|k: int| 0 <= k < adjacency[a as int]@.len() && adjacency[a as int]@[k] == b;
        assert(adjacency[a as int]@[k] < reverse.len());
        assert(reverse[b as int]@.contains(a));
        let q = choose|q: int| 0 <= q < reverse[b as int]@.len() && reverse[b as int]@[q] == a;
        assert(labels[reverse[b as int]@[q] as int] <= labels[b as int]);
    }
}

/// Nodes that reach each other share a component label: the labels of
/// `strongly_connected_components` respect the reverse edges, so they can
/// only grow along forward walks, and a walk each way pins them equal.
pub proof fn lemma_mutually_reachable_share_label(
    adjacency: Seq<Vec<usize>>,
    reverse: Seq<Vec<usize>>,
    labels: Seq<usize>,
    u: usize,
    v: usize,
)
    requires
        lists_reversed(adjacency, reverse),
        labels_respect_edges(labels, reverse),
        reaches(adjacency, u, v),
        reaches(adjacency, v, u),
    ensures
        labels[u as int] == labels[v as int],
{
    let p = choose|path: Seq<usize>| #[trigger] node_walk(adjacency, path) && path[0] == u && path.last() == v;
    let q = choose|path: Seq<usize>| #[trigger] node_walk(adjacency, path) && path[0] == v && path.last() == u;
    lemma_labels_grow_along_walk(adjacency, reverse, labels, p, p.len() - 1);
    lemma_labels_grow_along_walk(adjacency, reverse, labels, q, q.len() - 1);
}

/// `adjacency` and `reverse` list the same edges, each in the other
/// direction.
pub open spec fn mirrored(adjacency: Seq<Vec<usize>>, reverse: Seq<Vec<usize>>) -> bool {
    lists_reversed(adjacency, reverse) && lists_reversed(reverse, adjacency)
}

/// Each labelled node reaches the root of its label, and is reached from it.
#[verifier::opaque]
pub open spec fn label_links(adjacency: Seq<Vec<usize>>, labels: Seq<usize>, roots: Seq<int>) -> bool {
    forall|v: int|
        0 <= v < labels.len() && #[trigger] labels[v] != usize::MAX ==> reaches(
            adjacency,
            v as usize,
            roots[labels[v] as int] as usize,
        ) && reaches(adjacency, roots[labels[v] as int] as usize, v as usize)
}

/// What the first pass establishes of its finishing order.
pub open spec fn finish_order_facts(adjacency: Seq<Vec<usize>>, order: Seq<usize>) -> bool {
    &&& forall|i: int| 0 <= i < order.len() ==> #[trigger] order[i] < adjacency.len()
    &&& forall|v: usize| v < adjacency.len() ==> #[trigger] order.contains(v)
    &&& order.no_duplicates()
    &&& forall|i: int| 0 <= i < order.len() ==> #[trigger] finished_closure(adjacency, order.take(i + 1))
}

/// The labels taken when a search starts at `order[position]`: a node with a
/// labelled successor is labelled, and so is every node later in `order`.
pub open spec fn search_ready(
    adjacency: Seq<Vec<usize>>,
    order: Seq<usize>,
    snapshot: Seq<usize>,
    position: int,
) -> bool {
    &&& snapshot.len() == adjacency.len()
    &&& forall|a: int, k: int|
        0 <= a < adjacency.len() && 0 <= k < adjacency[a]@.len() && snapshot[#[trigger] adjacency[a]@[k] as int]
            != usize::MAX ==> snapshot[a] != usize::MAX
    &&& forall|j: int| position < j < order.len() ==> snapshot[#[trigger] order[j] as int] != usize::MAX
}

/// A node whose successor along `path` is labelled is labelled itself, back
/// to the start of the walk.
proof fn lemma_labelled_walk_start(
    adjacency: Seq<Vec<usize>>,
    order: Seq<usize>,
    snapshot: Seq<usize>,
    position: int,
    path: Seq<usize>,
    j: int,
)
    requires
        valid_adjacency(adjacency, adjacency.len() as int),
        search_ready(adjacency, order, snapshot, position),
        node_walk(adjacency, path),
        path.last() < adjacency.len(),
        snapshot[path.last() as int] != usize::MAX,
        0 <= j < path.len(),
    ensures
        snapshot[path[j] as int] != usize::MAX,
    decreases path.len() - j,
{
    if j < path.len() - 1 {
        lemma_labelled_walk_start(adjacency, order, snapshot, position, path, j + 1);
        let a = path[j];
        assert(a < adjacency.len() && adjacency[a as int]@.contains(path[j + 1]));
        let k = choose|k: int| 0 <= k < adjacency[a as int]@.len() && adjacency[a as int]@[k] == path[j + 1];
        assert(snapshot[adjacency[a as int]@[k] as int] != usize::MAX);
    }
}

/// The node that starts a search reaches every unlabelled node that reaches
/// it: among the unlabelled nodes it finished last, so any node finishing
/// earlier that reaches it shares a cycle with a node finishing later, and
/// following those nodes upward ends at the start of the search.
proof fn lemma_root_reaches(
    adjacency: Seq<Vec<usize>>,
    order: Seq<usize>,
    snapshot: Seq<usize>,
    position: int,
    i: int,
)
    requires
        valid_adjacency(adjacency, adjacency.len() as int),
        finish_order_facts(adjacency, order),
        search_ready(adjacency, order, snapshot, position),
        0 <= i <= position < order.len(),
        snapshot[order[i] as int] == usize::MAX,
        reaches(adjacency, order[i], order[position]),
    ensures
        reaches(adjacency, order[position], order[i]),
    decreases position - i,
{
    let v = order[i];
    let r = order[position];
    if i == position {
        lemma_reaches_self(adjacency, v);
    } else {
        let prefix = order.take(i + 1);
        assert(finished_closure(adjacency, prefix));
        assert(prefix.last() == v);
        if prefix.contains(r) {
            let j = choose|j: int| 0 <= j < prefix.len() && prefix[j] == r;
            assert(order[j] == order[position]);
        } else {
            let g = choose|g: usize|
                !prefix.contains(g) && reaches(adjacency, g, prefix.last()) && reaches(
                    adjacency,
                    prefix.last(),
                    g,
                );
            let walk = choose|path: Seq<usize>| #[trigger] node_walk(adjacency, path) && path[0] == g && path.last() == v;
            if walk.len() == 1 {
                assert(prefix[i] == v);
            }
            assert(walk[0] < adjacency.len());
            assert(order.contains(g));
            let j = choose|j: int| 0 <= j < order.len() && order[j] == g;
            if j <= i {
                assert(prefix[j] == g);
            }
            let back = choose|path: Seq<usize>| #[trigger] node_walk(adjacency, path) && path[0] == v && path.last() == g;
            if snapshot[g as int] != usize::MAX {
                lemma_labelled_walk_start(adjacency, order, snapshot, position, back, 0);
            }
            if j > position {
                assert(snapshot[order[j] as int] != usize::MAX);
            }
            lemma_reaches_trans(adjacency, g, v, r);
            lemma_root_reaches(adjacency, order, snapshot, position, j);
            lemma_reaches_trans(adjacency, r, g, v);
        }
    }
}

/// Giving `w` the label `c` keeps each label linked to its root when `w`
/// and that root reach each other.
proof fn lemma_links_after_label(
    adjacency: Seq<Vec<usize>>,
    labels: Seq<usize>,
    roots: Seq<int>,
    w: int,
    c: usize,
)
    requires
        label_links(adjacency, labels, roots),
        0 <= w < labels.len(),
        c != usize::MAX,
        reaches(adjacency, w as usize, roots[c as int] as usize),
        reaches(adjacency, roots[c as int] as usize, w as usize),
    ensures
        label_links(adjacency, labels.update(w, c), roots),
{
    reveal(label_links);
    let updated = labels.update(w, c);
    assert forall|v: int| 0 <= v < updated.len() && #[trigger] updated[v] != usize::MAX implies reaches(
        adjacency,
        v as usize,
        roots[updated[v] as int] as usize,
    ) && reaches(adjacency, roots[updated[v] as int] as usize, v as usize) by {
        if v != w {
            assert(labels[v] == updated[v]);
        }
    }
}

/// Adding a root leaves the roots of the labels in use unchanged.
proof fn lemma_links_new_root(adjacency: Seq<Vec<usize>>, labels: Seq<usize>, roots: Seq<int>, root: int)
    requires
        label_links(adjacency, labels, roots),
        forall|v: int| 0 <= v < labels.len() ==> #[trigger] labels[v] == usize::MAX || labels[v] < roots.len(),
    ensures
        label_links(adjacency, labels, roots.push(root)),
{
    reveal(label_links);
    assert forall|v: int| 0 <= v < labels.len() && #[trigger] labels[v] != usize::MAX implies reaches(
        adjacency,
        v as usize,
        roots.push(root)[labels[v] as int] as usize,
    ) && reaches(adjacency, roots.push(root)[labels[v] as int] as usize, v as usize) by {
        assert(roots.push(root)[labels[v] as int] == roots[labels[v] as int]);
    }
}

/// A labelled node and the root of its label reach each other.
proof fn lemma_links_at(adjacency: Seq<Vec<usize>>, labels: Seq<usize>, roots: Seq<int>, v: int)
    requires
        label_links(adjacency, labels, roots),
        0 <= v < labels.len(),
        labels[v] != usize::MAX,
    ensures
        reaches(adjacency, v as usize, roots[labels[v] as int] as usize),
        reaches(adjacency, roots[labels[v] as int] as usize, v as usize),
{
    reveal(label_links);
}

/// Strongly connected components by two depth-first passes: a finishing
/// order over `adjacency`, then labelling over `reverse` in reverse finishing
/// order. Labels are assigned `0, 1, 2, ...` in that order.
pub fn strongly_connected_components(adjacency: &[Vec<usize>], reverse: &[Vec<usize>]) -> (components: Vec<usize>)
    requires
        reverse.len() == adjacency.len(),
        valid_adjacency(adjacency@, adjacency.len() as int),
        valid_adjacency(reverse@, adjacency.len() as int),
    ensures
        components.len() == adjacency.len(),
        forall|v: int| 0 <= v < components.len() ==> #[trigger] components[v] < adjacency.len(),
        labels_respect_edges(components@, reverse@),
        mirrored(adjacency@, reverse@) ==> forall|u: usize, v: usize|
            #![trigger components@[u as int], components@[v as int]]
            u < adjacency.len() && v < adjacency.len() ==> (components@[u as int] == components@[v as int]
                <==> (reaches(adjacency@, u, v) && reaches(adjacency@, v, u))),
{
    let n = adjacency.len();
    let ghost is_mirrored = mirrored(adjacency@, reverse@);
    let order = depth_first_finish_order(adjacency);
    let mut components: Vec<usize> = Vec::with_capacity(n);
    let mut fill: usize = 0;
    while fill < n
        invariant
            fill <= n,
            components.len() == fill,
            forall|v: int| 0 <= v < fill ==> components[v] == usize::MAX,
        decreases n - fill,
    {
        components.push(usize::MAX);
        fill = fill + 1;
    }
    let mut component: usize = 0;
    let ghost mut roots: Seq<int> = Seq::empty();
    let mut position = order.len();
    proof {
        reveal(label_links);
    }
    while position > 0
        invariant
            n == adjacency.len(),
            reverse.len() == n,
            valid_adjacency(reverse@, n as int),
            components.len() == n,
            position <= order.len(),
            valid_adjacency(adjacency@, n as int),
            finish_order_facts(adjacency@, order@),
            is_mirrored == mirrored(adjacency@, reverse@),
            is_mirrored ==> label_links(adjacency@, components@, roots),
            component == roots.len(),
            roots.no_duplicates(),
            forall|i: int| 0 <= i < roots.len() ==> 0 <= #[trigger] roots[i] < n,
            forall|i: int| 0 <= i < roots.len() ==> components[#[trigger] roots[i]] == i,
            forall|v: int|
                0 <= v < n ==> #[trigger] components[v] == usize::MAX || components[v] < component,
            forall|j: int|
                position <= j < order.len() ==> components[#[trigger] order[j] as int] != usize::MAX,
            forall|u: int, k: int|
                0 <= u < n && components[u] != usize::MAX && 0 <= k < reverse[u]@.len()
                    ==> components[#[trigger] reverse[u]@[k] as int] != usize::MAX
                    && components[reverse[u]@[k] as int] <= components[u],
        decreases position,
    {
        position = position - 1;
        let start = order[position];
        if components[start] == usize::MAX {
            proof {
                let extended = roots.push(start as int);
                assert forall|i: int| 0 <= i < extended.len() implies 0 <= #[trigger] extended[i]
                    < n by {
                    if i < roots.len() {
                        assert(extended[i] == roots[i]);
                    }
                }
                assert(!roots.contains(start as int)) by {
                    if roots.contains(start as int) {
                        let i = choose|i: int| 0 <= i < roots.len() && roots[i] == start as int;
                        assert(components[roots[i]] == i);
                    }
                }
                assert(extended.no_duplicates()) by {
                    assert forall|i: int, j: int|
                        0 <= i < extended.len() && 0 <= j < extended.len() && i != j implies
                        extended[i] != extended[j] by {
                        if i < roots.len() && j < roots.len() {
                            assert(extended[i] == roots[i] && extended[j] == roots[j]);
                        } else if i < roots.len() {
                            assert(extended[i] == roots[i]);
                        } else if j < roots.len() {
                            assert(extended[j] == roots[j]);
                        }
                    }
                }
                lemma_distinct_bounded(extended, n as int);
            }
            let ghost snapshot = components@;
            proof {
                if is_mirrored {
                    lemma_links_new_root(adjacency@, components@, roots, start as int);
                    assert(search_ready(adjacency@, order@, snapshot, position as int)) by {
                        assert forall|a: int, k: int|
                            0 <= a < n && 0 <= k < adjacency@[a]@.len() && snapshot[#[trigger] adjacency@[a]@[k] as int]
                                != usize::MAX implies snapshot[a] != usize::MAX by {
                            let b = adjacency@[a]@[k];
                            assert(b < reverse.len() && reverse@[b as int]@.contains(a as usize));
                            let q = choose|q: int| 0 <= q < reverse@[b as int]@.len() && reverse@[b as int]@[q] == a as usize;
                            assert(components[reverse@[b as int]@[q] as int] != usize::MAX);
                        }
                    }
                }
            }
            components.set(start, component);
            proof {
                roots = roots.push(start as int);
                if is_mirrored {
                    lemma_reaches_self(adjacency@, start);
                    lemma_links_after_label(adjacency@, snapshot, roots, start as int, component);
                }
            }
            let mut stack: Vec<usize> = Vec::new();
            stack.push(start);
            proof {
                assert(stack@[0] == start);
                assert forall|x: usize| #[trigger] stack@.contains(x) implies x == start by {}
                assert forall|u: int, k: int|
                    0 <= u < n && components[u] != usize::MAX && !stack@.contains(u as usize) && 0
                        <= k < reverse[u]@.len() implies components[#[trigger] reverse[u]@[k] as int]
                    != usize::MAX && components[reverse[u]@[k] as int] <= components[u] by {
                    assert(u != start);
                }
            }
            while stack.len() > 0
                invariant
                    n == adjacency.len(),
                    reverse.len() == n,
                    valid_adjacency(reverse@, n as int),
                    components.len() == n,
                    component < n,
                    component + 1 == roots.len(),
                    forall|i: int| 0 <= i < roots.len() ==> 0 <= #[trigger] roots[i] < n,
                    valid_adjacency(adjacency@, n as int),
                    finish_order_facts(adjacency@, order@),
                    is_mirrored == mirrored(adjacency@, reverse@),
                    is_mirrored ==> search_ready(adjacency@, order@, snapshot, position as int),
                    is_mirrored ==> label_links(adjacency@, components@, roots),
                    position < order.len(),
                    roots[component as int] == order[position as int] as int,
                    forall|v: int| 0 <= v < n && #[trigger] components[v] == usize::MAX ==> snapshot[v] == usize::MAX,
                    forall|i: int| 0 <= i < roots.len() ==> components[#[trigger] roots[i]] == i,
                    forall|v: int|
                        0 <= v < n ==> #[trigger] components[v] == usize::MAX || components[v]
                            <= component,
                    forall|i: int|
                        0 <= i < stack.len() ==> #[trigger] stack[i] < n && components[stack[i] as int]
                            == component,
                    stack@.no_duplicates(),
                    forall|j: int|
                        position <= j < order.len() ==> components[#[trigger] order[j] as int]
                            != usize::MAX,
                    forall|u: int, k: int|
                        0 <= u < n && components[u] != usize::MAX && !stack@.contains(u as usize)
                            && 0 <= k < reverse[u]@.len() ==> components[#[trigger] reverse[u]@[k] as int]
                            != usize::MAX && components[reverse[u]@[k] as int] <= components[u],
                decreases count_equal(components@, usize::MAX), stack.len(),
            {
                let node = stack[stack.len() - 1];
                let ghost before = stack@;
                stack.pop();
                proof {
                    assert(stack@ =~= before.drop_last());
                    assert forall|x: usize| before.contains(x) && x != node implies #[trigger] stack@.contains(x) by {
                        let i = choose|i: int| 0 <= i < before.len() && before[i] == x;
                        assert(i != before.len() - 1);
                        assert(stack@[i] == x);
                    }
                    assert(!stack@.contains(node)) by {
                        if stack@.contains(node) {
                            let i = choose|i: int| 0 <= i < stack@.len() && stack@[i] == node;
                            assert(before[i] == before[before.len() - 1]);
                        }
                    }
                }
                let ghost count_before = count_equal(components@, usize::MAX);
                let neighbors = &reverse[node];
                let mut k: usize = 0;
                while k < neighbors.len()
                    invariant
                        n == adjacency.len(),
                        reverse.len() == n,
                        valid_adjacency(reverse@, n as int),
                        node < n,
                        neighbors@ == reverse@[node as int]@,
                        k <= neighbors.len(),
                        components.len() == n,
                        component < n,
                        components[node as int] == component,
                        !stack@.contains(node),
                        component + 1 == roots.len(),
                        forall|i: int| 0 <= i < roots.len() ==> 0 <= #[trigger] roots[i] < n,
                        valid_adjacency(adjacency@, n as int),
                        finish_order_facts(adjacency@, order@),
                        is_mirrored == mirrored(adjacency@, reverse@),
                        is_mirrored ==> search_ready(adjacency@, order@, snapshot, position as int),
                        is_mirrored ==> label_links(adjacency@, components@, roots),
                        position < order.len(),
                        roots[component as int] == order[position as int] as int,
                        forall|v: int| 0 <= v < n && #[trigger] components[v] == usize::MAX ==> snapshot[v] == usize::MAX,
                        count_equal(components@, usize::MAX) + stack.len() <= count_before
                            + before.len() - 1,
                        count_equal(components@, usize::MAX) <= count_before,
                        before.len() >= 1,
                        forall|i: int| 0 <= i < roots.len() ==> components[#[trigger] roots[i]] == i,
                        forall|v: int|
                            0 <= v < n ==> #[trigger] components[v] == usize::MAX || components[v]
                                <= component,
                        forall|i: int|
                            0 <= i < stack.len() ==> #[trigger] stack[i] < n && components[stack[i] as int]
                                == component,
                        stack@.no_duplicates(),
                        forall|j: int|
                            position <= j < order.len() ==> components[#[trigger] order[j] as int]
                                != usize::MAX,
                        forall|q: int|
                            0 <= q < k ==> components[#[trigger] neighbors@[q] as int] != usize::MAX
                                && components[neighbors@[q] as int] <= component,
                        forall|u: int, k2: int|
                            0 <= u < n && u != node && components[u] != usize::MAX && !stack@.contains(
                                u as usize,
                            ) && 0 <= k2 < reverse[u]@.len() ==> components[#[trigger] reverse[u]@[k2] as int]
                                != usize::MAX && components[reverse[u]@[k2] as int] <= components[u],
                    decreases neighbors.len() - k,
                {
                    let neighbor = neighbors[k];
                    proof {
                        assert(reverse@[node as int]@[k as int] == neighbor);
                    }
                    if components[neighbor] == usize::MAX {
                        proof {
                            lemma_count_equal_set(components@, neighbor as int, usize::MAX, component);
                            assert(!stack@.contains(neighbor)) by {
                                if stack@.contains(neighbor) {
                                    let i = choose|i: int| 0 <= i < stack@.len() && stack@[i] == neighbor;
                                    assert(components[stack[i] as int] == component);
                                }
                            }
                        }
                        let ghost labels_before = components@;
                        proof {
                            if is_mirrored {
                                assert(reverse@[node as int]@[k as int] < adjacency.len()
                                    && adjacency@[reverse@[node as int]@[k as int] as int]@.contains(node));
                                lemma_reaches_edge(adjacency@, neighbor, node);
                                lemma_links_at(adjacency@, components@, roots, node as int);
                                lemma_reaches_trans(adjacency@, neighbor, node, order@[position as int]);
                                assert(order@.contains(neighbor));
                                let i = choose|i: int| 0 <= i < order.len() && order@[i] == neighbor;
                                if i > position {
                                    assert(snapshot[order[i] as int] != usize::MAX);
                                }
                                lemma_root_reaches(adjacency@, order@, snapshot, position as int, i);
                                lemma_links_after_label(adjacency@, components@, roots, neighbor as int, component);
                            }
                        }
                        components.set(neighbor, component);
                        proof {
                            assert forall|i: int| 0 <= i < roots.len() implies components[#[trigger] roots[i]] == i by {
                                assert(labels_before[roots[i]] == i);
                                assert(components@ == labels_before.update(neighbor as int, component));
                                if roots[i] == neighbor as int {
                                    assert(labels_before[neighbor as int] == usize::MAX);
                                    assert(false);
                                }
                            }
                            assert forall|j: int|
                                position <= j < order.len() implies components[#[trigger] order[j] as int]
                                != usize::MAX by {
                                assert(labels_before[order[j] as int] != usize::MAX);
                                assert(components@ == labels_before.update(neighbor as int, component));
                            }
                        }
                        let ghost middle = stack@;
                        stack.push(neighbor);
                        proof {
                            assert(stack@.drop_last() =~= middle);
                            assert forall|x: usize| #[trigger] stack@.contains(x) && x != neighbor
                                implies middle.contains(x) by {
                                let i = choose|i: int| 0 <= i < stack@.len() && stack@[i] == x;
                                assert(middle[i] == x);
                            }
                            assert(stack@[stack@.len() - 1] == neighbor);
                            assert forall|u: int, k2: int|
                                0 <= u < n && u != node && components[u] != usize::MAX
                                    && !stack@.contains(u as usize) && 0 <= k2 < reverse[u]@.len()
                                implies components[#[trigger] reverse[u]@[k2] as int] != usize::MAX
                                && components[reverse[u]@[k2] as int] <= components[u] by {
                                assert(u != neighbor as int);
                                assert(!middle.contains(u as usize)) by {
                                    if middle.contains(u as usize) {
                                        let i = choose|i: int| 0 <= i < middle.len() && middle[i] == u as usize;
                                        assert(stack@[i] == u as usize);
                                    }
                                }
                                assert(labels_before[u] != usize::MAX);
                                let w = reverse[u]@[k2];
                                assert(labels_before[w as int] != usize::MAX);
                            }
                            assert(stack@.no_duplicates()) by {
                                assert forall|i: int, j: int|
                                    0 <= i < stack@.len() && 0 <= j < stack@.len() && i != j implies
                                    stack@[i] != stack@[j] by {
                                    if i < middle.len() && j < middle.len() {
                                    } else if i < middle.len() {
                                        assert(middle.contains(stack@[i]));
                                    } else if j < middle.len() {
                                        assert(middle.contains(stack@[j]));
                                    }
                                }
                            }
                        }
                    }
                    k = k + 1;
                }
                proof {
                    assert forall|u: int, k2: int|
                        0 <= u < n && components[u] != usize::MAX && !stack@.contains(u as usize) && 0
                            <= k2 < reverse[u]@.len() implies components[#[trigger] reverse[u]@[k2] as int]
                        != usize::MAX && components[reverse[u]@[k2] as int] <= components[u] by {
                        if u == node {
                            assert(neighbors@[k2] == reverse[u]@[k2]);
                        }
                    }
                }
            }
            component = component + 1;
        }
    }
    proof {
        lemma_distinct_bounded(roots, n as int);
        assert forall|v: int| 0 <= v < components.len() implies #[trigger] components[v] < n by {
            assert(order@.contains(v as usize));
            let j = choose|j: int| 0 <= j < order.len() && order@[j] == v as usize;
            assert(components[order[j] as int] != usize::MAX);
        }
        if is_mirrored {
            assert forall|u: usize, v: usize|
                #![trigger components@[u as int], components@[v as int]]
                u < n && v < n implies (components@[u as int] == components@[v as int] <==> (reaches(
                    adjacency@,
                    u,
                    v,
                ) && reaches(adjacency@, v, u))) by {
                if components@[u as int] == components@[v as int] {
                    lemma_links_at(adjacency@, components@, roots, u as int);
                    lemma_links_at(adjacency@, components@, roots, v as int);
                    let root = roots[components@[u as int] as int] as usize;
                    lemma_reaches_trans(adjacency@, u, root, v);
                    lemma_reaches_trans(adjacency@, v, root, u);
                }
                if reaches(adjacency@, u, v) && reaches(adjacency@, v, u) {
                    lemma_mutually_reachable_share_label(adjacency@, reverse@, components@, u, v);
                }
            }
        }
    }
    components
}

/// One hard affine relation between two value nodes: the value at `to`
/// exceeds the value at `from` by at least `minimum_difference`.
#[derive(Debug)]
pub struct AffineValueEdge {
    /// Index of the node the difference is measured from.
    pub from: usize,
    /// Index of the node the difference is measured to.
    pub to: usize,
    /// The exact lower bound on `value(to) - value(from)`.
    pub minimum_difference: ExactDyadic,
    /// Whether the relation comes from a field-separation interval or a
    /// point-to-level-set relation, the inputs whose cycles are examined.
    pub separation_source: bool,
}

/// Every edge names one of `n` nodes.
pub open spec fn edges_within(edges: Seq<AffineValueEdge>, n: int) -> bool {
    forall|e: int| 0 <= e < edges.len() ==> #[trigger] edges[e].from < n && edges[e].to < n
}

/// `cycle` lists the edges of a closed walk in reverse order: each listed
/// edge ends at the node where the previously listed edge starts, and the
/// first listed edge ends where the last listed edge starts.
pub open spec fn is_closed_walk(edges: Seq<AffineValueEdge>, cycle: Seq<usize>) -> bool {
    &&& cycle.len() > 0
    &&& forall|i: int| 0 <= i < cycle.len() ==> #[trigger] cycle[i] < edges.len()
    &&& forall|i: int|
        0 <= i < cycle.len() - 1 ==> edges[#[trigger] cycle[i] as int].from == edges[cycle[i
            + 1] as int].to
    &&& edges[cycle.last() as int].from == edges[cycle[0] as int].to
}

/// The exact sum of the minimum differences along `cycle`.
pub open spec fn walk_weight(edges: Seq<AffineValueEdge>, cycle: Seq<usize>) -> int
    decreases cycle.len(),
{
    if cycle.len() == 0 {
        0
    } else {
        walk_weight(edges, cycle.drop_last()) + edges[cycle.last() as int].minimum_difference.value()
    }
}

/// Every edge of `edges` is listed in `adjacency` under the node it leaves.
pub open spec fn lists_edges(edges: Seq<AffineValueEdge>, adjacency: Seq<Vec<usize>>) -> bool {
    forall|e: int|
        0 <= e < edges.len() ==> #[trigger] edges[e].from < adjacency.len() && adjacency[edges[e].from as int]@.contains(
            edges[e].to,
        )
}

/// `c` shares a node with the closed walk `other`, and `other` holds a
/// relation that comes from a separation source.
pub open spec fn meets_separation_cycle(edges: Seq<AffineValueEdge>, c: Seq<usize>, other: Seq<usize>) -> bool {
    &&& is_closed_walk(edges, other)
    &&& exists|i: int| 0 <= i < other.len() && #[trigger] edges[other[i] as int].separation_source
    &&& exists|j: int, k: int|
        0 <= j < other.len() && 0 <= k < c.len() && #[trigger] edges[other[j] as int].to
            == #[trigger] edges[c[k] as int].to
}

/// Along a closed walk, the end of a later listed edge reaches the end of an
/// earlier one.
proof fn lemma_closed_walk_descends(
    edges: Seq<AffineValueEdge>,
    adjacency: Seq<Vec<usize>>,
    c: Seq<usize>,
    a: int,
    b: int,
)
    requires
        lists_edges(edges, adjacency),
        is_closed_walk(edges, c),
        0 <= b <= a < c.len(),
    ensures
        reaches(adjacency, edges[c[a] as int].to, edges[c[b] as int].to),
    decreases a - b,
{
    if a == b {
        lemma_reaches_self(adjacency, edges[c[a] as int].to);
    } else {
        lemma_closed_walk_descends(edges, adjacency, c, a, b + 1);
        let e = c[b];
        assert(e < edges.len());
        assert(edges[c[b] as int].from == edges[c[b + 1] as int].to);
        assert(edges[e as int].from < adjacency.len() && adjacency[edges[e as int].from as int]@.contains(
            edges[e as int].to,
        ));
        lemma_reaches_edge(adjacency, edges[e as int].from, edges[e as int].to);
        lemma_reaches_trans(
            adjacency,
            edges[c[a] as int].to,
            edges[c[b + 1] as int].to,
            edges[c[b] as int].to,
        );
    }
}

/// The ends of any two edges of a closed walk reach each other.
proof fn lemma_closed_walk_connected(
    edges: Seq<AffineValueEdge>,
    adjacency: Seq<Vec<usize>>,
    c: Seq<usize>,
    a: int,
    b: int,
)
    requires
        lists_edges(edges, adjacency),
        is_closed_walk(edges, c),
        0 <= a < c.len(),
        0 <= b < c.len(),
    ensures
        reaches(adjacency, edges[c[a] as int].to, edges[c[b] as int].to),
{
    if a >= b {
        lemma_closed_walk_descends(edges, adjacency, c, a, b);
    } else {
        let l = c.len() - 1;
        lemma_closed_walk_descends(edges, adjacency, c, a, 0);
        let e = c[l];
        assert(e < edges.len());
        assert(edges[e as int].from < adjacency.len() && adjacency[edges[e as int].from as int]@.contains(
            edges[e as int].to,
        ));
        lemma_reaches_edge(adjacency, edges[e as int].from, edges[e as int].to);
        lemma_closed_walk_descends(edges, adjacency, c, l, b);
        lemma_reaches_trans(adjacency, edges[c[a] as int].to, edges[c[0] as int].to, edges[c[l] as int].to);
        lemma_reaches_trans(adjacency, edges[c[a] as int].to, edges[c[l] as int].to, edges[c[b] as int].to);
    }
}

/// The edge of a closed walk listed after `m` ends where edge `m` starts.
proof fn lemma_closed_walk_start(edges: Seq<AffineValueEdge>, c: Seq<usize>, m: int) -> (next: int)
    requires
        is_closed_walk(edges, c),
        0 <= m < c.len(),
    ensures
        0 <= next < c.len(),
        edges[c[m] as int].from == edges[c[next] as int].to,
{
    if m < c.len() - 1 {
        m + 1
    } else {
        0
    }
}

/// A positive closed walk that meets a closed walk holding a separation
/// relation lies, with that relation, in one strongly connected component,
/// so all its edges are proof edges.
proof fn lemma_separated_cycle_is_proof_chain(
    edges: Seq<AffineValueEdge>,
    adjacency: Seq<Vec<usize>>,
    components: Seq<usize>,
    proof: Seq<usize>,
)
    requires
        edges_within(edges, adjacency.len() as int),
        lists_edges(edges, adjacency),
        components.len() == adjacency.len(),
        forall|u: usize, v: usize|
            #![trigger components[u as int], components[v as int]]
            u < adjacency.len() && v < adjacency.len() ==> (components[u as int] == components[v as int]
                <==> (reaches(adjacency, u, v) && reaches(adjacency, v, u))),
        forall|e: int, s: int|
            0 <= e < edges.len() && 0 <= s < edges.len() && (#[trigger] edges[s]).separation_source
                && components[edges[s].from as int] == components[edges[s].to as int]
                && components[(#[trigger] edges[e]).from as int] == components[edges[s].from as int]
                && components[edges[e].to as int] == components[edges[s].from as int] ==> proof.contains(
                e as usize,
            ),
        exists|c: Seq<usize>, other: Seq<usize>|
            is_closed_walk(edges, c) && walk_weight(edges, c) > 0 && meets_separation_cycle(edges, c, other),
    ensures
        exists|c: Seq<usize>|
            #[trigger] proof_chain(edges, proof, c) && c.len() >= 1 && edges[c.last() as int].from
                == edges[c[0] as int].to && walk_weight(edges, c) > 0,
{
    let n = adjacency.len();
    let (c, other) = choose|c: Seq<usize>, other: Seq<usize>|
        is_closed_walk(edges, c) && walk_weight(edges, c) > 0 && meets_separation_cycle(edges, c, other);
    let i = choose|i: int| 0 <= i < other.len() && #[trigger] edges[other[i] as int].separation_source;
    let (j, k) = choose|j: int, k: int|
        0 <= j < other.len() && 0 <= k < c.len() && #[trigger] edges[other[j] as int].to == #[trigger] edges[c[k]
            as int].to;
    assert(c[k] < edges.len());
    assert(edges[c[k] as int].from < n);
    let hub = edges[c[k] as int].to;
    let key = components[hub as int];
    assert forall|m: int| 0 <= m < c.len() implies components[edges[#[trigger] c[m] as int].to as int] == key
        && components[edges[c[m] as int].from as int] == key by {
        let next = lemma_closed_walk_start(edges, c, m);
        assert(c[m] < edges.len() && c[next] < edges.len());
        assert(edges[c[m] as int].from < n && edges[c[next] as int].from < n);
        lemma_closed_walk_connected(edges, adjacency, c, m, k);
        lemma_closed_walk_connected(edges, adjacency, c, k, m);
        lemma_closed_walk_connected(edges, adjacency, c, next, k);
        lemma_closed_walk_connected(edges, adjacency, c, k, next);
        assert(components[edges[c[m] as int].to as int] == components[hub as int]);
        assert(components[edges[c[next] as int].to as int] == components[hub as int]);
    }
    let next = lemma_closed_walk_start(edges, other, i);
    assert(other[i] < edges.len() && other[j] < edges.len() && other[next] < edges.len());
    assert(edges[other[i] as int].from < n && edges[other[j] as int].from < n && edges[other[next] as int].from < n);
    lemma_closed_walk_connected(edges, adjacency, other, i, j);
    lemma_closed_walk_connected(edges, adjacency, other, j, i);
    lemma_closed_walk_connected(edges, adjacency, other, next, j);
    lemma_closed_walk_connected(edges, adjacency, other, j, next);
    assert(components[edges[other[i] as int].to as int] == components[hub as int]);
    assert(components[edges[other[next] as int].to as int] == components[hub as int]);
    let s = other[i] as int;
    assert(edges[s].separation_source);
    assert(proof_chain(edges, proof, c)) by {
        assert forall|m: int| 0 <= m < c.len() implies #[trigger] c[m] < edges.len() && proof.contains(c[m]) by {
            assert(components[edges[c[m] as int].to as int] == key);
            assert(components[(edges[c[m] as int]).from as int] == key);
            assert(c[m] as int == c[m] as usize as int);
        }
    }
}

/// Some edge of `edges` leads from node `a` to node `b`.
pub open spec fn joined(edges: Seq<AffineValueEdge>, a: usize, b: usize) -> bool {
    exists|e: int| 0 <= e < edges.len() && #[trigger] edges[e].from == a && edges[e].to == b
}

/// `path` is a walk of nodes along `edges`.
pub open spec fn edge_walk(edges: Seq<AffineValueEdge>, path: Seq<usize>) -> bool {
    &&& path.len() >= 1
    &&& forall|i: int| 0 <= i < path.len() - 1 ==> #[trigger] joined(edges, path[i], path[i + 1])
}

/// Some walk along `edges` leads from `a` to `b`.
pub open spec fn edge_reaches(edges: Seq<AffineValueEdge>, a: usize, b: usize) -> bool {
    exists|path: Seq<usize>| #[trigger] edge_walk(edges, path) && path[0] == a && path.last() == b
}

/// Nodes `a` and `b` reach each other along `edges`.
pub open spec fn linked(edges: Seq<AffineValueEdge>, a: usize, b: usize) -> bool {
    edge_reaches(edges, a, b) && edge_reaches(edges, b, a)
}

/// Both ends of edge `e` reach, and are reached from, both ends of an edge
/// from a separation source: `e` lies in a strongly connected component
/// that holds such an edge.
pub open spec fn in_separated_component(edges: Seq<AffineValueEdge>, e: int) -> bool {
    exists|s: int|
        0 <= s < edges.len() && #[trigger] edges[s].separation_source && linked(edges, edges[s].from, edges[s].to)
            && linked(edges, edges[e].from, edges[s].from) && linked(edges, edges[e].to, edges[s].from)
}

/// Every edge of `c` lies in a strongly connected component that holds an
/// edge from a separation source.
#[verifier::opaque]
pub open spec fn within_separated_components(edges: Seq<AffineValueEdge>, c: Seq<usize>) -> bool {
    forall|m: int| 0 <= m < c.len() ==> #[trigger] in_separated_component(edges, c[m] as int)
}

/// Every entry of `adjacency` stands for an edge of `edges`.
pub open spec fn adjacency_from_edges(edges: Seq<AffineValueEdge>, adjacency: Seq<Vec<usize>>) -> bool {
    forall|a: int, k: int|
        0 <= a < adjacency.len() && 0 <= k < adjacency[a]@.len() ==> joined(edges, a as usize, #[trigger] adjacency[a]@[k])
}

/// A walk along adjacency lists built from `edges` is a walk along `edges`.
proof fn lemma_reaches_along_edges(edges: Seq<AffineValueEdge>, adjacency: Seq<Vec<usize>>, a: usize, b: usize)
    requires
        adjacency_from_edges(edges, adjacency),
        reaches(adjacency, a, b),
    ensures
        edge_reaches(edges, a, b),
{
    let path = choose|path: Seq<usize>| #[trigger] node_walk(adjacency, path) && path[0] == a && path.last() == b;
    assert forall|i: int| 0 <= i < path.len() - 1 implies #[trigger] joined(edges, path[i], path[i + 1]) by {
        assert(path[i] < adjacency.len() && adjacency[path[i] as int]@.contains(path[i + 1]));
        let k = choose|k: int| 0 <= k < adjacency[path[i] as int]@.len() && adjacency[path[i] as int]@[k] == path[i + 1];
        assert(joined(edges, path[i] as int as usize, adjacency[path[i] as int]@[k]));
    }
    assert(edge_walk(edges, path));
}

/// Adjacency lists of `n` nodes for `edges`, forward and reverse.
fn edge_adjacency(edges: &[AffineValueEdge], n: usize) -> (lists: (Vec<Vec<usize>>, Vec<Vec<usize>>))
    requires
        edges_within(edges@, n as int),
    ensures
        lists.0.len() == n,
        lists.1.len() == n,
        valid_adjacency(lists.0@, n as int),
        valid_adjacency(lists.1@, n as int),
        lists_edges(edges@, lists.0@),
        mirrored(lists.0@, lists.1@),
        adjacency_from_edges(edges@, lists.0@),
{
    let mut adjacency: Vec<Vec<usize>> = Vec::with_capacity(n);
    let mut reverse_adjacency: Vec<Vec<usize>> = Vec::with_capacity(n);
    let mut fill: usize = 0;
    while fill < n
        invariant
            fill <= n,
            adjacency.len() == fill,
            reverse_adjacency.len() == fill,
            forall|u: int| 0 <= u < fill ==> adjacency[u]@.len() == 0,
            forall|u: int| 0 <= u < fill ==> reverse_adjacency[u]@.len() == 0,
        decreases n - fill,
    {
        adjacency.push(Vec::new());
        reverse_adjacency.push(Vec::new());
        fill = fill + 1;
    }
    let ghost mut forward_sources: Seq<Seq<int>> = Seq::new(n as nat, |a: int| Seq::<int>::empty());
    let ghost mut backward_sources: Seq<Seq<int>> = Seq::new(n as nat, |b: int| Seq::<int>::empty());
    let mut index: usize = 0;
    while index < edges.len()
        invariant
            edges_within(edges@, n as int),
            index <= edges.len(),
            adjacency.len() == n,
            reverse_adjacency.len() == n,
            valid_adjacency(adjacency@, n as int),
            valid_adjacency(reverse_adjacency@, n as int),
            forall|e: int|
                0 <= e < index ==> adjacency@[(#[trigger] edges@[e]).from as int]@.contains(edges@[e].to)
                    && reverse_adjacency@[edges@[e].to as int]@.contains(edges@[e].from),
            forward_sources.len() == n,
            backward_sources.len() == n,
            forall|a: int| 0 <= a < n ==> #[trigger] forward_sources[a].len() == adjacency@[a]@.len(),
            forall|b: int| 0 <= b < n ==> #[trigger] backward_sources[b].len() == reverse_adjacency@[b]@.len(),
            forall|a: int, k: int|
                0 <= a < n && 0 <= k < forward_sources[a].len() ==> 0 <= #[trigger] forward_sources[a][k] < index
                    && edges@[forward_sources[a][k]].from == a && edges@[forward_sources[a][k]].to == adjacency@[a]@[k],
            forall|b: int, k: int|
                0 <= b < n && 0 <= k < backward_sources[b].len() ==> 0 <= #[trigger] backward_sources[b][k] < index
                    && edges@[backward_sources[b][k]].to == b && edges@[backward_sources[b][k]].from
                    == reverse_adjacency@[b]@[k],
        decreases edges.len() - index,
    {
        let from = edges[index].from;
        let to = edges[index].to;
        proof {
            assert(edges@[index as int].from < n && edges@[index as int].to < n);
        }
        let mut row = adjacency[from].clone();
        row.push(to);
        let ghost old_adjacency = adjacency@;
        adjacency.set(from, row);
        let mut reverse_row = reverse_adjacency[to].clone();
        reverse_row.push(from);
        let ghost old_reverse = reverse_adjacency@;
        reverse_adjacency.set(to, reverse_row);
        proof {
            lemma_row_push(old_adjacency, adjacency@, from as int, to, n as int);
            lemma_row_push(old_reverse, reverse_adjacency@, to as int, from, n as int);
            assert forall|e: int|
                0 <= e < index + 1 implies adjacency@[(#[trigger] edges@[e]).from as int]@.contains(edges@[e].to)
                && reverse_adjacency@[edges@[e].to as int]@.contains(edges@[e].from) by {
                if e < index {
                    assert(old_adjacency[(edges@[e]).from as int]@.contains(edges@[e].to));
                    assert(old_reverse[edges@[e].to as int]@.contains(edges@[e].from));
                }
            }
            let old_forward = forward_sources;
            let old_backward = backward_sources;
            forward_sources = forward_sources.update(from as int, forward_sources[from as int].push(index as int));
            backward_sources = backward_sources.update(to as int, backward_sources[to as int].push(index as int));
            assert forall|a: int| 0 <= a < n implies #[trigger] forward_sources[a].len() == adjacency@[a]@.len() by {
                if a != from as int {
                    assert(adjacency@[a] == old_adjacency[a]);
                }
            }
            assert forall|b: int| 0 <= b < n implies #[trigger] backward_sources[b].len() == reverse_adjacency@[b]@.len() by {
                if b != to as int {
                    assert(reverse_adjacency@[b] == old_reverse[b]);
                }
            }
            assert forall|a: int, k: int|
                0 <= a < n && 0 <= k < forward_sources[a].len() implies 0 <= #[trigger] forward_sources[a][k] < index + 1
                && edges@[forward_sources[a][k]].from == a && edges@[forward_sources[a][k]].to == adjacency@[a]@[k] by {
                if a == from as int && k == old_forward[a].len() {
                    assert(forward_sources[a][k] == index as int);
                } else {
                    assert(forward_sources[a][k] == old_forward[a][k]);
                    assert(adjacency@[a]@[k] == old_adjacency[a]@[k]);
                }
            }
            assert forall|b: int, k: int|
                0 <= b < n && 0 <= k < backward_sources[b].len() implies 0 <= #[trigger] backward_sources[b][k] < index + 1
                && edges@[backward_sources[b][k]].to == b && edges@[backward_sources[b][k]].from == reverse_adjacency@[b]@[k] by {
                if b == to as int && k == old_backward[b].len() {
                    assert(backward_sources[b][k] == index as int);
                } else {
                    assert(backward_sources[b][k] == old_backward[b][k]);
                    assert(reverse_adjacency@[b]@[k] == old_reverse[b]@[k]);
                }
            }
        }
        index = index + 1;
    }
    proof {
        assert(lists_edges(edges@, adjacency@)) by {
            assert forall|e: int| 0 <= e < edges.len() implies #[trigger] edges@[e].from < adjacency@.len()
                && adjacency@[edges@[e].from as int]@.contains(edges@[e].to) by {
                assert(adjacency@[(edges@[e]).from as int]@.contains(edges@[e].to));
            }
        }
        assert(lists_reversed(adjacency@, reverse_adjacency@)) by {
            assert forall|a: int, k: int| 0 <= a < adjacency@.len() && 0 <= k < adjacency@[a]@.len() implies (#[trigger] adjacency@[a]@[k])
                < reverse_adjacency@.len() && reverse_adjacency@[adjacency@[a]@[k] as int]@.contains(a as usize) by {
                let e = forward_sources[a][k];
                assert(reverse_adjacency@[(edges@[e]).to as int]@.contains(edges@[e].from));
            }
        }
        assert(lists_reversed(reverse_adjacency@, adjacency@)) by {
            assert forall|b: int, k: int| 0 <= b < reverse_adjacency@.len() && 0 <= k < reverse_adjacency@[b]@.len() implies (#[trigger] reverse_adjacency@[b]@[k])
                < adjacency@.len() && adjacency@[reverse_adjacency@[b]@[k] as int]@.contains(b as usize) by {
                let e = backward_sources[b][k];
                assert(adjacency@[(edges@[e]).from as int]@.contains(edges@[e].to));
            }
        }
    }
    proof {
        assert forall|a: int, k: int|
            0 <= a < adjacency@.len() && 0 <= k < adjacency@[a]@.len() implies joined(edges@, a as usize, #[trigger] adjacency@[a]@[k]) by {
            let e = forward_sources[a][k];
            assert(edges@[e].from == a as usize && edges@[e].to == adjacency@[a]@[k]);
        }
    }
    (adjacency, reverse_adjacency)
}

/// Appending `value` to row `r` keeps every listed node below `n` and every
/// entry already listed.
proof fn lemma_row_push(before: Seq<Vec<usize>>, after: Seq<Vec<usize>>, r: int, value: usize, n: int)
    requires
        before.len() == after.len(),
        0 <= r < before.len(),
        valid_adjacency(before, n),
        value < n,
        after[r]@ == before[r]@.push(value),
        forall|u: int| 0 <= u < before.len() && u != r ==> after[u] == before[u],
    ensures
        valid_adjacency(after, n),
        after[r]@.contains(value),
        forall|u: int, k: int| 0 <= u < before.len() && 0 <= k < before[u]@.len() ==> #[trigger] after[u]@[k] == before[u]@[k],
        after[r]@[before[r]@.len() as int] == value,
        forall|u: int, x: usize| 0 <= u < before.len() && #[trigger] before[u]@.contains(x) ==> after[u]@.contains(x),
{
    assert(after[r]@[before[r]@.len() as int] == value);
    assert forall|u: int, k: int| 0 <= u < after.len() && 0 <= k < after[u]@.len() implies #[trigger] after[u]@[k] < n by {
        if u != r {
            assert(after[u] == before[u]);
        } else if k < before[u]@.len() {
            assert(after[u]@[k] == before[u]@[k]);
        }
    }
    assert forall|u: int, x: usize| 0 <= u < before.len() && #[trigger] before[u]@.contains(x) implies after[u]@.contains(x) by {
        let k = choose|k: int| 0 <= k < before[u]@.len() && before[u]@[k] == x;
        if u == r {
            assert(after[u]@[k] == x);
        } else {
            assert(after[u] == before[u]);
        }
    }
    assert forall|u: int, k: int| 0 <= u < before.len() && 0 <= k < before[u]@.len() implies #[trigger] after[u]@[k] == before[u]@[k] by {
        if u != r {
            assert(after[u] == before[u]);
        }
    }
}

/// Edge `e` lies, with both its ends, in the component of both ends of an
/// edge `s` from a separation source, under the labels `components`.
#[verifier::opaque]
pub open spec fn component_separated(edges: Seq<AffineValueEdge>, components: Seq<usize>, e: int) -> bool {
    exists|s: int|
        0 <= s < edges.len() && #[trigger] edges[s].separation_source && components[edges[s].from as int]
            == components[edges[s].to as int] && components[edges[e].from as int] == components[edges[s].from as int]
            && components[edges[e].to as int] == components[edges[s].from as int]
}

/// The indices of the edges inside a strongly connected component that holds
/// a relation with a separation source inside it, in increasing order.
#[verifier::spinoff_prover]
#[verifier::rlimit(40)]
fn component_proof_edges(edges: &[AffineValueEdge], components: &Vec<usize>, n: usize) -> (proof: Vec<usize>)
    requires
        edges_within(edges@, n as int),
        components.len() == n,
        forall|v: int| 0 <= v < components.len() ==> #[trigger] components[v] < n,
    ensures
        forall|i: int| 0 <= i < proof.len() ==> #[trigger] proof[i] < edges.len() && component_separated(
            edges@,
            components@,
            proof[i] as int,
        ),
        forall|e: int, s: int|
            0 <= e < edges.len() && 0 <= s < edges.len() && (#[trigger] edges@[s]).separation_source
                && components@[edges@[s].from as int] == components@[edges@[s].to as int]
                && components@[(#[trigger] edges@[e]).from as int] == components@[edges@[s].from as int]
                && components@[edges@[e].to as int] == components@[edges@[s].from as int] ==> proof@.contains(
                e as usize,
            ),
{
    let mut selected_components: Vec<bool> = Vec::with_capacity(n);
    let mut fill: usize = 0;
    while fill < n
        invariant
            fill <= n,
            selected_components.len() == fill,
            forall|c: int| 0 <= c < fill ==> !#[trigger] selected_components@[c],
        decreases n - fill,
    {
        selected_components.push(false);
        fill = fill + 1;
    }
    let ghost mut witness: Seq<int> = Seq::new(n as nat, |c: int| 0int);
    let mut index: usize = 0;
    while index < edges.len()
        invariant
            edges_within(edges@, n as int),
            index <= edges.len(),
            components.len() == n,
            forall|v: int| 0 <= v < components.len() ==> #[trigger] components[v] < n,
            selected_components.len() == n,
            witness.len() == n,
            forall|c: int|
                0 <= c < n && #[trigger] selected_components@[c] ==> 0 <= witness[c] < edges.len()
                    && edges@[witness[c]].separation_source && components@[edges@[witness[c]].from as int] == c
                    && components@[edges@[witness[c]].to as int] == c,
            forall|e: int|
                0 <= e < index && (#[trigger] edges@[e]).separation_source && components@[edges@[e].from as int]
                    == components@[edges@[e].to as int] ==> selected_components@[components@[edges@[e].from as int] as int],
        decreases edges.len() - index,
    {
        let edge = &edges[index];
        proof {
            let e = index as int;
            assert(edges@[e].from < n);
            assert(edges@[e].to < n);
        }
        if edge.separation_source {
            let from_component = components[edge.from];
            if from_component == components[edge.to] {
                selected_components.set(from_component, true);
                proof {
                    witness = witness.update(from_component as int, index as int);
                }
            }
        }
        index = index + 1;
    }
    let mut proof_edge_indices: Vec<usize> = Vec::new();
    index = 0;
    while index < edges.len()
        invariant
            edges_within(edges@, n as int),
            index <= edges.len(),
            components.len() == n,
            forall|v: int| 0 <= v < components.len() ==> #[trigger] components[v] < n,
            selected_components.len() == n,
            forall|e: int|
                0 <= e < edges.len() && (#[trigger] edges@[e]).separation_source && components@[edges@[e].from as int]
                    == components@[edges@[e].to as int] ==> selected_components@[components@[edges@[e].from as int] as int],
            witness.len() == n,
            forall|c: int|
                0 <= c < n && #[trigger] selected_components@[c] ==> 0 <= witness[c] < edges.len()
                    && edges@[witness[c]].separation_source && components@[edges@[witness[c]].from as int] == c
                    && components@[edges@[witness[c]].to as int] == c,
            forall|i: int| 0 <= i < proof_edge_indices.len() ==> #[trigger] proof_edge_indices[i] < edges.len()
                && component_separated(edges@, components@, proof_edge_indices[i] as int),
            forall|e: int|
                0 <= e < index && components@[(#[trigger] edges@[e]).from as int] == components@[edges@[e].to as int]
                    && selected_components@[components@[edges@[e].from as int] as int] ==> proof_edge_indices@.contains(
                    e as usize,
                ),
        decreases edges.len() - index,
    {
        let edge = &edges[index];
        proof {
            let e = index as int;
            assert(edges@[e].from < n);
            assert(edges@[e].to < n);
        }
        let from_component = components[edge.from];
        let ghost before = proof_edge_indices@;
        if from_component == components[edge.to] && selected_components[from_component] {
            proof {
                let c = from_component as int;
                assert(selected_components@[c]);
                let w = witness[c];
                assert(edges@[w].separation_source);
                assert(component_separated(edges@, components@, index as int)) by {
                    reveal(component_separated);
                }
            }
            proof_edge_indices.push(index);
            proof {
                assert(proof_edge_indices@[before.len() as int] == index);
            }
        }
        proof {
            assert forall|e: int|
                0 <= e < index + 1 && components@[(#[trigger] edges@[e]).from as int] == components@[edges@[e].to as int]
                    && selected_components@[components@[edges@[e].from as int] as int] implies proof_edge_indices@.contains(
                    e as usize,
                ) by {
                if e < index {
                    assert(before.contains(e as usize));
                    let q = choose|q: int| 0 <= q < before.len() && before[q] == e as usize;
                    assert(proof_edge_indices@[q] == e as usize);
                }
            }
        }
        index = index + 1;
    }
    proof {
        assert forall|e: int, s: int|
            0 <= e < edges.len() && 0 <= s < edges.len() && (#[trigger] edges@[s]).separation_source
                && components@[edges@[s].from as int] == components@[edges@[s].to as int]
                && components@[(#[trigger] edges@[e]).from as int] == components@[edges@[s].from as int]
                && components@[edges@[e].to as int] == components@[edges@[s].from as int] implies proof_edge_indices@.contains(
                e as usize,
            ) by {
            assert(selected_components@[components@[edges@[s].from as int] as int]);
        }
    }
    proof_edge_indices
}

/// Every edge of `c` is the predecessor edge of some node.
#[verifier::opaque]
pub open spec fn predecessor_edges(predecessor: Seq<Option<usize>>, c: Seq<usize>) -> bool {
    forall|i: int| 0 <= i < c.len() ==> exists|v: int| 0 <= v < predecessor.len() && #[trigger] predecessor[v] == Some(
        #[trigger] c[i],
    )
}

/// Walks `n` predecessor steps back from `x`, then collects the predecessor
/// edges from the node reached until it is reached again, and keeps them when
/// their exact weight is positive.
#[verifier::spinoff_prover]
#[verifier::rlimit(60)]
fn predecessor_cycle(edges: &[AffineValueEdge], predecessor: &Vec<Option<usize>>, x: usize, n: usize) -> (cycle:
    Option<Vec<usize>>)
    requires
        edges_within(edges@, n as int),
        x < n,
        predecessor.len() == n,
        forall|v: int|
            0 <= v < n ==> (#[trigger] predecessor[v] matches Some(e) ==> e < edges.len() && edges[e as int].to
                == v),
        forall|v: usize, k: nat|
            v < n && 1 <= k && #[trigger] back(edges@, predecessor@, v, k) == Some(v) ==> walk_weight(
                edges@,
                back_edges(edges@, predecessor@, v, k),
            ) > 0,
        forall|k: nat| k <= n ==> #[trigger] back(edges@, predecessor@, x, k) is Some,
        ({
            let start = back(edges@, predecessor@, x, n as nat)->0;
            exists|p: nat|
                1 <= p <= n && back(edges@, predecessor@, start, p) == Some(start) && forall|m: nat|
                    m <= p ==> (#[trigger] back(edges@, predecessor@, start, m)) is Some
        }),
    ensures
        cycle is Some,
        cycle matches Some(c) ==> is_closed_walk(edges@, c@) && walk_weight(edges@, c@) > 0 && c.len() <= n
            && predecessor_edges(predecessor@, c@),
{
    let mut cycle_node = x;
    let mut step: usize = 0;
    while step < n
        invariant
            edges_within(edges@, n as int),
            step <= n,
            cycle_node < n,
            predecessor.len() == n,
            forall|v: int|
                0 <= v < n ==> (#[trigger] predecessor[v] matches Some(e) ==> e < edges.len()
                    && edges[e as int].to == v),
            forall|k: nat| k <= n ==> #[trigger] back(edges@, predecessor@, x, k) is Some,
            back(edges@, predecessor@, x, step as nat) == Some(cycle_node),
        decreases n - step,
    {
        proof {
            assert(back(edges@, predecessor@, x, (step + 1) as nat) is Some);
        }
        let edge_index = match predecessor[cycle_node] {
            Some(edge_index) => edge_index,
            None => {
                return None;
            },
        };
        proof {
            assert(edges@[edge_index as int].from < n);
        }
        cycle_node = edges[edge_index].from;
        step = step + 1;
    }
    let start = cycle_node;
    let ghost period = choose|p: nat|
        1 <= p <= n && back(edges@, predecessor@, start, p) == Some(start) && forall|m: nat|
            m <= p ==> (#[trigger] back(edges@, predecessor@, start, m)) is Some;
    let mut cycle: Vec<usize> = Vec::new();
    let ghost mut owners: Seq<int> = Seq::empty();
    loop
        invariant_except_break
            cycle.len() < period,
        invariant
            edges_within(edges@, n as int),
            cycle_node < n,
            start < n,
            1 <= period <= n,
            back(edges@, predecessor@, start, period) == Some(start),
            forall|m: nat| m <= period ==> (#[trigger] back(edges@, predecessor@, start, m)) is Some,
            back(edges@, predecessor@, start, cycle.len() as nat) == Some(cycle_node),
            cycle@ == back_edges(edges@, predecessor@, start, cycle.len() as nat),
            cycle.len() <= n,
            owners.len() == cycle.len(),
            forall|i: int| 0 <= i < cycle.len() ==> 0 <= #[trigger] owners[i] < n && predecessor@[owners[i]] == Some(cycle@[i]),
            predecessor.len() == n,
            forall|v: int|
                0 <= v < n ==> (#[trigger] predecessor[v] matches Some(e) ==> e < edges.len()
                    && edges[e as int].to == v),
            forall|v: usize, k: nat|
                v < n && 1 <= k && #[trigger] back(edges@, predecessor@, v, k) == Some(v) ==> walk_weight(
                    edges@,
                    back_edges(edges@, predecessor@, v, k),
                ) > 0,
            cycle.len() == 0 ==> cycle_node == start,
            cycle.len() > 0 ==> edges[cycle@[0] as int].to == start && edges[cycle@.last() as int].from
                == cycle_node,
            forall|i: int| 0 <= i < cycle.len() ==> #[trigger] cycle[i] < edges.len(),
            forall|i: int|
                0 <= i < cycle.len() - 1 ==> edges[#[trigger] cycle[i] as int].from == edges[cycle[i
                    + 1] as int].to,
        ensures
            is_closed_walk(edges@, cycle@),
            walk_weight(edges@, cycle@) > 0,
            cycle.len() <= n,
            owners.len() == cycle.len(),
            forall|i: int| 0 <= i < cycle.len() ==> 0 <= #[trigger] owners[i] < n && predecessor@[owners[i]] == Some(cycle@[i]),
        decreases n + 1 - cycle.len(),
    {
        proof {
            assert(back(edges@, predecessor@, start, (cycle.len() + 1) as nat) is Some);
        }
        let edge_index = match predecessor[cycle_node] {
            Some(edge_index) => edge_index,
            None => {
                return None;
            },
        };
        let ghost before = cycle@;
        let ghost owners_before = owners;
        cycle.push(edge_index);
        proof {
            owners = owners.push(cycle_node as int);
            assert forall|i: int| 0 <= i < cycle.len() implies 0 <= #[trigger] owners[i] < n && predecessor@[owners[i]] == Some(cycle@[i]) by {
                if i < before.len() {
                    assert(owners[i] == owners_before[i]);
                    assert(cycle@[i] == before[i]);
                }
            }
            assert(cycle@ == back_edges(edges@, predecessor@, start, cycle.len() as nat));
            assert forall|i: int| 0 <= i < cycle.len() - 1 implies edges[#[trigger] cycle[i] as int].from
                == edges[cycle[i + 1] as int].to by {
                if i < before.len() - 1 {
                    assert(cycle[i] == before[i] && cycle[i + 1] == before[i + 1]);
                } else {
                    assert(cycle[i] == before.last());
                }
            }
            assert(edges@[edge_index as int].from < n);
        }
        cycle_node = edges[edge_index].from;
        if cycle_node == start {
            break;
        }
        if cycle.len() > n {
            return None;
        }
    }
    let mut weight = ExactDyadic::zero();
    let mut position: usize = 0;
    while position < cycle.len()
        invariant
            position <= cycle.len(),
            forall|i: int| 0 <= i < cycle.len() ==> #[trigger] cycle[i] < edges.len(),
            weight.value() == walk_weight(edges@, cycle@.take(position as int)),
        decreases cycle.len() - position,
    {
        proof {
            assert(cycle@.take(position + 1).drop_last() == cycle@.take(position as int));
        }
        weight = weight.add(&edges[cycle[position]].minimum_difference);
        position = position + 1;
    }
    proof {
        assert(cycle@.take(cycle.len() as int) == cycle@);
    }
    proof {
        reveal(predecessor_edges);
        assert forall|i: int| 0 <= i < cycle.len() implies exists|v: int| 0 <= v < predecessor@.len() && #[trigger] predecessor@[v] == Some(
            #[trigger] cycle@[i],
        ) by {
            assert(predecessor@[owners[i]] == Some(cycle@[i]));
        }
    }
    if weight.is_positive() {
        Some(cycle)
    } else {
        None
    }
}

/// An edge kept for the cycle search lies, under component labels that
/// follow mutual reachability, in a component holding an edge from a
/// separation source.
proof fn lemma_kept_edge_in_separated_component(
    edges: Seq<AffineValueEdge>,
    adjacency: Seq<Vec<usize>>,
    components: Seq<usize>,
    e: int,
)
    requires
        edges_within(edges, adjacency.len() as int),
        adjacency_from_edges(edges, adjacency),
        components.len() == adjacency.len(),
        forall|u: usize, v: usize|
            #![trigger components[u as int], components[v as int]]
            u < adjacency.len() && v < adjacency.len() ==> (components[u as int] == components[v as int]
                <==> (reaches(adjacency, u, v) && reaches(adjacency, v, u))),
        0 <= e < edges.len(),
        component_separated(edges, components, e),
    ensures
        in_separated_component(edges, e),
{
    reveal(component_separated);
    let s = choose|s: int|
        0 <= s < edges.len() && #[trigger] edges[s].separation_source && components[edges[s].from as int]
            == components[edges[s].to as int] && components[edges[e].from as int] == components[edges[s].from as int]
            && components[edges[e].to as int] == components[edges[s].from as int];
    let (sf, st, ef, et) = (edges[s].from, edges[s].to, edges[e].from, edges[e].to);
    assert(sf < adjacency.len() && st < adjacency.len() && ef < adjacency.len() && et < adjacency.len());
    assert(components[sf as int] == components[st as int]);
    assert(components[ef as int] == components[sf as int]);
    assert(components[et as int] == components[sf as int]);
    lemma_reaches_along_edges(edges, adjacency, sf, st);
    lemma_reaches_along_edges(edges, adjacency, st, sf);
    lemma_reaches_along_edges(edges, adjacency, ef, sf);
    lemma_reaches_along_edges(edges, adjacency, sf, ef);
    lemma_reaches_along_edges(edges, adjacency, et, sf);
    lemma_reaches_along_edges(edges, adjacency, sf, et);
    assert(edges[s].separation_source);
}

/// A cycle of predecessor edges, each of them kept for the search, lies in
/// components that hold an edge from a separation source.
proof fn lemma_kept_cycle_separated(
    edges: Seq<AffineValueEdge>,
    adjacency: Seq<Vec<usize>>,
    components: Seq<usize>,
    proof: Seq<usize>,
    predecessor: Seq<Option<usize>>,
    c: Seq<usize>,
)
    requires
        edges_within(edges, adjacency.len() as int),
        adjacency_from_edges(edges, adjacency),
        components.len() == adjacency.len(),
        predecessor.len() == adjacency.len(),
        forall|u: usize, v: usize|
            #![trigger components[u as int], components[v as int]]
            u < adjacency.len() && v < adjacency.len() ==> (components[u as int] == components[v as int]
                <==> (reaches(adjacency, u, v) && reaches(adjacency, v, u))),
        forall|i: int| 0 <= i < proof.len() ==> #[trigger] proof[i] < edges.len() && component_separated(
            edges,
            components,
            proof[i] as int,
        ),
        forall|v: int|
            0 <= v < predecessor.len() ==> (#[trigger] predecessor[v] matches Some(e) ==> e < edges.len() && proof.contains(e)),
        predecessor_edges(predecessor, c),
    ensures
        within_separated_components(edges, c),
{
    reveal(within_separated_components);
    reveal(predecessor_edges);
    assert forall|m: int| 0 <= m < c.len() implies #[trigger] in_separated_component(edges, c[m] as int) by {
        let v = choose|v: int| 0 <= v < predecessor.len() && #[trigger] predecessor[v] == Some(#[trigger] c[m]);
        assert(proof.contains(c[m]));
        let q = choose|q: int| 0 <= q < proof.len() && proof[q] == c[m];
        assert(component_separated(edges, components, proof[q] as int));
        lemma_kept_edge_in_separated_component(edges, adjacency, components, c[m] as int);
    }
}

/// Searches the strongly connected components that hold a separation relation
/// for a cycle of hard relations whose minimum differences sum to a positive
/// value: such a cycle requires a node's value to exceed itself.
///
/// Distances are relaxed for `node_count` rounds from zero; a node updated in
/// the last round is walked back `node_count` predecessor steps onto a cycle,
/// whose exact weight is then checked. Every positive closed walk that shares
/// a node with a closed walk holding a separation relation makes the search
/// succeed.
#[verifier::spinoff_prover]
#[verifier::rlimit(80)]
pub fn positive_canonical_affine_cycle(edges: &[AffineValueEdge], node_count: usize) -> (cycle:
    Option<Vec<usize>>)
    requires
        edges_within(edges@, node_count as int),
    ensures
        cycle matches Some(c) ==> is_closed_walk(edges@, c@) && walk_weight(edges@, c@) > 0 && c.len() <= node_count
            && within_separated_components(edges@, c@),
        (forall|c: Seq<usize>|
            #[trigger] is_closed_walk(edges@, c) && walk_weight(edges@, c) > 0 ==> !within_separated_components(
                edges@,
                c,
            )) ==> cycle is None,
        forall|c: Seq<usize>, other: Seq<usize>|
            #![trigger is_closed_walk(edges@, c), meets_separation_cycle(edges@, c, other)]
            is_closed_walk(edges@, c) && walk_weight(edges@, c) > 0 && meets_separation_cycle(edges@, c, other)
                ==> cycle is Some,
{
    let n = node_count;
    let ghost found = exists|c: Seq<usize>, other: Seq<usize>|
        is_closed_walk(edges@, c) && walk_weight(edges@, c) > 0 && meets_separation_cycle(edges@, c, other);
    let (adjacency, reverse_adjacency) = edge_adjacency(edges, n);
    let components = strongly_connected_components(adjacency.as_slice(), reverse_adjacency.as_slice());
    let proof_edge_indices = component_proof_edges(edges, &components, n);
    let ghost chain = Seq::<usize>::empty();
    proof {
        if found {
            lemma_separated_cycle_is_proof_chain(edges@, adjacency@, components@, proof_edge_indices@);
            chain = choose|c: Seq<usize>|
                #[trigger] proof_chain(edges@, proof_edge_indices@, c) && c.len() >= 1 && edges@[c.last() as int].from
                    == edges@[c[0] as int].to && walk_weight(edges@, c) > 0;
            assert(proof_edge_indices@.contains(chain[0]));
        }
    }
    if proof_edge_indices.len() == 0 {
        return None;
    }
    let (_distances, predecessor, updated) = relax_rounds(edges, proof_edge_indices.as_slice(), n);
    proof {
        if found {
            assert(proof_chain(edges@, proof_edge_indices@, chain));
        }
    }
    let cycle = match updated {
        Some(x) => predecessor_cycle(edges, &predecessor, x, n),
        None => None,
    };
    proof {
        if cycle is Some {
            lemma_kept_cycle_separated(edges@, adjacency@, components@, proof_edge_indices@, predecessor@, cycle->0@);
        }
    }
    cycle
}

/// Following the edges `path` from `node`, each edge leaves the node reached
/// so far: it is listed in that node's adjacency.
pub open spec fn walk_valid(
    edge_targets: Seq<usize>,
    adjacency: Seq<Vec<usize>>,
    node: usize,
    path: Seq<usize>,
) -> bool
    decreases path.len(),
{
    if path.len() == 0 {
        true
    } else {
        &&& node < adjacency.len()
        &&& adjacency[node as int]@.contains(path[0])
        &&& path[0] < edge_targets.len()
        &&& walk_valid(edge_targets, adjacency, edge_targets[path[0] as int], path.drop_first())
    }
}

/// The node reached by following the edges `path` from `node`.
pub open spec fn walk_end(edge_targets: Seq<usize>, node: usize, path: Seq<usize>) -> usize
    decreases path.len(),
{
    if path.len() == 0 {
        node
    } else {
        walk_end(edge_targets, edge_targets[path[0] as int], path.drop_first())
    }
}

/// Edge `e` of adjacency list `u` leads to a listed node.
pub open spec fn valid_edge_lists(edge_targets: Seq<usize>, adjacency: Seq<Vec<usize>>) -> bool {
    &&& forall|u: int, k: int|
        0 <= u < adjacency.len() && 0 <= k < adjacency[u]@.len() ==> #[trigger] adjacency[u]@[k]
            < edge_targets.len()
    &&& forall|e: int| 0 <= e < edge_targets.len() ==> #[trigger] edge_targets[e] < adjacency.len()
}

/// The flagged nodes are closed under the edges: every edge that leaves a
/// flagged node enters a flagged node.
pub open spec fn closed_under_edges(
    edge_targets: Seq<usize>,
    adjacency: Seq<Vec<usize>>,
    flagged: Seq<bool>,
) -> bool {
    forall|v: int, k: int|
        0 <= v < adjacency.len() && flagged[v] && 0 <= k < adjacency[v]@.len()
            ==> #[trigger] flagged[edge_targets[adjacency[v]@[k] as int] as int]
}

/// A walk that starts at a flagged node of a closed set ends at a flagged
/// node.
proof fn lemma_closed_set_holds_walk_end(
    edge_targets: Seq<usize>,
    adjacency: Seq<Vec<usize>>,
    flagged: Seq<bool>,
    node: usize,
    path: Seq<usize>,
)
    requires
        valid_edge_lists(edge_targets, adjacency),
        closed_under_edges(edge_targets, adjacency, flagged),
        flagged.len() == adjacency.len(),
        node < adjacency.len(),
        flagged[node as int],
        walk_valid(edge_targets, adjacency, node, path),
    ensures
        flagged[walk_end(edge_targets, node, path) as int],
    decreases path.len(),
{
    if path.len() > 0 {
        let k = choose|k: int| 0 <= k < adjacency[node as int]@.len() && adjacency[node as int]@[k]
            == path[0];
        assert(flagged[edge_targets[adjacency[node as int]@[k] as int] as int]);
        lemma_closed_set_holds_walk_end(
            edge_targets,
            adjacency,
            flagged,
            edge_targets[path[0] as int],
            path.drop_first(),
        );
    }
}

/// The breadth-first queue: its entries are distinct visited nodes in order
/// of non-decreasing depth, and every visited node sits at its recorded
/// position.
pub open spec fn queue_ordered(
    queue: Seq<usize>,
    visited: Seq<bool>,
    depth: Seq<nat>,
    position: Seq<int>,
) -> bool {
    &&& forall|i: int| 0 <= i < queue.len() ==> #[trigger] queue[i] < visited.len() && visited[queue[i] as int] && position[queue[i] as int] == i
    &&& forall|v: int| 0 <= v < visited.len() && #[trigger] visited[v] ==> 0 <= position[v] < queue.len() && queue[position[v]] == v
    &&& forall|i: int, j: int| 0 <= i <= j < queue.len() ==> depth[#[trigger] queue[i] as int] <= depth[#[trigger] queue[j] as int]
}

/// The nodes expanded so far, the first `expanded` of the queue, have every
/// successor visited at depth at most one more.
pub open spec fn expanded_nodes(
    edge_targets: Seq<usize>,
    adjacency: Seq<Vec<usize>>,
    queue: Seq<usize>,
    visited: Seq<bool>,
    depth: Seq<nat>,
    expanded: int,
) -> bool {
    forall|i: int, k: int|
        0 <= i < expanded && 0 <= k < adjacency[queue[i] as int]@.len()
            ==> #[trigger] visited[edge_targets[adjacency[queue[i] as int]@[k] as int] as int] && depth[edge_targets[adjacency[queue[i] as int]@[k] as int] as int]
            <= depth[queue[i] as int] + 1
}

/// The targets of the first `count` edges of `edges_out` are visited at
/// depth at most `bound`.
pub open spec fn targets_reached(
    edge_targets: Seq<usize>,
    edges_out: Seq<usize>,
    visited: Seq<bool>,
    depth: Seq<nat>,
    bound: int,
    count: int,
) -> bool {
    forall|j: int|
        0 <= j < count ==> #[trigger] visited[edge_targets[edges_out[j] as int] as int] && depth[edge_targets[edges_out[j]
            as int] as int] <= bound
}

/// Expanded nodes, stated pointwise.
proof fn lemma_expanded_nodes_intro(
    edge_targets: Seq<usize>,
    adjacency: Seq<Vec<usize>>,
    queue: Seq<usize>,
    visited: Seq<bool>,
    depth: Seq<nat>,
    expanded: int,
)
    requires
        forall|i: int, k: int|
            0 <= i < expanded && 0 <= k < adjacency[queue[i] as int]@.len()
                ==> #[trigger] visited[edge_targets[adjacency[queue[i] as int]@[k] as int] as int] && depth[edge_targets[adjacency[queue[i] as int]@[k] as int] as int]
                <= depth[queue[i] as int] + 1,
    ensures
        expanded_nodes(edge_targets, adjacency, queue, visited, depth, expanded),
{
}

/// A walk from a visited node `u` of depth at most `offset` to the node at
/// queue index `h`, whose predecessors in the queue are all expanded, has at
/// least as many edges as that node's depth exceeds `offset`.
proof fn lemma_bfs_walk_bound(
    edge_targets: Seq<usize>,
    adjacency: Seq<Vec<usize>>,
    queue: Seq<usize>,
    visited: Seq<bool>,
    depth: Seq<nat>,
    position: Seq<int>,
    h: int,
    u: usize,
    p: Seq<usize>,
    offset: int,
)
    requires
        valid_edge_lists(edge_targets, adjacency),
        visited.len() == adjacency.len(),
        depth.len() == adjacency.len(),
        position.len() == adjacency.len(),
        queue_ordered(queue, visited, depth, position),
        expanded_nodes(edge_targets, adjacency, queue, visited, depth, h),
        0 <= h < queue.len(),
        u < adjacency.len(),
        visited[u as int],
        depth[u as int] <= offset,
        walk_valid(edge_targets, adjacency, u, p),
        walk_end(edge_targets, u, p) == queue[h],
    ensures
        depth[queue[h] as int] <= offset + p.len(),
    decreases p.len(),
{
    let i = position[u as int];
    assert(queue[i] == u);
    if i >= h {
        assert(depth[queue[h] as int] <= depth[queue[i] as int]);
    } else if p.len() == 0 {
        assert(position[queue[h] as int] == h);
    } else {
        let k = choose|k: int| 0 <= k < adjacency[u as int]@.len() && adjacency[u as int]@[k] == p[0];
        let x = edge_targets[p[0] as int];
        assert(visited[edge_targets[adjacency[queue[i] as int]@[k] as int] as int]);
        assert(x < adjacency.len());
        lemma_bfs_walk_bound(edge_targets, adjacency, queue, visited, depth, position, h, x, p.drop_first(), offset + 1);
    }
}

/// A breadth-first path of edge indices from `start` to `end`, where the
/// edges leaving node `u` are listed in `adjacency[u]` and edge `e` enters
/// node `edge_targets[e]`; `None` exactly when no walk from `start` ends at
/// `end`. The path found has no more edges than any such walk.
#[verifier::spinoff_prover]
#[verifier::rlimit(40)]
pub fn shared_level_path(
    edge_targets: &[usize],
    adjacency: &[Vec<usize>],
    start: usize,
    end: usize,
) -> (path: Option<Vec<usize>>)
    requires
        start < adjacency.len(),
        end < adjacency.len(),
        valid_edge_lists(edge_targets@, adjacency@),
    ensures
        path matches Some(p) ==> walk_valid(edge_targets@, adjacency@, start, p@) && walk_end(
            edge_targets@,
            start,
            p@,
        ) == end,
        path matches Some(p) ==> forall|q: Seq<usize>|
            #[trigger] walk_valid(edge_targets@, adjacency@, start, q) && walk_end(edge_targets@, start, q) == end
                ==> p.len() <= q.len(),
        path is None ==> forall|p: Seq<usize>|
            #[trigger] walk_valid(edge_targets@, adjacency@, start, p) ==> walk_end(
                edge_targets@,
                start,
                p,
            ) != end,
{
    let n = adjacency.len();
    let mut visited: Vec<bool> = Vec::with_capacity(n);
    let mut predecessor: Vec<Option<(usize, usize)>> = Vec::with_capacity(n);
    let mut fill: usize = 0;
    while fill < n
        invariant
            fill <= n,
            visited.len() == fill,
            predecessor.len() == fill,
            forall|v: int| 0 <= v < fill ==> !visited[v] && predecessor[v] is None,
        decreases n - fill,
    {
        visited.push(false);
        predecessor.push(None);
        fill = fill + 1;
    }
    let ghost mut depth: Seq<nat> = Seq::new(n as nat, |v: int| 0nat);
    let ghost mut position: Seq<int> = Seq::new(n as nat, |v: int| 0int);
    proof {
        lemma_count_unset_set(visited@, start as int);
        assert forall|v: int| 0 <= v < n implies #[trigger] predecessor[v] is None by {
            assert(!visited[v] && predecessor[v] is None);
        }
    }
    visited.set(start, true);
    let mut queue: Vec<usize> = Vec::new();
    queue.push(start);
    let mut head: usize = 0;
    proof {
        assert forall|v: int| 0 <= v < n && #[trigger] visited[v] implies 0 <= position[v]
            < queue.len() && queue[position[v]] == v by {
            if v != start {
                assert(!visited@.update(start as int, true)[v]) by {
                    assert(predecessor[v] is None);
                }
            }
        }
        assert(queue_ordered(queue@, visited@, depth, position));
    }
    while head < queue.len()
        invariant_except_break
            expanded_nodes(edge_targets@, adjacency@, queue@, visited@, depth, head as int),
            forall|i: int| 0 <= i < head ==> #[trigger] queue[i] != end,
        invariant
            n == adjacency.len(),
            valid_edge_lists(edge_targets@, adjacency@),
            start < n,
            end < n,
            visited.len() == n,
            predecessor.len() == n,
            depth.len() == n,
            position.len() == n,
            visited[start as int],
            depth[start as int] == 0,
            head <= queue.len(),
            head == 0 ==> queue.len() == 1 && queue[0] == start,
            queue_ordered(queue@, visited@, depth, position),
            head >= 1 ==> forall|j: int| 0 <= j < queue.len() ==> depth[#[trigger] queue[j] as int] <= depth[queue[head - 1] as int] + 1,
            forall|v: int|
                0 <= v < n ==> (#[trigger] predecessor[v] matches Some(link) ==> link.0 < n
                    && visited[link.0 as int] && link.1 < edge_targets.len() && adjacency[link.0 as int]@.contains(
                    link.1,
                ) && edge_targets[link.1 as int] == v && depth[link.0 as int] + 1 == depth[v]),
            forall|v: int| 0 <= v < n && visited[v] && v != start ==> #[trigger] predecessor[v] is Some,
        ensures
            visited[end as int] ==> head >= 1 && queue[head - 1] == end && expanded_nodes(
                edge_targets@,
                adjacency@,
                queue@,
                visited@,
                depth,
                head - 1,
            ),
            !visited[end as int] ==> head == queue.len() && expanded_nodes(
                edge_targets@,
                adjacency@,
                queue@,
                visited@,
                depth,
                head as int,
            ),
        decreases count_unset(visited@), queue.len() - head,
    {
        let node = queue[head];
        head = head + 1;
        if node == end {
            break;
        }
        let edges_out = &adjacency[node];
        let ghost unset_before = count_unset(visited@);
        let ghost queue_before = queue.len();
        let ghost queue_snapshot = queue@;
        let ghost visited_snapshot = visited@;
        let ghost depth_snapshot = depth;
        let ghost head_now = head;
        let mut k: usize = 0;
        while k < edges_out.len()
            invariant
                n == adjacency.len(),
                valid_edge_lists(edge_targets@, adjacency@),
                start < n,
                end < n,
                node < n,
                visited[node as int],
                edges_out@ == adjacency@[node as int]@,
                k <= edges_out.len(),
                visited.len() == n,
                predecessor.len() == n,
                depth.len() == n,
                position.len() == n,
                visited[start as int],
                depth[start as int] == 0,
                head <= queue.len(),
                head == head_now,
                head >= 1,
                queue_snapshot.len() == queue_before,
                queue_snapshot[head - 1] == node,
                queue[head - 1] == node,
                visited_snapshot.len() == n,
                count_unset(visited@) + queue.len() == unset_before + queue_before,
                count_unset(visited@) <= unset_before,
                queue.len() >= queue_before,
                forall|i: int| 0 <= i < queue_before ==> queue[i] == queue_snapshot[i],
                forall|v: int| 0 <= v < n && #[trigger] visited_snapshot[v] ==> visited[v] && depth[v] == depth_snapshot[v],
                forall|i: int| 0 <= i < head ==> #[trigger] queue[i] != end,
                expanded_nodes(edge_targets@, adjacency@, queue_snapshot, visited_snapshot, depth_snapshot, head - 1),
                targets_reached(edge_targets@, edges_out@, visited@, depth, (depth[node as int] + 1) as int, k as int),
                queue_ordered(queue@, visited@, depth, position),
                forall|j: int| 0 <= j < queue.len() ==> depth[#[trigger] queue[j] as int] <= depth[node as int] + 1,
                forall|v: int|
                    0 <= v < n ==> (#[trigger] predecessor[v] matches Some(link) ==> link.0 < n
                        && visited[link.0 as int] && link.1 < edge_targets.len() && adjacency[link.0 as int]@.contains(
                        link.1,
                    ) && edge_targets[link.1 as int] == v && depth[link.0 as int] + 1 == depth[v]),
                forall|v: int| 0 <= v < n && visited[v] && v != start ==> #[trigger] predecessor[v] is Some,
            decreases edges_out.len() - k,
        {
            let edge_index = edges_out[k];
            proof {
                assert(adjacency@[node as int]@[k as int] == edge_index);
            }
            let next = edge_targets[edge_index];
            if !visited[next] {
                let ghost queue_mid = queue@;
                let ghost visited_mid = visited@;
                let ghost depth_mid = depth;
                let ghost position_mid = position;
                proof {
                    lemma_count_unset_set(visited@, next as int);
                    depth = depth.update(next as int, depth[node as int] + 1);
                    position = position.update(next as int, queue.len() as int);
                }
                visited.set(next, true);
                predecessor.set(next, Some((node, edge_index)));
                queue.push(next);
                proof {
                    assert(next != start);
                    assert forall|i: int| 0 <= i < queue.len() implies #[trigger] queue[i] < visited.len()
                        && visited[queue[i] as int] && position[queue[i] as int] == i by {
                        if i < queue_mid.len() {
                            assert(queue[i] == queue_mid[i]);
                            assert(visited_mid[queue_mid[i] as int]);
                        }
                    }
                    assert forall|v: int| 0 <= v < visited.len() && #[trigger] visited[v] implies 0 <= position[v]
                        < queue.len() && queue[position[v]] == v by {
                        if v != next as int {
                            assert(visited_mid[v]);
                            assert(queue[position_mid[v]] == queue_mid[position_mid[v]]);
                        }
                    }
                    assert forall|i: int, j: int| 0 <= i <= j < queue.len() implies depth[#[trigger] queue[i] as int]
                        <= depth[#[trigger] queue[j] as int] by {
                        if j < queue_mid.len() {
                            assert(queue[i] == queue_mid[i] && queue[j] == queue_mid[j]);
                            assert(visited_mid[queue_mid[i] as int] && visited_mid[queue_mid[j] as int]);
                            assert(depth_mid[queue_mid[i] as int] <= depth_mid[queue_mid[j] as int]);
                        } else if i < queue_mid.len() {
                            assert(queue[i] == queue_mid[i]);
                            assert(visited_mid[queue_mid[i] as int]);
                            assert(depth_mid[queue_mid[i] as int] <= depth_mid[node as int] + 1);
                        }
                    }
                    assert(queue_ordered(queue@, visited@, depth, position));
                    assert forall|j: int| 0 <= j < queue.len() implies depth[#[trigger] queue[j] as int] <= depth[node
                        as int] + 1 by {
                        if j < queue_mid.len() {
                            assert(queue[j] == queue_mid[j]);
                            assert(visited_mid[queue_mid[j] as int]);
                            assert(depth_mid[queue_mid[j] as int] <= depth_mid[node as int] + 1);
                        }
                    }
                    assert forall|j: int| 0 <= j < k + 1 implies #[trigger] visited@[edge_targets@[edges_out@[j] as int] as int]
                        && depth[edge_targets@[edges_out@[j] as int] as int] <= depth[node as int] + 1 by {
                        if j < k {
                            let t = edge_targets@[edges_out@[j] as int];
                            assert(visited_mid[t as int]);
                            assert(t != next);
                        }
                    }
                    assert forall|v: int|
                        0 <= v < n implies (#[trigger] predecessor[v] matches Some(link) ==> link.0 < n
                            && visited[link.0 as int] && link.1 < edge_targets.len() && adjacency[link.0 as int]@.contains(
                            link.1,
                        ) && edge_targets[link.1 as int] == v && depth[link.0 as int] + 1 == depth[v]) by {
                        if v != next as int && predecessor[v] is Some {
                            let link = predecessor[v]->0;
                            assert(visited_mid[link.0 as int]);
                            assert(link.0 != next);
                        }
                        if v == next as int {
                            assert(adjacency[node as int]@.contains(edge_index)) by {
                                assert(adjacency[node as int]@[k as int] == edge_index);
                            }
                        }
                    }
                    assert forall|v: int| 0 <= v < n && #[trigger] visited_snapshot[v] implies visited[v] && depth[v] == depth_snapshot[v] by {
                        assert(visited_mid[v]);
                        assert(v != next as int);
                    }
                }
            } else {
                proof {
                    let j = position[next as int];
                    assert(queue[j] == next);
                    assert(depth[queue[j] as int] <= depth[node as int] + 1);
                    assert forall|i: int| 0 <= i < k + 1 implies #[trigger] visited@[edge_targets@[edges_out@[i] as int] as int]
                        && depth[edge_targets@[edges_out@[i] as int] as int] <= depth[node as int] + 1 by {
                        if i == k {
                            assert(edges_out@[i] == edge_index);
                        }
                    }
                }
            }
            assert(targets_reached(edge_targets@, edges_out@, visited@, depth, (depth[node as int] + 1) as int, k + 1));
            k = k + 1;
        }
        proof {
            assert forall|i: int, j: int|
                0 <= i < head && 0 <= j < adjacency@[queue@[i] as int]@.len() implies #[trigger] visited@[edge_targets@[adjacency@[queue@[i] as int]@[j] as int] as int]
                && depth[edge_targets@[adjacency@[queue@[i] as int]@[j] as int] as int] <= depth[queue@[i] as int] + 1 by {
                assert(queue@[i] == queue_snapshot[i]);
                if i < head - 1 {
                    let t = edge_targets@[adjacency@[queue_snapshot[i] as int]@[j] as int];
                    assert(visited_snapshot[t as int]);
                    assert(depth_snapshot[t as int] <= depth_snapshot[queue_snapshot[i] as int] + 1);
                    assert(visited_snapshot[queue_snapshot[i] as int]);
                } else {
                    assert(visited@[edge_targets@[edges_out@[j] as int] as int]);
                    assert(targets_reached(edge_targets@, edges_out@, visited@, depth, (depth[node as int] + 1) as int, edges_out.len() as int));
                }
            }
            assert(head >= 1);
            lemma_expanded_nodes_intro(edge_targets@, adjacency@, queue@, visited@, depth, head as int);
        }
    }
    if !visited[end] {
        proof {
            assert(closed_under_edges(edge_targets@, adjacency@, visited@)) by {
                assert forall|v: int, k: int|
                    0 <= v < adjacency@.len() && visited@[v] && 0 <= k < adjacency@[v]@.len() implies #[trigger] visited@[edge_targets@[adjacency@[v]@[k] as int] as int] by {
                    let i = position[v];
                    assert(visited[v]);
                    assert(queue[i] == v);
                    assert(visited[edge_targets[adjacency[queue[i] as int]@[k] as int] as int]);
                }
            }
            assert forall|p: Seq<usize>| #[trigger] walk_valid(edge_targets@, adjacency@, start, p) implies walk_end(
                edge_targets@,
                start,
                p,
            ) != end by {
                lemma_closed_set_holds_walk_end(edge_targets@, adjacency@, visited@, start, p);
            }
        }
        return None;
    }
    proof {
        assert forall|q: Seq<usize>|
            #[trigger] walk_valid(edge_targets@, adjacency@, start, q) && walk_end(edge_targets@, start, q) == end
                implies depth[end as int] <= q.len() by {
            lemma_bfs_walk_bound(
                edge_targets@,
                adjacency@,
                queue@,
                visited@,
                depth,
                position,
                head - 1,
                start,
                q,
                0,
            );
        }
    }
    let mut path: Vec<usize> = Vec::new();
    let mut cursor = end;
    while cursor != start
        invariant
            n == adjacency.len(),
            valid_edge_lists(edge_targets@, adjacency@),
            cursor < n,
            start < n,
            visited.len() == n,
            visited[cursor as int],
            predecessor.len() == n,
            depth.len() == n,
            depth[start as int] == 0,
            forall|v: int|
                0 <= v < n ==> (#[trigger] predecessor[v] matches Some(link) ==> link.0 < n
                    && visited[link.0 as int] && link.1 < edge_targets.len() && adjacency[link.0 as int]@.contains(link.1)
                    && edge_targets[link.1 as int] == v && depth[link.0 as int] + 1 == depth[v]),
            forall|v: int| 0 <= v < n && visited[v] && v != start ==> #[trigger] predecessor[v] is Some,
            walk_valid(edge_targets@, adjacency@, cursor, path@),
            walk_end(edge_targets@, cursor, path@) == end,
            path.len() + depth[cursor as int] == depth[end as int],
        decreases depth[cursor as int],
    {
        proof {
            assert(predecessor[cursor as int] is Some);
        }
        let (previous, edge_index) = predecessor[cursor].unwrap();
        let ghost rest = path@;
        path.insert(0, edge_index);
        proof {
            assert(path@ == seq![edge_index] + rest);
            assert(path@.drop_first() == rest);
            assert(path@[0] == edge_index);
        }
        cursor = previous;
    }
    Some(path)
}

} // verus!
