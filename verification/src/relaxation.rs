//! Longest-walk relaxation over hard affine relations, and the predecessor
//! chains that it leaves behind.
use crate::dyadic::ExactDyadic;
use crate::graph::{edges_within, lemma_distinct_bounded, walk_weight, AffineValueEdge};
use vstd::prelude::*;

verus! {

/// The exact minimum difference of edge `e`.
pub open spec fn weight_of(edges: Seq<AffineValueEdge>, e: usize) -> int {
    edges[e as int].minimum_difference.value()
}

/// The exact values of `distances`.
pub open spec fn values(distances: Seq<ExactDyadic>) -> Seq<int> {
    distances.map_values(|x: ExactDyadic| x.value())
}

/// The node one predecessor step back from `v`, when `v` has a predecessor.
pub open spec fn pred_step(edges: Seq<AffineValueEdge>, pred: Seq<Option<usize>>, v: usize) -> Option<
    usize,
> {
    if v < pred.len() && pred[v as int] is Some {
        Some(edges[pred[v as int]->0 as int].from)
    } else {
        None
    }
}

/// The node `k` predecessor steps back from `v`, while every step exists.
pub open spec fn back(edges: Seq<AffineValueEdge>, pred: Seq<Option<usize>>, v: usize, k: nat) -> Option<
    usize,
>
    decreases k,
{
    if k == 0 {
        Some(v)
    } else {
        let prev = back(edges, pred, v, (k - 1) as nat);
        if prev is Some {
            pred_step(edges, pred, prev->0)
        } else {
            None
        }
    }
}

/// The predecessor edges of the first `k` steps back from `v`, in the order
/// they are followed.
pub open spec fn back_edges(edges: Seq<AffineValueEdge>, pred: Seq<Option<usize>>, v: usize, k: nat) -> Seq<
    usize,
>
    decreases k,
{
    if k == 0 {
        Seq::empty()
    } else {
        back_edges(edges, pred, v, (k - 1) as nat).push(
            pred[back(edges, pred, v, (k - 1) as nat)->0 as int]->0,
        )
    }
}

/// Edges taken from `proof`, listed in reverse order of a walk: each edge
/// ends where the previously listed one starts.
pub open spec fn proof_chain(edges: Seq<AffineValueEdge>, proof: Seq<usize>, p: Seq<usize>) -> bool {
    &&& forall|i: int| 0 <= i < p.len() ==> #[trigger] p[i] < edges.len() && proof.contains(p[i])
    &&& forall|i: int|
        0 <= i < p.len() - 1 ==> edges[#[trigger] p[i] as int].from == edges[p[i + 1] as int].to
}

/// The distances and predecessors kept by the relaxation, with the step at
/// which each node last improved: a node without predecessor keeps distance
/// zero, and a node's distance is at most its predecessor's plus the edge,
/// strictly so unless the predecessor has not improved since.
pub open spec fn links(
    edges: Seq<AffineValueEdge>,
    proof: Seq<usize>,
    d: Seq<int>,
    pred: Seq<Option<usize>>,
    time: Seq<nat>,
    clock: nat,
) -> bool {
    &&& d.len() == pred.len()
    &&& time.len() == pred.len()
    &&& forall|v: int| 0 <= v < pred.len() ==> #[trigger] d[v] >= 0 && time[v] <= clock
    &&& forall|v: int| 0 <= v < pred.len() && #[trigger] pred[v] is None ==> d[v] == 0 && time[v] == 0
    &&& forall|v: int|
        0 <= v < pred.len() && #[trigger] pred[v] is Some ==> {
            let e = pred[v]->0;
            let u = edges[e as int].from;
            &&& e < edges.len()
            &&& edges[e as int].to == v
            &&& proof.contains(e)
            &&& u < pred.len()
            &&& 1 <= time[v]
            &&& d[v] <= d[u as int] + weight_of(edges, e)
            &&& (d[v] < d[u as int] + weight_of(edges, e) || time[u as int] < time[v])
        }
}

/// Every chain of proof edges of at most `bound` edges is outweighed by the
/// distance of the node it ends at.
pub open spec fn relaxed_bound(edges: Seq<AffineValueEdge>, proof: Seq<usize>, d: Seq<int>, bound: int) -> bool {
    forall|p: Seq<usize>|
        #[trigger] proof_chain(edges, proof, p) && 1 <= p.len() <= bound ==> d[edges[p[0] as int].to as int]
            >= walk_weight(edges, p)
}

/// Every chain of proof edges of exactly `len` edges whose last edge is one
/// of `done` is outweighed by the distance of the node it ends at.
pub open spec fn current_bound(
    edges: Seq<AffineValueEdge>,
    proof: Seq<usize>,
    d: Seq<int>,
    len: int,
    done: Seq<usize>,
) -> bool {
    forall|p: Seq<usize>|
        #[trigger] proof_chain(edges, proof, p) && p.len() == len && done.contains(p[0]) ==> d[edges[p[0] as int].to
            as int] >= walk_weight(edges, p)
}

/// No edge of `done` can improve the distances.
pub open spec fn potential(edges: Seq<AffineValueEdge>, done: Seq<usize>, d: Seq<int>) -> bool {
    forall|q: int|
        0 <= q < done.len() ==> d[edges[#[trigger] done[q] as int].from as int] + weight_of(edges, done[q])
            <= d[edges[done[q] as int].to as int]
}

/// The weight of a walk is that of its first listed edge plus the rest.
proof fn lemma_weight_first(edges: Seq<AffineValueEdge>, p: Seq<usize>)
    requires
        p.len() >= 1,
    ensures
        walk_weight(edges, p) == weight_of(edges, p[0]) + walk_weight(edges, p.drop_first()),
    decreases p.len(),
{
    if p.len() == 1 {
        assert(p.drop_last() =~= Seq::<usize>::empty());
        assert(p.drop_first() =~= Seq::<usize>::empty());
    } else {
        lemma_weight_first(edges, p.drop_last());
        assert(p.drop_first().drop_last() =~= p.drop_last().drop_first());
        assert(p.drop_first().last() == p.last());
    }
}


/// Improving node `t` through edge `e` to the value `cand` keeps the links,
/// with `t` stamped at the next step.
proof fn lemma_links_relax(
    edges: Seq<AffineValueEdge>,
    proof: Seq<usize>,
    d: Seq<int>,
    pred: Seq<Option<usize>>,
    time: Seq<nat>,
    clock: nat,
    e: usize,
    cand: int,
)
    requires
        links(edges, proof, d, pred, time, clock),
        edges_within(edges, pred.len() as int),
        e < edges.len(),
        proof.contains(e),
        cand == d[edges[e as int].from as int] + weight_of(edges, e),
        cand > d[edges[e as int].to as int],
    ensures
        links(
            edges,
            proof,
            d.update(edges[e as int].to as int, cand),
            pred.update(edges[e as int].to as int, Some(e)),
            time.update(edges[e as int].to as int, clock + 1),
            clock + 1,
        ),
{
    let t = edges[e as int].to as int;
    let d2 = d.update(t, cand);
    let pred2 = pred.update(t, Some(e));
    let time2 = time.update(t, clock + 1);
    assert(edges[e as int].from < pred.len() && edges[e as int].to < pred.len());
    assert forall|v: int| 0 <= v < pred2.len() && #[trigger] pred2[v] is Some implies {
        let f = pred2[v]->0;
        let u = edges[f as int].from;
        &&& f < edges.len()
        &&& edges[f as int].to == v
        &&& proof.contains(f)
        &&& u < pred2.len()
        &&& 1 <= time2[v]
        &&& d2[v] <= d2[u as int] + weight_of(edges, f)
        &&& (d2[v] < d2[u as int] + weight_of(edges, f) || time2[u as int] < time2[v])
    } by {
        if v != t {
            assert(pred[v] is Some);
            let f = pred[v]->0;
            let u = edges[f as int].from;
            assert(d[v] <= d[u as int] + weight_of(edges, f));
            assert(d[u as int] >= 0);
        }
    }
    assert forall|v: int| 0 <= v < pred2.len() ==> #[trigger] d2[v] >= 0 && time2[v] <= clock + 1 by {
        if 0 <= v < pred2.len() && v != t {
            assert(d[v] >= 0 && time[v] <= clock);
        }
    }
    assert forall|v: int| 0 <= v < pred2.len() && #[trigger] pred2[v] is None implies d2[v] == 0
        && time2[v] == 0 by {
        assert(pred[v] is None);
    }
}

/// Distances that only grow keep every bound.
proof fn lemma_bound_grows(
    edges: Seq<AffineValueEdge>,
    proof: Seq<usize>,
    d: Seq<int>,
    d2: Seq<int>,
    bound: int,
)
    requires
        relaxed_bound(edges, proof, d, bound),
        edges_within(edges, d.len() as int),
        d2.len() == d.len(),
        forall|v: int| 0 <= v < d.len() ==> #[trigger] d2[v] >= d[v],
    ensures
        relaxed_bound(edges, proof, d2, bound),
{
    assert forall|p: Seq<usize>| #[trigger] proof_chain(edges, proof, p) && 1 <= p.len() <= bound implies d2[edges[p[0] as int].to as int]
        >= walk_weight(edges, p) by {
        assert(p[0] < edges.len());
        assert(edges[p[0] as int].from < d.len());
        assert(d2[edges[p[0] as int].to as int] >= d[edges[p[0] as int].to as int]);
    }
}

/// Relaxing edge `e` in round `len` bounds every chain of `len` edges whose
/// last edge is `e`.
proof fn lemma_bound_step(
    edges: Seq<AffineValueEdge>,
    proof: Seq<usize>,
    d: Seq<int>,
    d2: Seq<int>,
    len: int,
    done: Seq<usize>,
    e: usize,
)
    requires
        len >= 1,
        relaxed_bound(edges, proof, d, len - 1),
        current_bound(edges, proof, d, len, done),
        edges_within(edges, d.len() as int),
        d2.len() == d.len(),
        forall|v: int| 0 <= v < d.len() ==> #[trigger] d[v] >= 0,
        forall|v: int| 0 <= v < d.len() ==> #[trigger] d2[v] >= d[v],
        e < edges.len(),
        d2[edges[e as int].to as int] >= d[edges[e as int].from as int] + weight_of(edges, e),
    ensures
        current_bound(edges, proof, d2, len, done.push(e)),
{
    assert forall|p: Seq<usize>|
        #[trigger] proof_chain(edges, proof, p) && p.len() == len && done.push(e).contains(p[0]) implies d2[edges[p[0] as int].to
        as int] >= walk_weight(edges, p) by {
        assert(p[0] < edges.len());
        assert(edges[p[0] as int].from < d.len());
        if done.contains(p[0]) {
            assert(d2[edges[p[0] as int].to as int] >= d[edges[p[0] as int].to as int]);
        } else {
            let k = choose|k: int| 0 <= k < done.push(e).len() && done.push(e)[k] == p[0];
            if k < done.len() {
                assert(done.contains(p[0]));
            }
            assert(p[0] == e);
            lemma_weight_first(edges, p);
            let tail = p.drop_first();
            if p.len() == 1 {
                assert(tail =~= Seq::<usize>::empty());
                assert(d[edges[e as int].from as int] >= 0);
            } else {
                assert(proof_chain(edges, proof, tail)) by {
                    assert forall|i: int| 0 <= i < tail.len() implies #[trigger] tail[i] < edges.len()
                        && proof.contains(tail[i]) by {
                        assert(tail[i] == p[i + 1]);
                    }
                    assert forall|i: int| 0 <= i < tail.len() - 1 implies edges[#[trigger] tail[i] as int].from
                        == edges[tail[i + 1] as int].to by {
                        assert(tail[i] == p[i + 1] && tail[i + 1] == p[i + 2]);
                    }
                }
                assert(edges[p[0] as int].from == edges[p[1] as int].to);
                assert(d[edges[tail[0] as int].to as int] >= walk_weight(edges, tail));
            }
        }
    }
}

/// Bounds for chains of up to `len - 1` edges and for every chain of `len`
/// edges give bounds for chains of up to `len` edges.
proof fn lemma_bound_extend(
    edges: Seq<AffineValueEdge>,
    proof: Seq<usize>,
    d: Seq<int>,
    len: int,
)
    requires
        relaxed_bound(edges, proof, d, len - 1),
        current_bound(edges, proof, d, len, proof),
    ensures
        relaxed_bound(edges, proof, d, len),
{
    assert forall|p: Seq<usize>| #[trigger] proof_chain(edges, proof, p) && 1 <= p.len() <= len implies d[edges[p[0] as int].to
        as int] >= walk_weight(edges, p) by {
        if p.len() == len {
            assert(proof.contains(p[0]));
        }
    }
}

/// Against a potential of every proof edge, a chain of proof edges weighs
/// at most the rise in potential from its first node to its last.
proof fn lemma_potential_chain(edges: Seq<AffineValueEdge>, proof: Seq<usize>, d: Seq<int>, p: Seq<usize>)
    requires
        potential(edges, proof, d),
        proof_chain(edges, proof, p),
        p.len() >= 1,
    ensures
        walk_weight(edges, p) <= d[edges[p[0] as int].to as int] - d[edges[p.last() as int].from as int],
    decreases p.len(),
{
    let last = p.last();
    assert(proof.contains(p[p.len() - 1]));
    let q = choose|q: int| 0 <= q < proof.len() && proof[q] == last;
    assert(d[edges[proof[q] as int].from as int] + weight_of(edges, proof[q]) <= d[edges[proof[q] as int].to as int]);
    if p.len() == 1 {
        assert(p.drop_last() =~= Seq::<usize>::empty());
        assert(walk_weight(edges, p) == walk_weight(edges, p.drop_last()) + weight_of(edges, last));
    } else {
        let front = p.drop_last();
        assert(proof_chain(edges, proof, front)) by {
            assert forall|i: int| 0 <= i < front.len() implies #[trigger] front[i] < edges.len() && proof.contains(front[i]) by {
                assert(front[i] == p[i]);
            }
            assert forall|i: int| 0 <= i < front.len() - 1 implies edges[#[trigger] front[i] as int].from
                == edges[front[i + 1] as int].to by {
                assert(front[i] == p[i] && front[i + 1] == p[i + 1]);
            }
        }
        lemma_potential_chain(edges, proof, d, front);
        assert(edges[p[p.len() - 2] as int].from == edges[p[p.len() - 1] as int].to);
        assert(front[0] == p[0]);
        assert(front.last() == p[p.len() - 2]);
        assert(p.last() == p[p.len() - 1]);
        assert(walk_weight(edges, p) == walk_weight(edges, front) + weight_of(edges, last));
    }
}

/// Against a potential of every proof edge, no closed walk of proof edges
/// has positive weight.
proof fn lemma_potential_closed(edges: Seq<AffineValueEdge>, proof: Seq<usize>, d: Seq<int>, c: Seq<usize>)
    requires
        potential(edges, proof, d),
        proof_chain(edges, proof, c),
        c.len() >= 1,
        edges[c.last() as int].from == edges[c[0] as int].to,
    ensures
        walk_weight(edges, c) <= 0,
{
    lemma_potential_chain(edges, proof, d, c);
}

/// Following predecessors `k` steps back from `v` to `x` walks a chain of
/// proof edges that ends at `v`; the distance of `v` is at most that of `x`
/// plus the chain's weight, strictly so unless `x` improved before `v`.
proof fn lemma_back_chain(
    edges: Seq<AffineValueEdge>,
    proof: Seq<usize>,
    d: Seq<int>,
    pred: Seq<Option<usize>>,
    time: Seq<nat>,
    clock: nat,
    v: usize,
    k: nat,
)
    requires
        links(edges, proof, d, pred, time, clock),
        v < pred.len(),
        k >= 1,
        back(edges, pred, v, k) is Some,
    ensures
        ({
            let x = back(edges, pred, v, k)->0;
            let chain = back_edges(edges, pred, v, k);
            &&& x < pred.len()
            &&& chain.len() == k
            &&& proof_chain(edges, proof, chain)
            &&& edges[chain[0] as int].to == v
            &&& edges[chain.last() as int].from == x
            &&& d[v as int] <= d[x as int] + walk_weight(edges, chain)
            &&& (d[v as int] < d[x as int] + walk_weight(edges, chain) || time[x as int] < time[v as int])
        }),
    decreases k,
{
    let prev = back(edges, pred, v, (k - 1) as nat);
    assert(prev is Some);
    let y = prev->0;
    let chain = back_edges(edges, pred, v, k);
    let front = back_edges(edges, pred, v, (k - 1) as nat);
    if k == 1 {
        assert(y == v);
        assert(pred[v as int] is Some);
        assert(front =~= Seq::<usize>::empty());
        assert(chain =~= seq![pred[v as int]->0]);
        assert(chain.drop_last() =~= Seq::<usize>::empty());
        assert(proof_chain(edges, proof, chain));
    } else {
        lemma_back_chain(edges, proof, d, pred, time, clock, v, (k - 1) as nat);
        assert(y < pred.len() && pred[y as int] is Some);
        let e = pred[y as int]->0;
        assert(chain == front.push(e));
        assert(chain.drop_last() =~= front);
        assert(proof_chain(edges, proof, chain)) by {
            assert forall|i: int| 0 <= i < chain.len() implies #[trigger] chain[i] < edges.len()
                && proof.contains(chain[i]) by {
                if i < front.len() {
                    assert(chain[i] == front[i]);
                }
            }
            assert forall|i: int| 0 <= i < chain.len() - 1 implies edges[#[trigger] chain[i] as int].from
                == edges[chain[i + 1] as int].to by {
                if i < front.len() - 1 {
                    assert(chain[i] == front[i] && chain[i + 1] == front[i + 1]);
                } else {
                    assert(chain[i] == front.last());
                    assert(chain[i + 1] == e);
                }
            }
        }
        assert(chain[0] == front[0]);
    }
}

/// Going `a` steps back and then `b` more is going `a + b` steps back.
proof fn lemma_back_compose(
    edges: Seq<AffineValueEdge>,
    pred: Seq<Option<usize>>,
    x: usize,
    a: nat,
    b: nat,
)
    requires
        back(edges, pred, x, a) is Some,
    ensures
        back(edges, pred, back(edges, pred, x, a)->0, b) == back(edges, pred, x, a + b),
    decreases b,
{
    if b > 0 {
        lemma_back_compose(edges, pred, x, a, (b - 1) as nat);
        assert((a + b - 1) as nat == a + (b - 1) as nat);
    }
}


/// A node improved past `last`, where `last` bounds every chain of fewer
/// edges than there are nodes, has predecessors for as many steps back as
/// there are nodes: a missing step would end a chain whose weight bounds
/// the node's distance from above and `last` from below.
proof fn lemma_improved_node_has_long_chain(
    edges: Seq<AffineValueEdge>,
    proof: Seq<usize>,
    d: Seq<int>,
    pred: Seq<Option<usize>>,
    time: Seq<nat>,
    clock: nat,
    last: Seq<int>,
    x: usize,
    k: nat,
)
    requires
        links(edges, proof, d, pred, time, clock),
        relaxed_bound(edges, proof, last, pred.len() - 1),
        last.len() == pred.len(),
        forall|v: int| 0 <= v < last.len() ==> #[trigger] last[v] >= 0,
        x < pred.len(),
        d[x as int] > last[x as int],
        k <= pred.len(),
    ensures
        back(edges, pred, x, k) is Some,
    decreases k,
{
    if k > 0 {
        lemma_improved_node_has_long_chain(edges, proof, d, pred, time, clock, last, x, (k - 1) as nat);
        let s = back(edges, pred, x, (k - 1) as nat)->0;
        if k == 1 {
            assert(s == x);
            assert(d[x as int] >= 0 && last[x as int] >= 0);
            if pred[x as int] is None {
                assert(d[x as int] == 0);
            }
        } else {
            lemma_back_chain(edges, proof, d, pred, time, clock, x, (k - 1) as nat);
            let chain = back_edges(edges, pred, x, (k - 1) as nat);
            if pred[s as int] is None {
                assert(d[s as int] == 0);
                assert(proof_chain(edges, proof, chain));
                assert(last[edges[chain[0] as int].to as int] >= walk_weight(edges, chain));
            }
        }
    }
}

/// When every one of `n` steps back from `x` exists among `n` nodes, the
/// node reached returns to itself within `n` further steps, and every step
/// on the way exists.
proof fn lemma_chain_returns(
    edges: Seq<AffineValueEdge>,
    proof: Seq<usize>,
    d: Seq<int>,
    pred: Seq<Option<usize>>,
    time: Seq<nat>,
    clock: nat,
    x: usize,
)
    requires
        links(edges, proof, d, pred, time, clock),
        x < pred.len(),
        forall|k: nat| k <= pred.len() ==> #[trigger] back(edges, pred, x, k) is Some,
    ensures
        ({
            let start = back(edges, pred, x, pred.len() as nat)->0;
            exists|p: nat|
                1 <= p <= pred.len() && back(edges, pred, start, p) == Some(start) && forall|m: nat|
                    m <= p ==> (#[trigger] back(edges, pred, start, m)) is Some
        }),
{
    let n = pred.len();
    let start = back(edges, pred, x, n as nat)->0;
    let s = Seq::new((n + 1) as nat, |i: int| back(edges, pred, x, i as nat)->0 as int);
    assert forall|i: int| 0 <= i < s.len() implies 0 <= #[trigger] s[i] < n by {
        assert(back(edges, pred, x, i as nat) is Some);
        if i > 0 {
            lemma_back_chain(edges, proof, d, pred, time, clock, x, i as nat);
        }
    }
    if s.no_duplicates() {
        lemma_distinct_bounded(s, n as int);
    }
    let (i0, j0) = choose|i: int, j: int| 0 <= i < s.len() && 0 <= j < s.len() && i != j && s[i] == s[j];
    let i: nat = if i0 < j0 { i0 as nat } else { j0 as nat };
    let j: nat = if i0 < j0 { j0 as nat } else { i0 as nat };
    assert(s[i as int] == s[j as int]);
    assert(back(edges, pred, x, i) is Some && back(edges, pred, x, j) is Some);
    assert(back(edges, pred, x, i) == back(edges, pred, x, j));
    let p: nat = (j - i) as nat;
    assert forall|m: nat| m <= p implies (#[trigger] back(edges, pred, start, m)) is Some && (m == p ==> back(edges, pred, start, m) == Some(start)) by {
        lemma_back_compose(edges, pred, x, n as nat, m);
        let t: nat = (n + m - j) as nat;
        lemma_back_compose(edges, pred, x, i, t);
        lemma_back_compose(edges, pred, x, j, t);
        assert(j + t == n + m);
        assert(i + t <= n);
        assert(back(edges, pred, x, i + t) is Some);
        if m == p {
            assert(i + t == n);
        }
    }
    assert(back(edges, pred, start, p) == Some(start));
}


/// Relaxes every proof edge in the order listed, `n` rounds over, from
/// distance zero at every node: an edge improves its end node when the
/// distance of its start plus its minimum difference exceeds the end's.
/// Returns the distances, the edge that last improved each node, and the
/// node improved last in the final round.
///
/// Each predecessor cycle weighs more than zero; a node improved in the
/// final round has predecessors for `n` steps back; and a closed walk of
/// proof edges with positive weight leaves an improvement in the final
/// round.
pub(crate) fn relax_rounds(edges: &[AffineValueEdge], proof: &[usize], n: usize) -> (result: (
    Vec<ExactDyadic>,
    Vec<Option<usize>>,
    Option<usize>,
))
    requires
        edges_within(edges@, n as int),
        forall|i: int| 0 <= i < proof.len() ==> #[trigger] proof[i] < edges.len(),
    ensures
        result.1.len() == n,
        forall|v: int|
            0 <= v < n ==> (#[trigger] result.1[v] matches Some(e) ==> e < edges.len() && edges[e as int].to
                == v && proof@.contains(e)),
        forall|v: usize, k: nat|
            v < n && 1 <= k && #[trigger] back(edges@, result.1@, v, k) == Some(v) ==> walk_weight(
                edges@,
                back_edges(edges@, result.1@, v, k),
            ) > 0,
        result.2 matches Some(x) ==> x < n && (forall|k: nat|
            k <= n ==> #[trigger] back(edges@, result.1@, x, k) is Some) && ({
            let start = back(edges@, result.1@, x, n as nat)->0;
            exists|p: nat|
                1 <= p <= n && back(edges@, result.1@, start, p) == Some(start) && forall|m: nat|
                    m <= p ==> (#[trigger] back(edges@, result.1@, start, m)) is Some
        }),
        forall|c: Seq<usize>|
            #[trigger] proof_chain(edges@, proof@, c) && c.len() >= 1 && edges@[c.last() as int].from
                == edges@[c[0] as int].to && walk_weight(edges@, c) > 0 ==> result.2 is Some,
{
    let mut distances: Vec<ExactDyadic> = Vec::with_capacity(n);
    let mut predecessor: Vec<Option<usize>> = Vec::with_capacity(n);
    let mut fill: usize = 0;
    while fill < n
        invariant
            fill <= n,
            distances.len() == fill,
            predecessor.len() == fill,
            forall|v: int| 0 <= v < fill ==> #[trigger] predecessor[v] is None && distances[v].value() == 0,
        decreases n - fill,
    {
        distances.push(ExactDyadic::zero());
        predecessor.push(None);
        fill = fill + 1;
    }
    let ghost mut time: Seq<nat> = Seq::new(n as nat, |i: int| 0nat);
    let ghost mut clock: nat = 0;
    let ghost mut last: Seq<int> = Seq::new(n as nat, |i: int| 0int);
    proof {
        assert forall|v: int| 0 <= v < n implies #[trigger] values(distances@)[v] == 0 by {
            assert(predecessor[v] is None);
        }
    }
    let mut updated: Option<usize> = None;
    let mut round: usize = 0;
    while round < n
        invariant
            edges_within(edges@, n as int),
            forall|i: int| 0 <= i < proof.len() ==> #[trigger] proof[i] < edges.len(),
            distances.len() == n,
            predecessor.len() == n,
            round <= n,
            links(edges@, proof@, values(distances@), predecessor@, time, clock),
            relaxed_bound(edges@, proof@, values(distances@), round as int),
            last.len() == n,
            forall|v: int| 0 <= v < n ==> #[trigger] last[v] >= 0,
            round == 0 ==> updated is None,
            round > 0 ==> relaxed_bound(edges@, proof@, last, round - 1),
            round > 0 ==> (updated matches Some(x) ==> x < n && values(distances@)[x as int] > last[x as int]),
            round > 0 ==> (updated is None ==> potential(edges@, proof@, values(distances@))),
        decreases n - round,
    {
        proof {
            last = values(distances@);
            assert forall|v: int| 0 <= v < n implies #[trigger] last[v] >= 0 by {
                assert(values(distances@)[v] >= 0);
            }
        }
        updated = None;
        let mut position: usize = 0;
        while position < proof.len()
            invariant
                edges_within(edges@, n as int),
                forall|i: int| 0 <= i < proof.len() ==> #[trigger] proof[i] < edges.len(),
                distances.len() == n,
                predecessor.len() == n,
                round < n,
                position <= proof.len(),
                links(edges@, proof@, values(distances@), predecessor@, time, clock),
                relaxed_bound(edges@, proof@, values(distances@), round as int),
                relaxed_bound(edges@, proof@, last, round as int),
                current_bound(edges@, proof@, values(distances@), round + 1, proof@.take(position as int)),
                last.len() == n,
                forall|v: int| 0 <= v < n ==> #[trigger] last[v] >= 0,
                forall|v: int| 0 <= v < n ==> #[trigger] values(distances@)[v] >= last[v],
                updated matches Some(x) ==> x < n && values(distances@)[x as int] > last[x as int],
                updated is None ==> values(distances@) == last && potential(
                    edges@,
                    proof@.take(position as int),
                    values(distances@),
                ),
            decreases proof.len() - position,
        {
            let edge_index = proof[position];
            let source = edges[edge_index].from;
            let destination = edges[edge_index].to;
            let candidate = distances[source].add(&edges[edge_index].minimum_difference);
            let ghost d_before = values(distances@);
            let ghost updated_before = updated;
            proof {
                assert(proof@[position as int] == edge_index);
                assert(proof@.contains(edge_index));
                assert(edges@[edge_index as int].from < n && edges@[edge_index as int].to < n);
            }
            if candidate.is_greater_than(&distances[destination]) {
                proof {
                    lemma_links_relax(
                        edges@,
                        proof@,
                        d_before,
                        predecessor@,
                        time,
                        clock,
                        edge_index,
                        candidate.value(),
                    );
                }
                distances.set(destination, candidate);
                predecessor.set(destination, Some(edge_index));
                proof {
                    assert(values(distances@) =~= d_before.update(destination as int, candidate.value()));
                    time = time.update(destination as int, clock + 1);
                    clock = clock + 1;
                }
                updated = Some(destination);
            }
            proof {
                let d_after = values(distances@);
                assert forall|v: int| 0 <= v < n implies #[trigger] d_after[v] >= d_before[v] by {}
                assert forall|v: int| 0 <= v < n implies #[trigger] d_before[v] >= 0 by {
                    assert(values(distances@).len() == n);
                }
                assert(d_after[destination as int] >= d_before[source as int] + weight_of(edges@, edge_index));
                lemma_bound_step(
                    edges@,
                    proof@,
                    d_before,
                    d_after,
                    round + 1,
                    proof@.take(position as int),
                    edge_index,
                );
                assert(proof@.take(position + 1) =~= proof@.take(position as int).push(edge_index));
                lemma_bound_grows(edges@, proof@, d_before, d_after, round as int);
                assert forall|v: int| 0 <= v < n implies #[trigger] d_after[v] >= last[v] by {
                    assert(d_before[v] >= last[v]);
                }
                if updated is None {
                    assert(d_after == d_before);
                    let done = proof@.take(position + 1);
                    assert forall|q: int| 0 <= q < done.len() implies d_after[edges@[#[trigger] done[q] as int].from as int]
                        + weight_of(edges@, done[q]) <= d_after[edges@[done[q] as int].to as int] by {
                        if q < position {
                            assert(done[q] == proof@.take(position as int)[q]);
                        } else {
                            assert(done[q] == edge_index);
                        }
                    }
                }
            }
            position = position + 1;
        }
        proof {
            assert(proof@.take(proof.len() as int) =~= proof@);
            lemma_bound_extend(edges@, proof@, values(distances@), round + 1);
        }
        round = round + 1;
    }
    proof {
        let d = values(distances@);
        assert forall|v: usize, k: nat|
            v < n && 1 <= k && #[trigger] back(edges@, predecessor@, v, k) == Some(v) implies walk_weight(
            edges@,
            back_edges(edges@, predecessor@, v, k),
        ) > 0 by {
            lemma_back_chain(edges@, proof@, d, predecessor@, time, clock, v, k);
        }
        if updated is Some {
            let x = updated->0;
            assert forall|k: nat| k <= n implies #[trigger] back(edges@, predecessor@, x, k) is Some by {
                lemma_improved_node_has_long_chain(edges@, proof@, d, predecessor@, time, clock, last, x, k);
            }
            lemma_chain_returns(edges@, proof@, d, predecessor@, time, clock, x);
        }
        assert forall|c: Seq<usize>|
            #[trigger] proof_chain(edges@, proof@, c) && c.len() >= 1 && edges@[c.last() as int].from
                == edges@[c[0] as int].to && walk_weight(edges@, c) > 0 implies updated is Some by {
            assert(c[0] < edges.len());
            assert(edges@[c[0] as int].from < n);
            if updated is None {
                lemma_potential_closed(edges@, proof@, d, c);
            }
        }
    }
    (distances, predecessor, updated)
}

} // verus!
