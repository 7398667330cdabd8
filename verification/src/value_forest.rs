//! A union-find forest of canonical value nodes joined by hard equalities.
//!
//! Nodes are shared level sets and canonical support points. A hard
//! equality joins two components; an absolute target pins a component to a
//! value. Each component keeps the first absolute anchor it received, never
//! a derived offset, and every equality keeps its source so that a
//! contradiction can name the relations that prove it. Targets are the
//! canonical binary64 bit patterns of the pinned values, with zero folded to
//! positive zero, so that equal values have equal patterns.
use crate::functional::{sorted_unique_group_ids, strictly_increasing_groups, GroupId, SourceId};
use crate::graph::{count_unset, lemma_count_unset_set};
use vstd::prelude::*;

verus! {

/// The bit pattern of binary64 negative zero.
pub const NEGATIVE_ZERO_BITS: u64 = 0x8000_0000_0000_0000u64;

/// The canonical pattern of a binary64 value given by its bit pattern
/// `bits`: negative zero becomes positive zero, every other pattern stays.
pub fn canonical_scalar_bits(bits: u64) -> (canonical: u64)
    ensures
        canonical == if bits == NEGATIVE_ZERO_BITS {
            0
        } else {
            bits
        },
{
    if bits == NEGATIVE_ZERO_BITS {
        0
    } else {
        bits
    }
}

/// The canonical patterns of the coordinates of a support point.
pub fn canonical_support_bits(support: [u64; 3]) -> (canonical: [u64; 3])
    ensures
        forall|i: int| 0 <= i < 3 ==> #[trigger] canonical[i] == if support[i] == NEGATIVE_ZERO_BITS {
            0
        } else {
            support[i]
        },
{
    [
        canonical_scalar_bits(support[0]),
        canonical_scalar_bits(support[1]),
        canonical_scalar_bits(support[2]),
    ]
}

/// A canonical value node: a shared level set, or a support point given by
/// the canonical bit patterns of its coordinates.
#[derive(Debug, Clone, Copy, PartialEq, Eq, Structural)]
pub enum ValueNode {
    Group(GroupId),
    Support(u64, u64, u64),
}

/// The absolute anchor of a component: the node it was placed on, its
/// source and its target.
#[derive(Debug, Clone, Copy, PartialEq, Eq, Structural)]
pub struct AbsoluteTarget {
    pub node: usize,
    pub source_id: SourceId,
    pub target: u64,
}

/// What adding an equality or an anchor did to a forest.
#[derive(Debug)]
pub enum EdgeOutcome {
    /// The relation joined two components, or anchored an unanchored one.
    Independent,
    /// The relation was already implied.
    Redundant,
    /// The relation contradicts two anchors; the proof names its sources
    /// and the level sets it passes.
    Conflict {
        proof_source_ids: Vec<SourceId>,
        proof_group_ids: Vec<GroupId>,
        first_absolute: AbsoluteTarget,
        second_absolute: AbsoluteTarget,
    },
}

/// The anchor that pins a level set, and the sources that prove it.
#[derive(Debug, Clone)]
pub struct AbsoluteGroupProof {
    pub target: u64,
    pub source_ids: Vec<SourceId>,
}

/// Nodes, union-find parents, anchors and the equality edges between nodes.
pub struct ValueConstraintForest {
    nodes: Vec<ValueNode>,
    parent: Vec<usize>,
    absolute_target: Vec<Option<AbsoluteTarget>>,
    adjacency: Vec<Vec<(usize, SourceId)>>,
    rep: Ghost<Seq<usize>>,
    height: Ghost<Seq<nat>>,
    bound: Ghost<nat>,
}

/// Some equality edge of `adj` leads from `a` to `b`.
pub open spec fn has_edge(adj: Seq<Vec<(usize, SourceId)>>, a: usize, b: usize) -> bool {
    &&& a < adj.len()
    &&& exists|k: int| 0 <= k < adj[a as int]@.len() && #[trigger] adj[a as int]@[k].0 == b
}

/// `path` is a walk of nodes along equality edges of `adj`.
pub open spec fn adj_walk(adj: Seq<Vec<(usize, SourceId)>>, path: Seq<usize>) -> bool {
    &&& path.len() >= 1
    &&& forall|i: int| 0 <= i < path.len() - 1 ==> has_edge(adj, #[trigger] path[i], path[i + 1])
}

/// Some walk along equality edges of `adj` leads from `a` to `b`.
pub open spec fn connected(adj: Seq<Vec<(usize, SourceId)>>, a: usize, b: usize) -> bool {
    exists|path: Seq<usize>| #[trigger] adj_walk(adj, path) && path[0] == a && path.last() == b
}

/// The source of the first edge of `row` that leads to `to`.
pub open spec fn first_source_to(row: Seq<(usize, SourceId)>, to: usize) -> SourceId
    decreases row.len(),
{
    if row.len() == 0 {
        arbitrary()
    } else if row[0].0 == to {
        row[0].1
    } else {
        first_source_to(row.drop_first(), to)
    }
}

/// The source naming each step of `path`: that of the first edge of `adj`
/// from the step's node to the next.
pub open spec fn step_sources(adj: Seq<Vec<(usize, SourceId)>>, path: Seq<usize>) -> Seq<SourceId> {
    Seq::new((path.len() - 1) as nat, |i: int| first_source_to(adj[path[i] as int]@, path[i + 1]))
}

/// `groups` holds, in increasing order and once each, the level sets among
/// the nodes at positions `path` of `nodes`.
pub open spec fn groups_on(nodes: Seq<ValueNode>, path: Seq<usize>, groups: Seq<GroupId>) -> bool {
    &&& strictly_increasing_groups(groups)
    &&& forall|g: GroupId|
        #[trigger] groups.contains(g) <==> exists|i: int|
            0 <= i < path.len() && nodes[path[i] as int] == ValueNode::Group(g)
}

/// `path` is a walk of `adj` from `a` to `b` over nodes below `n`.
pub open spec fn walk_between(adj: Seq<Vec<(usize, SourceId)>>, n: int, path: Seq<usize>, a: usize, b: usize) -> bool {
    &&& adj_walk(adj, path)
    &&& path[0] == a
    &&& path.last() == b
    &&& forall|i: int| 0 <= i < path.len() ==> #[trigger] path[i] < n
}

/// The index of `node` in `nodes`.
pub open spec fn position_of(nodes: Seq<ValueNode>, node: ValueNode) -> int {
    choose|i: int| 0 <= i < nodes.len() && nodes[i] == node
}

/// `later` keeps every edge of `earlier`, in place, and may add more.
pub open spec fn extends(earlier: Seq<Vec<(usize, SourceId)>>, later: Seq<Vec<(usize, SourceId)>>) -> bool {
    &&& earlier.len() <= later.len()
    &&& forall|v: int|
        0 <= v < earlier.len() ==> (#[trigger] earlier[v])@.len() <= later[v]@.len() && forall|k: int|
            0 <= k < earlier[v]@.len() ==> later[v]@[k] == earlier[v]@[k]
}

/// Walks survive added edges.
proof fn lemma_walk_extends(
    earlier: Seq<Vec<(usize, SourceId)>>,
    later: Seq<Vec<(usize, SourceId)>>,
    path: Seq<usize>,
)
    requires
        extends(earlier, later),
        adj_walk(earlier, path),
    ensures
        adj_walk(later, path),
{
    assert forall|i: int| 0 <= i < path.len() - 1 implies has_edge(later, #[trigger] path[i], path[i + 1]) by {
        assert(has_edge(earlier, path[i], path[i + 1]));
        let k = choose|k: int| 0 <= k < earlier[path[i] as int]@.len() && #[trigger] earlier[path[i] as int]@[k].0 == path[i + 1];
        assert(later[path[i] as int]@[k] == earlier[path[i] as int]@[k]);
    }
}

/// Connections survive added edges.
proof fn lemma_connected_extends(
    earlier: Seq<Vec<(usize, SourceId)>>,
    later: Seq<Vec<(usize, SourceId)>>,
    a: usize,
    b: usize,
)
    requires
        extends(earlier, later),
        connected(earlier, a, b),
    ensures
        connected(later, a, b),
{
    let path = choose|path: Seq<usize>| #[trigger] adj_walk(earlier, path) && path[0] == a && path.last() == b;
    lemma_walk_extends(earlier, later, path);
}

/// Connection is transitive.
proof fn lemma_connected_trans(adj: Seq<Vec<(usize, SourceId)>>, a: usize, b: usize, c: usize)
    requires
        connected(adj, a, b),
        connected(adj, b, c),
    ensures
        connected(adj, a, c),
{
    let p = choose|path: Seq<usize>| #[trigger] adj_walk(adj, path) && path[0] == a && path.last() == b;
    let q = choose|path: Seq<usize>| #[trigger] adj_walk(adj, path) && path[0] == b && path.last() == c;
    let joined = p + q.drop_first();
    assert forall|i: int| 0 <= i < joined.len() - 1 implies has_edge(adj, #[trigger] joined[i], joined[i + 1]) by {
        if i < p.len() - 1 {
            assert(joined[i] == p[i] && joined[i + 1] == p[i + 1]);
        } else if i == p.len() - 1 {
            assert(joined[i] == p.last());
            assert(joined[i + 1] == q[1]);
            assert(has_edge(adj, q[0], q[0int + 1]));
        } else {
            let j = i - p.len() + 1;
            assert(joined[i] == q[j] && joined[i + 1] == q[j + 1]);
        }
    }
    if q.len() == 1 {
        assert(joined =~= p);
    }
    assert(adj_walk(adj, joined));
}

/// An edge connects its ends, and every node is connected to itself.
proof fn lemma_edge_connects(adj: Seq<Vec<(usize, SourceId)>>, a: usize, b: usize)
    requires
        has_edge(adj, a, b),
    ensures
        connected(adj, a, b),
{
    let path = seq![a, b];
    assert(has_edge(adj, path[0], path[0int + 1]));
    assert(adj_walk(adj, path));
}

proof fn lemma_self_connected(adj: Seq<Vec<(usize, SourceId)>>, a: usize)
    ensures
        connected(adj, a, a),
{
    let path = seq![a];
    assert(adj_walk(adj, path));
}

/// The nodes flagged in `seen` are closed under the edges of `adj`.
pub open spec fn closed_nodes(adj: Seq<Vec<(usize, SourceId)>>, seen: Seq<bool>) -> bool {
    forall|v: int, k: int|
        0 <= v < adj.len() && seen[v] && 0 <= k < adj[v]@.len() ==> #[trigger] seen[adj[v]@[k].0 as int]
}

/// Every node of a walk that starts inside a closed set lies inside it.
proof fn lemma_closed_walk(adj: Seq<Vec<(usize, SourceId)>>, seen: Seq<bool>, path: Seq<usize>, i: int)
    requires
        closed_nodes(adj, seen),
        seen.len() == adj.len(),
        adj_walk(adj, path),
        path[0] < adj.len(),
        seen[path[0] as int],
        0 <= i < path.len(),
        forall|v: int, k: int| 0 <= v < adj.len() && 0 <= k < adj[v]@.len() ==> #[trigger] adj[v]@[k].0 < adj.len(),
    ensures
        path[i] < adj.len() && seen[path[i] as int],
    decreases i,
{
    if i > 0 {
        lemma_closed_walk(adj, seen, path, i - 1);
        assert(has_edge(adj, path[i - 1], path[i - 1 + 1]));
        let k = choose|k: int| 0 <= k < adj[path[i - 1] as int]@.len() && #[trigger] adj[path[i - 1] as int]@[k].0 == path[i];
        assert(seen[adj[path[i - 1] as int]@[k].0 as int]);
    }
}

/// With no flag set, every flag is unset.
proof fn lemma_count_unset_all(flags: Seq<bool>)
    requires
        forall|v: int| 0 <= v < flags.len() ==> !flags[v],
    ensures
        count_unset(flags) == flags.len(),
    decreases flags.len(),
{
    if flags.len() > 0 {
        lemma_count_unset_all(flags.drop_last());
    }
}

/// The source of the first edge of `row` that leads to `to`.
fn first_source(row: &Vec<(usize, SourceId)>, to: usize) -> (source: SourceId)
    requires
        exists|k: int| 0 <= k < row@.len() && #[trigger] row@[k].0 == to,
    ensures
        source == first_source_to(row@, to),
{
    let mut i: usize = 0;
    proof {
        assert(row@.skip(0) =~= row@);
    }
    while i < row.len()
        invariant
            i <= row@.len(),
            first_source_to(row@, to) == first_source_to(row@.skip(i as int), to),
            forall|k: int| 0 <= k < i ==> row@[k].0 != to,
        decreases row.len() - i,
    {
        proof {
            assert(row@.skip(i as int)[0] == row@[i as int]);
            assert(row@.skip(i as int).drop_first() =~= row@.skip(i as int + 1));
        }
        if row[i].0 == to {
            return row[i].1;
        }
        i = i + 1;
    }
    proof {
        let k = choose|k: int| 0 <= k < row@.len() && #[trigger] row@[k].0 == to;
        assert(row@[k].0 != to);
    }
    row[0].1
}

/// Appends `more` to `out`.
fn append_sources(out: &mut Vec<SourceId>, more: &Vec<SourceId>)
    ensures
        final(out)@ == old(out)@ + more@,
{
    let ghost base = out@;
    let mut k: usize = 0;
    while k < more.len()
        invariant
            k <= more@.len(),
            out@ == base + more@.take(k as int),
        decreases more.len() - k,
    {
        out.push(more[k]);
        proof {
            assert(out@ =~= base + more@.take(k as int + 1));
        }
        k = k + 1;
    }
    proof {
        assert(more@.take(k as int) =~= more@);
    }
}

/// Appends `more` to `out`.
fn append_nodes(out: &mut Vec<usize>, more: &Vec<usize>)
    ensures
        final(out)@ == old(out)@ + more@,
{
    let ghost base = out@;
    let mut k: usize = 0;
    while k < more.len()
        invariant
            k <= more@.len(),
            out@ == base + more@.take(k as int),
        decreases more.len() - k,
    {
        out.push(more[k]);
        proof {
            assert(out@ =~= base + more@.take(k as int + 1));
        }
        k = k + 1;
    }
    proof {
        assert(more@.take(k as int) =~= more@);
    }
}

/// A copy of the edge list `row`.
fn copy_edges(row: &Vec<(usize, SourceId)>) -> (copy: Vec<(usize, SourceId)>)
    ensures
        copy@ == row@,
{
    let mut copy: Vec<(usize, SourceId)> = Vec::new();
    let mut k: usize = 0;
    while k < row.len()
        invariant
            k <= row@.len(),
            copy@ == row@.take(k as int),
        decreases row.len() - k,
    {
        let entry = row[k];
        copy.push(entry);
        proof {
            assert(copy@ =~= row@.take(k as int + 1));
        }
        k = k + 1;
    }
    proof {
        assert(row@.take(k as int) =~= row@);
    }
    copy
}

impl ValueConstraintForest {
    /// The nodes, by index.
    pub closed spec fn nodes_spec(self) -> Seq<ValueNode> {
        self.nodes@
    }

    /// The representative of each node's component.
    pub closed spec fn rep_spec(self) -> Seq<usize> {
        self.rep@
    }

    /// The anchor of each node's component, held by the representative.
    pub closed spec fn anchor_spec(self, v: int) -> Option<AbsoluteTarget> {
        self.absolute_target@[self.rep@[v] as int]
    }

    /// The equality edges leaving each node, with their sources.
    pub closed spec fn edges_spec(self) -> Seq<Vec<(usize, SourceId)>> {
        self.adjacency@
    }

    /// Whether `a` and `b` were joined, a node not yet held being joined only
    /// to itself.
    pub open spec fn joined_before(self, a: int, b: int) -> bool {
        if a < self.nodes_spec().len() && b < self.nodes_spec().len() {
            self.joined(a, b)
        } else {
            a == b
        }
    }

    /// The anchor of `v`'s component; a node not yet held has none.
    pub open spec fn anchor_before(self, v: int) -> Option<AbsoluteTarget> {
        if v < self.nodes_spec().len() {
            self.anchor_spec(v)
        } else {
            None
        }
    }

    /// `later` holds this forest's nodes, in place, and possibly `node` after them.
    pub open spec fn grown_by(self, later: Self, node: ValueNode) -> bool {
        &&& later.nodes_spec().contains(node)
        &&& (later.nodes_spec() == self.nodes_spec() || later.nodes_spec() == self.nodes_spec().push(
            node,
        ))
    }

    /// Nodes `a` and `b` lie in one component.
    pub open spec fn joined(self, a: int, b: int) -> bool {
        self.rep_spec()[a] == self.rep_spec()[b]
    }

    /// The forest's internal invariant: distinct nodes, parents that climb
    /// to a representative, anchors only on representatives, and edges only
    /// inside components, each node connected to its representative both ways.
    pub closed spec fn wf(self) -> bool {
        let n = self.nodes@.len();
        &&& self.parent@.len() == n
        &&& self.absolute_target@.len() == n
        &&& self.adjacency@.len() == n
        &&& self.rep@.len() == n
        &&& self.height@.len() == n
        &&& forall|i: int, j: int| 0 <= i < j < n ==> self.nodes@[i] != self.nodes@[j]
        &&& forall|v: int|
            0 <= v < n ==> {
                &&& #[trigger] self.parent@[v] < n
                &&& self.rep@[self.parent@[v] as int] == self.rep@[v]
                &&& (self.parent@[v] == v ==> self.rep@[v] == v)
                &&& (self.parent@[v] != v ==> self.height@[self.parent@[v] as int] > self.height@[v])
            }
        &&& forall|v: int|
            0 <= v < n ==> #[trigger] self.rep@[v] < n && self.parent@[self.rep@[v] as int]
                == self.rep@[v] && connected(self.adjacency@, v as usize, self.rep@[v]) && connected(
                self.adjacency@,
                self.rep@[v],
                v as usize,
            )
        &&& forall|v: int| 0 <= v < n ==> #[trigger] self.height@[v] <= self.bound@
        &&& forall|v: int|
            0 <= v < n ==> (#[trigger] self.absolute_target@[v] matches Some(t) ==> self.parent@[v]
                == v && t.node < n && self.rep@[t.node as int] == v)
        &&& forall|v: int, k: int|
            0 <= v < n && 0 <= k < self.adjacency@[v]@.len() ==> #[trigger] self.adjacency@[v]@[k].0 < n
                && self.rep@[self.adjacency@[v]@[k].0 as int] == self.rep@[v]
    }

    /// An empty forest.
    pub fn new() -> (forest: Self)
        ensures
            forest.wf(),
            forest.nodes_spec().len() == 0,
    {
        Self {
            nodes: Vec::new(),
            parent: Vec::new(),
            absolute_target: Vec::new(),
            adjacency: Vec::new(),
            rep: Ghost(Seq::empty()),
            height: Ghost(Seq::empty()),
            bound: Ghost(0),
        }
    }

    /// The index of `node`, if the forest holds it.
    pub fn find(&self, node: ValueNode) -> (index: Option<usize>)
        requires
            self.wf(),
        ensures
            index matches Some(i) ==> i < self.nodes_spec().len() && self.nodes_spec()[i as int] == node,
            index is None ==> !self.nodes_spec().contains(node),
    {
        let mut i: usize = 0;
        while i < self.nodes.len()
            invariant
                i <= self.nodes@.len(),
                forall|k: int| 0 <= k < i ==> self.nodes@[k] != node,
            decreases self.nodes.len() - i,
        {
            if self.nodes[i] == node {
                return Some(i);
            }
            i = i + 1;
        }
        None
    }

    /// The index of `node`, adding it as a component of its own when absent.
    fn intern(&mut self, node: ValueNode) -> (index: usize)
        requires
            old(self).wf(),
            old(self).nodes@.len() < usize::MAX,
        ensures
            final(self).wf(),
            index < final(self).nodes@.len(),
            final(self).nodes@[index as int] == node,
            old(self).nodes@.contains(node) ==> {
                &&& final(self).nodes@ == old(self).nodes@
                &&& final(self).rep@ == old(self).rep@
                &&& final(self).absolute_target@ == old(self).absolute_target@
                &&& final(self).adjacency@ == old(self).adjacency@
            },
            !old(self).nodes@.contains(node) ==> {
                &&& final(self).nodes@ == old(self).nodes@.push(node)
                &&& final(self).rep@ == old(self).rep@.push(index)
                &&& final(self).absolute_target@ == old(self).absolute_target@.push(None)
                &&& final(self).adjacency@.len() == old(self).adjacency@.len() + 1
                &&& final(self).adjacency@.drop_last() == old(self).adjacency@
                &&& final(self).adjacency@.last()@.len() == 0
                &&& index == old(self).nodes@.len()
            },
    {
        match self.find(node) {
            Some(index) => index,
            None => {
                let index = self.nodes.len();
                self.nodes.push(node);
                self.parent.push(index);
                self.absolute_target.push(None);
                let ghost before = self.adjacency@;
                self.adjacency.push(Vec::new());
                self.rep = Ghost(self.rep@.push(index));
                self.height = Ghost(self.height@.push(0));
                proof {
                    assert(extends(before, self.adjacency@));
                    assert forall|v: int| 0 <= v < self.nodes@.len() implies #[trigger] self.rep@[v]
                        < self.nodes@.len() && self.parent@[self.rep@[v] as int] == self.rep@[v]
                        && connected(self.adjacency@, v as usize, self.rep@[v]) && connected(
                        self.adjacency@,
                        self.rep@[v],
                        v as usize,
                    ) by {
                        if v < index {
                            lemma_connected_extends(before, self.adjacency@, v as usize, self.rep@[v]);
                            lemma_connected_extends(before, self.adjacency@, self.rep@[v], v as usize);
                        } else {
                            lemma_self_connected(self.adjacency@, index);
                        }
                    }
                }
                index
            },
        }
    }

    /// The representative of `index`'s component, shortening the parent
    /// chain on the way.
    fn root(&mut self, index: usize) -> (r: usize)
        requires
            old(self).wf(),
            index < old(self).nodes@.len(),
        ensures
            final(self).wf(),
            r == old(self).rep@[index as int],
            final(self).nodes@ == old(self).nodes@,
            final(self).rep@ == old(self).rep@,
            final(self).absolute_target@ == old(self).absolute_target@,
            final(self).adjacency@ == old(self).adjacency@,
            final(self).height@ == old(self).height@,
            final(self).bound@ == old(self).bound@,
            old(self).height@[r as int] >= old(self).height@[index as int],
        decreases old(self).bound@ - old(self).height@[index as int],
    {
        let parent = self.parent[index];
        if parent == index {
            return index;
        }
        proof {
            assert(self.parent@[index as int] == parent);
            assert(self.height@[parent as int] > self.height@[index as int]);
            assert(self.height@[parent as int] <= self.bound@);
        }
        let r = self.root(parent);
        self.parent.set(index, r);
        r
    }

    /// Joins the components of `l` and `r`, whose representatives `lr` and
    /// `rr` differ, by an equality from `source_id`: `rr` comes under `lr`,
    /// and the joined component keeps `lr`'s anchor, or `rr`'s when `lr`
    /// has none.
    fn merge(&mut self, l: usize, r: usize, lr: usize, rr: usize, source_id: SourceId)
        requires
            old(self).wf(),
            l < old(self).nodes@.len(),
            r < old(self).nodes@.len(),
            lr == old(self).rep@[l as int],
            rr == old(self).rep@[r as int],
            lr != rr,
        ensures
            final(self).wf(),
            final(self).nodes@ == old(self).nodes@,
            forall|v: int|
                0 <= v < old(self).nodes@.len() ==> #[trigger] final(self).rep@[v] == if old(
                    self,
                ).rep@[v] == rr {
                    lr
                } else {
                    old(self).rep@[v]
                },
            final(self).absolute_target@[lr as int] == if old(self).absolute_target@[lr as int] is Some {
                old(self).absolute_target@[lr as int]
            } else {
                old(self).absolute_target@[rr as int]
            },
            forall|v: int|
                0 <= v < old(self).nodes@.len() && v != lr ==> #[trigger] final(self).absolute_target@[v]
                    == if v == rr {
                    None
                } else {
                    old(self).absolute_target@[v]
                },
            final(self).adjacency@.len() == old(self).adjacency@.len(),
            forall|v: int|
                0 <= v < old(self).adjacency@.len() ==> (#[trigger] final(self).adjacency@[v])@ == if v
                    == l {
                    old(self).adjacency@[v]@.push((r, source_id))
                } else if v == r {
                    old(self).adjacency@[v]@.push((l, source_id))
                } else {
                    old(self).adjacency@[v]@
                },
    {
        let ghost n = self.nodes@.len();
        let ghost old_adj = self.adjacency@;
        let ghost old_rep = self.rep@;
        let ghost old_height = self.height@;
        let ghost old_parent = self.parent@;
        let ghost old_target = self.absolute_target@;
        proof {
            assert(old_rep[l as int] < n && old_rep[r as int] < n);
            assert(old_parent[lr as int] == lr);
            assert(old_parent[rr as int] == rr);
            assert(l != r);
        }
        let mut left_row = copy_edges(&self.adjacency[l]);
        left_row.push((r, source_id));
        self.adjacency.set(l, left_row);
        let mut right_row = copy_edges(&self.adjacency[r]);
        right_row.push((l, source_id));
        self.adjacency.set(r, right_row);
        self.parent.set(rr, lr);
        let left_target = self.absolute_target[lr];
        let right_target = self.absolute_target[rr];
        if left_target.is_none() {
            self.absolute_target.set(lr, right_target);
        }
        self.absolute_target.set(rr, None);
        let ghost raised: nat = if old_height[lr as int] > old_height[rr as int] {
            old_height[lr as int]
        } else {
            old_height[rr as int] + 1
        };
        self.rep = Ghost(Seq::new(n, |v: int| if old_rep[v] == rr { lr } else { old_rep[v] }));
        self.height = Ghost(old_height.update(lr as int, raised));
        self.bound = Ghost(if self.bound@ >= raised { self.bound@ } else { raised });
        proof {
            let adj = self.adjacency@;
            assert forall|v: int| 0 <= v < old_adj.len() implies (#[trigger] adj[v])@ == if v == l {
                old_adj[v]@.push((r, source_id))
            } else if v == r {
                old_adj[v]@.push((l, source_id))
            } else {
                old_adj[v]@
            } by {}
            assert(extends(old_adj, adj));
            assert(has_edge(adj, r, l)) by {
                assert(adj[r as int]@[old_adj[r as int]@.len() as int].0 == l);
            }
            assert(has_edge(adj, l, r)) by {
                assert(adj[l as int]@[old_adj[l as int]@.len() as int].0 == r);
            }
            lemma_edge_connects(adj, r, l);
            lemma_edge_connects(adj, l, r);
            lemma_connected_extends(old_adj, adj, rr, r);
            lemma_connected_extends(old_adj, adj, r, rr);
            lemma_connected_extends(old_adj, adj, l, lr);
            lemma_connected_extends(old_adj, adj, lr, l);
            lemma_connected_trans(adj, rr, r, l);
            lemma_connected_trans(adj, rr, l, lr);
            lemma_connected_trans(adj, lr, l, r);
            lemma_connected_trans(adj, lr, r, rr);
            assert forall|v: int| 0 <= v < n implies #[trigger] self.rep@[v] < n && self.parent@[self.rep@[v] as int]
                == self.rep@[v] && connected(self.adjacency@, v as usize, self.rep@[v]) && connected(
                self.adjacency@,
                self.rep@[v],
                v as usize,
            ) by {
                assert(old_rep[v] < n);
                lemma_connected_extends(old_adj, adj, v as usize, old_rep[v]);
                lemma_connected_extends(old_adj, adj, old_rep[v], v as usize);
                if old_rep[v] == rr {
                    lemma_connected_trans(adj, v as usize, rr, lr);
                    lemma_connected_trans(adj, lr, rr, v as usize);
                }
            }
            assert forall|v: int| 0 <= v < n implies {
                &&& #[trigger] self.parent@[v] < n
                &&& self.rep@[self.parent@[v] as int] == self.rep@[v]
                &&& (self.parent@[v] == v ==> self.rep@[v] == v)
                &&& (self.parent@[v] != v ==> self.height@[self.parent@[v] as int] > self.height@[v])
            } by {
                assert(old_parent[v] < n);
                assert(old_rep[old_parent[v] as int] == old_rep[v]);
                if v == rr {
                } else if v == lr {
                } else {
                    if old_parent[v] != v {
                        assert(old_height[old_parent[v] as int] > old_height[v]);
                    }
                }
            }
            assert forall|v: int| 0 <= v < n implies #[trigger] self.height@[v] <= self.bound@ by {
                assert(old_height[v] <= old(self).bound@);
            }
            assert forall|v: int| 0 <= v < n implies (#[trigger] self.absolute_target@[v] matches Some(t)
                ==> self.parent@[v] == v && t.node < n && self.rep@[t.node as int] == v) by {
                if v == lr {
                    if let Some(t) = old_target[lr as int] {
                        assert(old_rep[t.node as int] == lr);
                    } else if let Some(t) = old_target[rr as int] {
                        assert(old_rep[t.node as int] == rr);
                    }
                } else if v != rr {
                    if let Some(t) = old_target[v] {
                        assert(old_rep[t.node as int] == v);
                        assert(old_parent[v] == v);
                    }
                }
            }
            assert forall|v: int, k: int|
                0 <= v < n && 0 <= k < self.adjacency@[v]@.len() implies #[trigger] self.adjacency@[v]@[k].0 < n
                    && self.rep@[self.adjacency@[v]@[k].0 as int] == self.rep@[v] by {
                if k < old_adj[v]@.len() {
                    assert(self.adjacency@[v]@[k] == old_adj[v]@[k]);
                    assert(old_adj[v]@[k].0 < n);
                    assert(old_rep[old_adj[v]@[k].0 as int] == old_rep[v]);
                }
            }
        }
    }

    /// A walk of nodes along equality edges from `start` to `end`, found
    /// breadth first.
    fn proof_path(&self, start: usize, end: usize) -> (path: Vec<usize>)
        requires
            self.wf(),
            start < self.nodes@.len(),
            end < self.nodes@.len(),
            self.rep@[start as int] == self.rep@[end as int],
        ensures
            adj_walk(self.adjacency@, path@),
            path@[0] == start,
            path@.last() == end,
            forall|i: int| 0 <= i < path@.len() ==> #[trigger] path@[i] < self.nodes@.len(),
    {
        let n = self.adjacency.len();
        let ghost adj = self.adjacency@;
        proof {
            assert(self.rep@[start as int] < n);
            assert(self.rep@[end as int] < n);
            lemma_connected_trans(adj, start, self.rep@[start as int], end);
            assert forall|v: int, k: int| 0 <= v < n && 0 <= k < adj[v]@.len() implies #[trigger] adj[v]@[k].0 < n by {
                assert(self.adjacency@[v]@[k].0 < n);
            }
        }
        let mut seen: Vec<bool> = Vec::with_capacity(n);
        let mut predecessor: Vec<usize> = Vec::with_capacity(n);
        let mut fill: usize = 0;
        while fill < n
            invariant
                fill <= n,
                seen@.len() == fill,
                predecessor@.len() == fill,
                forall|v: int| 0 <= v < fill ==> !seen@[v],
            decreases n - fill,
        {
            seen.push(false);
            predecessor.push(0);
            fill = fill + 1;
        }
        let ghost mut depth: Seq<nat> = Seq::new(n as nat, |v: int| 0nat);
        let ghost mut position: Seq<int> = Seq::new(n as nat, |v: int| 0int);
        proof {
            lemma_count_unset_all(seen@);
            lemma_count_unset_set(seen@, start as int);
        }
        seen.set(start, true);
        let mut queue: Vec<usize> = Vec::new();
        queue.push(start);
        let mut head: usize = 0;
        proof {
            assert forall|v: int| 0 <= v < n && #[trigger] seen@[v] implies 0 <= position[v] < queue@.len()
                && queue@[position[v]] == v by {
                if v != start {
                    assert(!seen@[v]);
                }
            }
        }
        while head < queue.len()
            invariant_except_break
                forall|i: int, k: int|
                    0 <= i < head && 0 <= k < adj[queue@[i] as int]@.len() ==> #[trigger] seen@[adj[queue@[i] as int]@[k].0 as int],
            invariant
                n == adj.len(),
                adj == self.adjacency@,
                forall|v: int, k: int| 0 <= v < n && 0 <= k < adj[v]@.len() ==> #[trigger] adj[v]@[k].0 < n,
                start < n,
                end < n,
                seen@.len() == n,
                predecessor@.len() == n,
                depth.len() == n,
                position.len() == n,
                seen@[start as int],
                head <= queue@.len(),
                count_unset(seen@) + queue@.len() == n,
                forall|i: int| 0 <= i < queue@.len() ==> #[trigger] queue@[i] < n && seen@[queue@[i] as int],
                forall|v: int|
                    0 <= v < n && #[trigger] seen@[v] ==> 0 <= position[v] < queue@.len() && queue@[position[v]] == v,
                forall|v: int|
                    0 <= v < n && seen@[v] && v != start ==> #[trigger] predecessor@[v] < n && seen@[predecessor@[v] as int]
                        && has_edge(adj, predecessor@[v], v as usize) && depth[predecessor@[v] as int] < depth[v],
            ensures
                seen@[end as int] || (head == queue@.len() && forall|i: int, k: int|
                    0 <= i < head && 0 <= k < adj[queue@[i] as int]@.len() ==> #[trigger] seen@[adj[queue@[i] as int]@[k].0 as int]),
            decreases count_unset(seen@), queue@.len() - head,
        {
            let node = queue[head];
            head = head + 1;
            if node == end {
                break;
            }
            let row = &self.adjacency[node];
            let ghost queue_before = queue@;
            let ghost seen_before = seen@;
            let ghost head_now = head;
            let mut k: usize = 0;
            while k < row.len()
                invariant
                    n == adj.len(),
                    adj == self.adjacency@,
                    forall|v: int, k: int| 0 <= v < n && 0 <= k < adj[v]@.len() ==> #[trigger] adj[v]@[k].0 < n,
                    start < n,
                    end < n,
                    node < n,
                    seen@[node as int],
                    row@ == adj[node as int]@,
                    k <= row@.len(),
                    seen@.len() == n,
                    predecessor@.len() == n,
                    depth.len() == n,
                    position.len() == n,
                    seen@[start as int],
                    head == head_now,
                    head >= 1,
                    head <= queue_before.len(),
                    queue_before[head - 1] == node,
                    seen_before.len() == n,
                    queue@.len() >= queue_before.len(),
                    count_unset(seen@) + queue@.len() == n,
                    count_unset(seen@) <= count_unset(seen_before),
                    forall|i: int| 0 <= i < queue_before.len() ==> queue@[i] == queue_before[i],
                    forall|v: int| 0 <= v < n && seen_before[v] ==> seen@[v],
                    forall|i: int, j: int|
                        0 <= i < head - 1 && 0 <= j < adj[queue_before[i] as int]@.len() ==> #[trigger] seen_before[adj[queue_before[i] as int]@[j].0 as int],
                    forall|j: int| 0 <= j < k ==> #[trigger] seen@[row@[j].0 as int],
                    forall|i: int| 0 <= i < queue@.len() ==> #[trigger] queue@[i] < n && seen@[queue@[i] as int],
                    forall|v: int|
                        0 <= v < n && #[trigger] seen@[v] ==> 0 <= position[v] < queue@.len() && queue@[position[v]] == v,
                    forall|v: int|
                        0 <= v < n && seen@[v] && v != start ==> #[trigger] predecessor@[v] < n && seen@[predecessor@[v] as int]
                            && has_edge(adj, predecessor@[v], v as usize) && depth[predecessor@[v] as int] < depth[v],
                decreases row.len() - k,
            {
                let next = row[k].0;
                proof {
                    assert(adj[node as int]@[k as int].0 == next);
                    assert(next < n);
                }
                if !seen[next] {
                    proof {
                        lemma_count_unset_set(seen@, next as int);
                        depth = depth.update(next as int, depth[node as int] + 1);
                        position = position.update(next as int, queue@.len() as int);
                        assert(has_edge(adj, node, next));
                    }
                    seen.set(next, true);
                    predecessor.set(next, node);
                    queue.push(next);
                }
                k = k + 1;
            }
            proof {
                assert forall|i: int, j: int|
                    0 <= i < head && 0 <= j < adj[queue@[i] as int]@.len() implies #[trigger] seen@[adj[queue@[i] as int]@[j].0 as int] by {
                    assert(queue@[i] == queue_before[i]);
                    if i < head - 1 {
                        assert(seen_before[adj[queue_before[i] as int]@[j].0 as int]);
                    } else {
                        assert(seen@[row@[j].0 as int]);
                    }
                }
            }
        }
        proof {
            if !seen@[end as int] {
                assert(closed_nodes(adj, seen@)) by {
                    assert forall|v: int, k: int|
                        0 <= v < adj.len() && seen@[v] && 0 <= k < adj[v]@.len() implies #[trigger] seen@[adj[v]@[k].0 as int] by {
                        let i = position[v];
                        assert(queue@[i] == v);
                        assert(seen@[adj[queue@[i] as int]@[k].0 as int]);
                    }
                }
                let walk = choose|path: Seq<usize>| #[trigger] adj_walk(adj, path) && path[0] == start && path.last() == end;
                lemma_closed_walk(adj, seen@, walk, walk.len() - 1);
                assert(false);
            }
        }
        let mut path: Vec<usize> = Vec::new();
        path.push(end);
        let mut cursor = end;
        while cursor != start
            invariant
                n == adj.len(),
                adj == self.adjacency@,
                cursor < n,
                start < n,
                seen@.len() == n,
                predecessor@.len() == n,
                depth.len() == n,
                seen@[cursor as int],
                forall|v: int|
                    0 <= v < n && seen@[v] && v != start ==> #[trigger] predecessor@[v] < n && seen@[predecessor@[v] as int]
                        && has_edge(adj, predecessor@[v], v as usize) && depth[predecessor@[v] as int] < depth[v],
                adj_walk(adj, path@),
                path@[0] == cursor,
                path@.last() == end,
                forall|i: int| 0 <= i < path@.len() ==> #[trigger] path@[i] < n,
            decreases depth[cursor as int],
        {
            let previous = predecessor[cursor];
            let ghost rest = path@;
            path.insert(0, previous);
            proof {
                assert(path@ == seq![previous] + rest);
                assert forall|i: int| 0 <= i < path@.len() - 1 implies has_edge(adj, #[trigger] path@[i], path@[i + 1]) by {
                    if i > 0 {
                        assert(path@[i] == rest[i - 1] && path@[i + 1] == rest[i]);
                        assert(has_edge(adj, rest[i - 1], rest[i - 1 + 1]));
                    }
                }
                assert forall|i: int| 0 <= i < path@.len() implies #[trigger] path@[i] < n by {
                    if i > 0 {
                        assert(path@[i] == rest[i - 1]);
                    }
                }
            }
            cursor = previous;
        }
        path
    }

    /// The source naming each step of the walk `path`.
    fn path_sources(&self, path: &Vec<usize>) -> (sources: Vec<SourceId>)
        requires
            self.wf(),
            adj_walk(self.adjacency@, path@),
            forall|i: int| 0 <= i < path@.len() ==> #[trigger] path@[i] < self.nodes@.len(),
        ensures
            sources@ == step_sources(self.adjacency@, path@),
    {
        let mut sources: Vec<SourceId> = Vec::new();
        let steps = path.len() - 1;
        let mut i: usize = 0;
        while i < steps
            invariant
                self.wf(),
                adj_walk(self.adjacency@, path@),
                forall|q: int| 0 <= q < path@.len() ==> #[trigger] path@[q] < self.nodes@.len(),
                steps == path@.len() - 1,
                i <= steps,
                sources@ == step_sources(self.adjacency@, path@).take(i as int),
            decreases steps - i,
        {
            proof {
                assert(has_edge(self.adjacency@, path@[i as int], path@[i as int + 1]));
            }
            let source = first_source(&self.adjacency[path[i]], path[i + 1]);
            sources.push(source);
            proof {
                assert(sources@ =~= step_sources(self.adjacency@, path@).take(i as int + 1));
            }
            i = i + 1;
        }
        proof {
            assert(step_sources(self.adjacency@, path@).take(i as int) =~= step_sources(
                self.adjacency@,
                path@,
            ));
        }
        sources
    }

    /// The level sets among the nodes at `path`, in increasing order, once each.
    fn path_groups(&self, path: &Vec<usize>) -> (groups: Vec<GroupId>)
        requires
            self.wf(),
            forall|i: int| 0 <= i < path@.len() ==> #[trigger] path@[i] < self.nodes@.len(),
        ensures
            groups_on(self.nodes@, path@, groups@),
    {
        let mut found: Vec<GroupId> = Vec::new();
        let mut i: usize = 0;
        while i < path.len()
            invariant
                self.wf(),
                forall|q: int| 0 <= q < path@.len() ==> #[trigger] path@[q] < self.nodes@.len(),
                i <= path@.len(),
                forall|g: GroupId|
                    #[trigger] found@.contains(g) <==> exists|q: int|
                        0 <= q < i && self.nodes@[path@[q] as int] == ValueNode::Group(g),
            decreases path.len() - i,
        {
            match self.nodes[path[i]] {
                ValueNode::Group(g) => {
                    let ghost before = found@;
                    found.push(g);
                    proof {
                        assert forall|h: GroupId| #[trigger] found@.contains(h) <==> exists|q: int|
                            0 <= q < i + 1 && self.nodes@[path@[q] as int] == ValueNode::Group(h) by {
                            if found@.contains(h) {
                                let k = choose|k: int| 0 <= k < found@.len() && found@[k] == h;
                                if k < before.len() {
                                    assert(before[k] == h);
                                    assert(before.contains(h));
                                } else {
                                    assert(h == g);
                                    assert(self.nodes@[path@[i as int] as int] == ValueNode::Group(h));
                                }
                            }
                            if exists|q: int| 0 <= q < i + 1 && self.nodes@[path@[q] as int] == ValueNode::Group(h) {
                                let q = choose|q: int| 0 <= q < i + 1 && self.nodes@[path@[q] as int] == ValueNode::Group(h);
                                if q < i {
                                    assert(before.contains(h));
                                    let k = choose|k: int| 0 <= k < before.len() && before[k] == h;
                                    assert(found@[k] == h);
                                } else {
                                    assert(h == g);
                                    assert(found@[found@.len() - 1] == g);
                                }
                            }
                        }
                    }
                },
                ValueNode::Support(_, _, _) => {},
            }
            i = i + 1;
        }
        sorted_unique_group_ids(found)
    }

    /// The position of a node that the forest holds.
    proof fn lemma_position(self, i: int)
        requires
            self.wf(),
            0 <= i < self.nodes@.len(),
        ensures
            position_of(self.nodes@, self.nodes@[i]) == i,
    {
        let p = position_of(self.nodes@, self.nodes@[i]);
        assert(0 <= p < self.nodes@.len() && self.nodes@[p] == self.nodes@[i]);
        if p < i {
            assert(self.nodes@[p] != self.nodes@[i]);
        } else if p > i {
            assert(self.nodes@[i] != self.nodes@[p]);
        }
    }

    /// Pins the component of `node` to `target` by an anchor from
    /// `source_id`. An unanchored component takes the anchor; an anchor with
    /// the same target is redundant; one with another target is a conflict
    /// whose proof names the existing anchor's source, the equalities of a
    /// walk from its node to `node`, and `source_id`.
    pub fn add_absolute_target(&mut self, node: ValueNode, target: u64, source_id: SourceId) -> (outcome:
        EdgeOutcome)
        requires
            old(self).wf(),
            old(self).nodes_spec().len() < usize::MAX,
        ensures
            final(self).wf(),
            old(self).grown_by(*final(self), node),
            forall|a: int, b: int|
                0 <= a < final(self).nodes_spec().len() && 0 <= b < final(self).nodes_spec().len()
                    ==> (#[trigger] final(self).joined(a, b) <==> old(self).joined_before(a, b)),
            ({
                let v = position_of(final(self).nodes_spec(), node);
                match outcome {
                    EdgeOutcome::Independent => {
                        &&& old(self).anchor_before(v) is None
                        &&& forall|w: int|
                            0 <= w < final(self).nodes_spec().len() ==> #[trigger] final(self).anchor_spec(w)
                                == if final(self).joined(w, v) {
                                Some(AbsoluteTarget { node: v as usize, source_id: source_id, target: target })
                            } else {
                                old(self).anchor_before(w)
                            }
                    },
                    EdgeOutcome::Redundant => {
                        &&& old(self).anchor_before(v) matches Some(t) && t.target == target
                        &&& forall|w: int|
                            0 <= w < final(self).nodes_spec().len() ==> #[trigger] final(self).anchor_spec(w)
                                == old(self).anchor_before(w)
                    },
                    EdgeOutcome::Conflict {
                        proof_source_ids,
                        proof_group_ids,
                        first_absolute,
                        second_absolute,
                    } => {
                        &&& old(self).anchor_before(v) == Some(first_absolute)
                        &&& first_absolute.target != target
                        &&& second_absolute == (AbsoluteTarget { node: v as usize, source_id: source_id, target: target })
                        &&& forall|w: int|
                            0 <= w < final(self).nodes_spec().len() ==> #[trigger] final(self).anchor_spec(w)
                                == old(self).anchor_before(w)
                        &&& exists|path: Seq<usize>|
                            #[trigger] walk_between(
                                final(self).edges_spec(),
                                final(self).nodes_spec().len() as int,
                                path,
                                first_absolute.node,
                                v as usize,
                            ) && proof_source_ids@ == seq![first_absolute.source_id] + step_sources(
                                final(self).edges_spec(),
                                path,
                            ) + seq![source_id] && groups_on(final(self).nodes_spec(), path, proof_group_ids@)
                    },
                }
            }),
    {
        let index = self.intern(node);
        let ghost mid = *self;
        let root = self.root(index);
        proof {
            self.lemma_position(index as int);
            assert(forall|a: int, b: int|
                0 <= a < self.nodes@.len() && 0 <= b < self.nodes@.len() ==> (self.joined(a, b)
                    <==> old(self).joined_before(a, b)));
            assert(forall|w: int|
                0 <= w < self.nodes@.len() ==> #[trigger] self.anchor_spec(w) == old(self).anchor_before(w));
        }
        match self.absolute_target[root] {
            Some(existing) => {
                if existing.target == target {
                    EdgeOutcome::Redundant
                } else {
                    proof {
                        assert(self.rep@[existing.node as int] == root);
                    }
                    let path = self.proof_path(existing.node, index);
                    let steps = self.path_sources(&path);
                    let mut proof_source_ids: Vec<SourceId> = Vec::new();
                    proof_source_ids.push(existing.source_id);
                    let mut k: usize = 0;
                    while k < steps.len()
                        invariant
                            k <= steps@.len(),
                            proof_source_ids@ == seq![existing.source_id] + steps@.take(k as int),
                        decreases steps.len() - k,
                    {
                        proof_source_ids.push(steps[k]);
                        proof {
                            assert(proof_source_ids@ =~= seq![existing.source_id] + steps@.take(k as int + 1));
                        }
                        k = k + 1;
                    }
                    proof_source_ids.push(source_id);
                    proof {
                        assert(steps@.take(k as int) =~= steps@);
                        assert(proof_source_ids@ =~= seq![existing.source_id] + steps@ + seq![source_id]);
                        assert(walk_between(self.adjacency@, self.nodes@.len() as int, path@, existing.node, index));
                        assert(position_of(self.nodes_spec(), node) as usize == index);
                        assert(walk_between(
                            self.edges_spec(),
                            self.nodes_spec().len() as int,
                            path@,
                            existing.node,
                            position_of(self.nodes_spec(), node) as usize,
                        ));
                    }
                    let proof_group_ids = self.path_groups(&path);
                    EdgeOutcome::Conflict {
                        proof_source_ids,
                        proof_group_ids,
                        first_absolute: existing,
                        second_absolute: AbsoluteTarget { node: index, source_id, target },
                    }
                }
            },
            None => {
                let anchor = AbsoluteTarget { node: index, source_id, target };
                self.absolute_target.set(root, Some(anchor));
                proof {
                    assert forall|w: int| 0 <= w < self.nodes@.len() implies (#[trigger] self.absolute_target@[w] matches Some(t)
                        ==> self.parent@[w] == w && t.node < self.nodes@.len() && self.rep@[t.node as int] == w) by {
                        if w == root {
                            assert(self.parent@[root as int] == root);
                        }
                    }
                }
                EdgeOutcome::Independent
            },
        }
    }

    /// The conflict between the anchors `first`, of `l`'s component, and
    /// `second`, of `r`'s, that an equality from `source_id` between `l` and
    /// `r` would close.
    fn equality_conflict(
        &self,
        l: usize,
        r: usize,
        first: AbsoluteTarget,
        second: AbsoluteTarget,
        source_id: SourceId,
    ) -> (outcome: EdgeOutcome)
        requires
            self.wf(),
            l < self.nodes@.len(),
            r < self.nodes@.len(),
            first.node < self.nodes@.len(),
            second.node < self.nodes@.len(),
            self.rep@[first.node as int] == self.rep@[l as int],
            self.rep@[second.node as int] == self.rep@[r as int],
        ensures
            outcome matches EdgeOutcome::Conflict {
                proof_source_ids,
                proof_group_ids,
                first_absolute,
                second_absolute,
            } && first_absolute == first && second_absolute == second && exists|p1: Seq<usize>, p2: Seq<usize>|
                #[trigger] walk_between(self.adjacency@, self.nodes@.len() as int, p1, first.node, l)
                    && #[trigger] walk_between(self.adjacency@, self.nodes@.len() as int, p2, r, second.node)
                    && proof_source_ids@ == seq![first.source_id] + step_sources(self.adjacency@, p1)
                    + seq![source_id] + step_sources(self.adjacency@, p2) + seq![second.source_id]
                    && groups_on(self.nodes@, p1 + p2, proof_group_ids@),
    {
        let p1 = self.proof_path(first.node, l);
        let p2 = self.proof_path(r, second.node);
        let s1 = self.path_sources(&p1);
        let s2 = self.path_sources(&p2);
        let mut proof_source_ids: Vec<SourceId> = Vec::new();
        proof_source_ids.push(first.source_id);
        append_sources(&mut proof_source_ids, &s1);
        proof_source_ids.push(source_id);
        append_sources(&mut proof_source_ids, &s2);
        proof_source_ids.push(second.source_id);
        let mut both: Vec<usize> = Vec::new();
        append_nodes(&mut both, &p1);
        append_nodes(&mut both, &p2);
        proof {
            assert(both@ =~= p1@ + p2@);
            assert(proof_source_ids@ =~= seq![first.source_id] + s1@ + seq![source_id] + s2@ + seq![
                second.source_id,
            ]);
            assert forall|i: int| 0 <= i < both@.len() implies #[trigger] both@[i] < self.nodes@.len() by {
                if i < p1@.len() {
                    assert(both@[i] == p1@[i]);
                } else {
                    assert(both@[i] == p2@[i - p1@.len()]);
                }
            }
        }
        let proof_group_ids = self.path_groups(&both);
        proof {
            assert(walk_between(self.adjacency@, self.nodes@.len() as int, p1@, first.node, l));
            assert(walk_between(self.adjacency@, self.nodes@.len() as int, p2@, r, second.node));
        }
        EdgeOutcome::Conflict {
            proof_source_ids,
            proof_group_ids,
            first_absolute: first,
            second_absolute: second,
        }
    }

    /// Joins the components of `left` and `right` by an equality from
    /// `source_id`. Nodes already joined make the equality redundant; two
    /// anchors with different targets make it a conflict, whose proof names
    /// the left anchor, the equalities of a walk from its node to `left`,
    /// `source_id`, the equalities of a walk from `right` to the right
    /// anchor's node, and that anchor. Otherwise the components join and keep
    /// the left anchor, or the right one; the equality is redundant when both
    /// had equal anchors.
    #[verifier::spinoff_prover]
    #[verifier::rlimit(40)]
    pub fn add_equality_edge(&mut self, left: ValueNode, right: ValueNode, source_id: SourceId) -> (outcome:
        EdgeOutcome)
        requires
            old(self).wf(),
            old(self).nodes_spec().len() + 2 <= usize::MAX,
        ensures
            final(self).wf(),
            final(self).nodes_spec().contains(left),
            final(self).nodes_spec().contains(right),
            final(self).nodes_spec().len() <= old(self).nodes_spec().len() + 2,
            final(self).nodes_spec().take(old(self).nodes_spec().len() as int) == old(self).nodes_spec(),
            ({
                let l = position_of(final(self).nodes_spec(), left);
                let r = position_of(final(self).nodes_spec(), right);
                let was = old(self).joined_before(l, r);
                let la = old(self).anchor_before(l);
                let ra = old(self).anchor_before(r);
                let clash = la is Some && ra is Some && la->0.target != ra->0.target;
                let merges = !was && !clash;
                &&& forall|a: int, b: int|
                    0 <= a < final(self).nodes_spec().len() && 0 <= b < final(self).nodes_spec().len() ==> (
                    #[trigger] final(self).joined(a, b) <==> if merges {
                        ||| old(self).joined_before(a, b)
                        ||| old(self).joined_before(a, l) && old(self).joined_before(b, r)
                        ||| old(self).joined_before(a, r) && old(self).joined_before(b, l)
                    } else {
                        old(self).joined_before(a, b)
                    })
                &&& forall|w: int|
                    0 <= w < final(self).nodes_spec().len() ==> #[trigger] final(self).anchor_spec(w) == if merges
                        && (old(self).joined_before(w, l) || old(self).joined_before(w, r)) {
                        if la is Some {
                            la
                        } else {
                            ra
                        }
                    } else {
                        old(self).anchor_before(w)
                    }
                &&& match outcome {
                    EdgeOutcome::Redundant => was || (la is Some && ra is Some && !clash),
                    EdgeOutcome::Independent => merges && !(la is Some && ra is Some),
                    EdgeOutcome::Conflict {
                        proof_source_ids,
                        proof_group_ids,
                        first_absolute,
                        second_absolute,
                    } => {
                        &&& !was
                        &&& la == Some(first_absolute)
                        &&& ra == Some(second_absolute)
                        &&& first_absolute.target != second_absolute.target
                        &&& exists|p1: Seq<usize>, p2: Seq<usize>|
                            #[trigger] walk_between(
                                final(self).edges_spec(),
                                final(self).nodes_spec().len() as int,
                                p1,
                                first_absolute.node,
                                l as usize,
                            ) && #[trigger] walk_between(
                                final(self).edges_spec(),
                                final(self).nodes_spec().len() as int,
                                p2,
                                r as usize,
                                second_absolute.node,
                            ) && proof_source_ids@ == seq![first_absolute.source_id] + step_sources(
                                final(self).edges_spec(),
                                p1,
                            ) + seq![source_id] + step_sources(final(self).edges_spec(), p2) + seq![
                                second_absolute.source_id,
                            ] && groups_on(final(self).nodes_spec(), p1 + p2, proof_group_ids@)
                    },
                }
            }),
    {
        let l = self.intern(left);
        let ghost after_left = *self;
        let r = self.intern(right);
        let lr = self.root(l);
        let rr = self.root(r);
        proof {
            self.lemma_position(l as int);
            self.lemma_position(r as int);
            assert(self.nodes@.take(old(self).nodes@.len() as int) =~= old(self).nodes@);
            assert forall|a: int, b: int|
                0 <= a < self.nodes@.len() && 0 <= b < self.nodes@.len() implies (self.joined(a, b)
                    <==> old(self).joined_before(a, b)) by {
                assert(after_left.joined_before(a, b) == old(self).joined_before(a, b));
            }
            assert forall|w: int| 0 <= w < self.nodes@.len() implies #[trigger] self.anchor_spec(w)
                == old(self).anchor_before(w) by {
                assert(after_left.anchor_before(w) == old(self).anchor_before(w));
            }
        }
        if lr == rr {
            return EdgeOutcome::Redundant;
        }
        let la = self.absolute_target[lr];
        let ra = self.absolute_target[rr];
        if let Some(first) = la {
            if let Some(second) = ra {
                if first.target != second.target {
                    proof {
                        assert(self.rep@[first.node as int] == lr);
                        assert(self.rep@[second.node as int] == rr);
                    }
                    let outcome = self.equality_conflict(l, r, first, second, source_id);
                    proof {
                        if let EdgeOutcome::Conflict { proof_source_ids, proof_group_ids, .. } = &outcome {
                            let (p1, p2) = choose|p1: Seq<usize>, p2: Seq<usize>|
                                #[trigger] walk_between(self.adjacency@, self.nodes@.len() as int, p1, first.node, l)
                                    && #[trigger] walk_between(self.adjacency@, self.nodes@.len() as int, p2, r, second.node)
                                    && proof_source_ids@ == seq![first.source_id] + step_sources(self.adjacency@, p1)
                                    + seq![source_id] + step_sources(self.adjacency@, p2) + seq![second.source_id]
                                    && groups_on(self.nodes@, p1 + p2, proof_group_ids@);
                            assert(walk_between(
                                self.edges_spec(),
                                self.nodes_spec().len() as int,
                                p1,
                                first.node,
                                position_of(self.nodes_spec(), left) as usize,
                            ));
                            assert(walk_between(
                                self.edges_spec(),
                                self.nodes_spec().len() as int,
                                p2,
                                position_of(self.nodes_spec(), right) as usize,
                                second.node,
                            ));
                        }
                    }
                    return outcome;
                }
            }
        }
        let both_anchored = la.is_some() && ra.is_some();
        self.merge(l, r, lr, rr, source_id);
        if both_anchored {
            EdgeOutcome::Redundant
        } else {
            EdgeOutcome::Independent
        }
    }

    /// The anchor of the component of the support point with coordinate bit
    /// patterns `support`, if the forest holds that point.
    pub fn absolute_target_for_support(&mut self, support: [u64; 3]) -> (anchor: Option<AbsoluteTarget>)
        requires
            old(self).wf(),
        ensures
            final(self).wf(),
            final(self).nodes_spec() == old(self).nodes_spec(),
            final(self).rep_spec() == old(self).rep_spec(),
            final(self).edges_spec() == old(self).edges_spec(),
            forall|w: int|
                0 <= w < old(self).nodes_spec().len() ==> #[trigger] final(self).anchor_spec(w) == old(
                    self,
                ).anchor_spec(w),
            ({
                let node = ValueNode::Support(support[0], support[1], support[2]);
                anchor == if old(self).nodes_spec().contains(node) {
                    old(self).anchor_spec(position_of(old(self).nodes_spec(), node))
                } else {
                    None
                }
            }),
    {
        let node = ValueNode::Support(support[0], support[1], support[2]);
        match self.find(node) {
            Some(index) => {
                proof {
                    self.lemma_position(index as int);
                }
                let root = self.root(index);
                self.absolute_target[root]
            },
            None => None,
        }
    }

    /// The anchor of `group_id`'s component with the sources that prove it:
    /// the equalities of a walk from the level set to the anchor's node, then
    /// the anchor's own source. `None` when the forest does not hold the
    /// level set or its component has no anchor.
    pub fn absolute_proof_for_group(&mut self, group_id: GroupId) -> (proof: Option<AbsoluteGroupProof>)
        requires
            old(self).wf(),
        ensures
            final(self).wf(),
            final(self).nodes_spec() == old(self).nodes_spec(),
            final(self).rep_spec() == old(self).rep_spec(),
            final(self).edges_spec() == old(self).edges_spec(),
            forall|w: int|
                0 <= w < old(self).nodes_spec().len() ==> #[trigger] final(self).anchor_spec(w) == old(
                    self,
                ).anchor_spec(w),
            ({
                let node = ValueNode::Group(group_id);
                let v = position_of(old(self).nodes_spec(), node);
                &&& proof is Some <==> old(self).nodes_spec().contains(node) && old(self).anchor_spec(v) is Some
                &&& proof matches Some(found) ==> {
                    let anchor = old(self).anchor_spec(v)->0;
                    &&& found.target == anchor.target
                    &&& exists|path: Seq<usize>|
                        #[trigger] walk_between(
                            old(self).edges_spec(),
                            old(self).nodes_spec().len() as int,
                            path,
                            v as usize,
                            anchor.node,
                        ) && found.source_ids@ == step_sources(old(self).edges_spec(), path) + seq![
                            anchor.source_id,
                        ]
                }
            }),
    {
        let node = ValueNode::Group(group_id);
        match self.find(node) {
            Some(index) => {
                proof {
                    self.lemma_position(index as int);
                }
                let root = self.root(index);
                match self.absolute_target[root] {
                    Some(anchor) => {
                        proof {
                            assert(self.rep@[anchor.node as int] == root);
                        }
                        let path = self.proof_path(index, anchor.node);
                        let mut source_ids = self.path_sources(&path);
                        source_ids.push(anchor.source_id);
                        proof {
                            assert(walk_between(
                                old(self).edges_spec(),
                                old(self).nodes_spec().len() as int,
                                path@,
                                position_of(old(self).nodes_spec(), node) as usize,
                                anchor.node,
                            ));
                            assert(source_ids@ == step_sources(old(self).edges_spec(), path@) + seq![
                                anchor.source_id,
                            ]);
                        }
                        Some(AbsoluteGroupProof { target: anchor.target, source_ids })
                    },
                    None => None,
                }
            },
            None => None,
        }
    }

    /// Every component keeps an original anchor: the node it was placed on
    /// lies in the component it pins.
    pub proof fn lemma_anchor_in_component(self, v: int)
        requires
            self.wf(),
            0 <= v < self.nodes_spec().len(),
            self.anchor_spec(v) is Some,
        ensures
            self.anchor_spec(v)->0.node < self.nodes_spec().len(),
            self.joined(self.anchor_spec(v)->0.node as int, v),
    {
        let r = self.rep@[v] as int;
        assert(self.rep@[v] < self.nodes@.len());
        assert(self.absolute_target@[r] is Some);
    }
}

} // verus!
