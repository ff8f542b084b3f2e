//! The simulation graph over petgraph: node creation, tag groups, extremity
//! wiring and shortest paths, with the graph modelled as node kinds and a
//! sequence of weighted edges.

use crate::ids::{from_ids, ids, to_ids, GraphId, GraphIdKind, IsItemOrSheep, NodeType, TagId};
use crate::rng::{choose_multiple, poisson, poisson_draw, shuffle, uniform_in};
use crate::sheep::PathMeasure;
use petgraph::graph::NodeIndex;
use petgraph::{Directed, Graph};
use rand::rngs::StdRng;
use statrs::distribution::Poisson;
use vstd::math::min;
use vstd::multiset::Multiset;
use vstd::prelude::*;

verus! {

broadcast use vstd::seq_lib::group_to_multiset_ensures;

#[verifier::external_type_specification]
#[verifier::external_body]
#[verifier::reject_recursive_types(N)]
#[verifier::reject_recursive_types(E)]
#[verifier::reject_recursive_types(Ty)]
#[verifier::reject_recursive_types(Ix)]
pub struct ExGraph<N, E, Ty, Ix>(Graph<N, E, Ty, Ix>);

#[verifier::external_type_specification]
#[verifier::external_body]
pub struct ExDirected(Directed);

/// The directed graph underneath the simulation: a kind for each node, and
/// weighted edges between node indices
pub type TagGraph = Graph<NodeType, u32, Directed, usize>;

/// The kinds of the nodes of a graph, by index
pub uninterp spec fn graph_nodes(g: TagGraph) -> Seq<NodeType>;

/// The edges of a graph as (source, target, weight), in order of addition
pub uninterp spec fn graph_edges(g: TagGraph) -> Seq<(usize, usize, u32)>;

/// Relies on petgraph's `Graph::default`: a graph with no node and no edge.
#[verifier::external_body]
fn empty_graph() -> (g: TagGraph)
    ensures
        graph_nodes(g) == Seq::<NodeType>::empty(),
        graph_edges(g) == Seq::<(usize, usize, u32)>::empty(),
{
    Graph::default()
}

/// Relies on petgraph's `Graph::add_node`: the node takes the next index.
#[verifier::external_body]
fn add_node(g: &mut TagGraph, kind: NodeType) -> (r: usize)
    ensures
        graph_nodes(*final(g)) == graph_nodes(*old(g)).push(kind),
        graph_edges(*final(g)) == graph_edges(*old(g)),
        r == graph_nodes(*old(g)).len(),
{
    g.add_node(kind).index()
}

/// Relies on petgraph's `Graph::add_edge`: it appends one edge, and panics
/// when an end is not a node of the graph.
#[verifier::external_body]
fn add_edge(g: &mut TagGraph, a: usize, b: usize, weight: u32)
    requires
        a < graph_nodes(*old(g)).len(),
        b < graph_nodes(*old(g)).len(),
    ensures
        graph_nodes(*final(g)) == graph_nodes(*old(g)),
        graph_edges(*final(g)) == graph_edges(*old(g)).push((a, b, weight)),
{
    g.add_edge(NodeIndex::new(a), NodeIndex::new(b), weight);
}

/// Whether an edge joins `a` and `b`, in either direction
pub open spec fn joins(e: (usize, usize, u32), a: usize, b: usize) -> bool {
    (e.0 == a && e.1 == b) || (e.0 == b && e.1 == a)
}

/// Whether some edge of `edges` joins `a` and `b`, in either direction
pub open spec fn adjacent(edges: Seq<(usize, usize, u32)>, a: usize, b: usize) -> bool {
    exists|i: int| 0 <= i < edges.len() && #[trigger] joins(edges[i], a, b)
}

/// Relies on petgraph's `Graph::neighbors_undirected`: the nodes joined to
/// `n` by an edge in either direction.
#[verifier::external_body]
fn neighbors_undirected(g: &TagGraph, n: usize) -> (r: Vec<usize>)
    ensures
        forall|x: usize| r@.contains(x) <==> adjacent(graph_edges(*g), n, x),
{
    g.neighbors_undirected(NodeIndex::new(n)).map(|i| i.index()).collect()
}

/// Whether `p` lists the indices of edges that form a directed walk from `a`
/// to `b`; the empty walk leads from a node to itself
pub open spec fn is_path(edges: Seq<(usize, usize, u32)>, p: Seq<int>, a: usize, b: usize) -> bool {
    &&& forall|k: int| 0 <= k < p.len() ==> 0 <= #[trigger] p[k] < edges.len()
    &&& p.len() == 0 ==> a == b
    &&& p.len() > 0 ==> edges[p[0]].0 == a && edges[p.last()].1 == b
    &&& forall|k: int|
        0 <= k < p.len() - 1 ==> #[trigger] edges[p[k]].1 == edges[p[k + 1]].0
}

/// The sum of the weights of the edges listed in `p`
pub open spec fn path_weight(edges: Seq<(usize, usize, u32)>, p: Seq<int>) -> int
    decreases p.len(),
{
    if p.len() == 0 {
        0
    } else {
        path_weight(edges, p.drop_last()) + edges[p.last()].2
    }
}

/// Whether `(d, h)` is the least measure, by weight and then by number of
/// edges, among the walks from `a` to `b`
pub open spec fn is_shortest(edges: Seq<(usize, usize, u32)>, a: usize, b: usize, d: int, h: int) -> bool {
    &&& exists|p: Seq<int>| is_path(edges, p, a, b) && path_weight(edges, p) == d && p.len() == h
    &&& forall|p: Seq<int>|
        is_path(edges, p, a, b) ==> path_weight(edges, p) > d || (path_weight(edges, p) == d
            && p.len() >= h)
}

/// The bound on edges under which no path measure overflows
pub const MAX_EDGES: usize = 400_000_000;

/// Relies on petgraph's `algo::dijkstra`, run to `to` with the measure of
/// each edge: the least measure of a walk from `from` to `to`, absent when
/// there is none. It panics when `from` is not a node of the graph.
#[verifier::external_body]
fn dijkstra(g: &TagGraph, from: usize, to: usize) -> (r: Option<(u32, u32)>)
    requires
        from < graph_nodes(*g).len(),
        graph_edges(*g).len() <= MAX_EDGES,
        forall|i: int| 0 <= i < graph_edges(*g).len() ==> #[trigger] graph_edges(*g)[i].2 <= 10,
    ensures
        match r {
            None => forall|p: Seq<int>| !is_path(graph_edges(*g), p, from, to),
            Some((d, h)) => is_shortest(graph_edges(*g), from, to, d as int, h as int),
        },
{
    let goal = NodeIndex::new(to);
    petgraph::algo::dijkstra(g, NodeIndex::new(from), Some(goal), |e| PathMeasure::new(*e.weight()))
        .get(&goal)
        .map(|m| (m.0, m.1))
}

/// Whether an edge leads from one of `sources` to one of `targets`, or the
/// other way round when `reverse`, with a weight from 1 to 10
pub open spec fn extremity_edge(e: (usize, usize, u32), sources: Seq<usize>, targets: Seq<usize>, reverse: bool) -> bool {
    &&& 1 <= e.2 <= 10
    &&& reverse ==> sources.contains(e.1) && targets.contains(e.0)
    &&& !reverse ==> sources.contains(e.0) && targets.contains(e.1)
}

/// Whether an edge joins a node of `a` and a node of `b`, in either
/// direction, with a weight from `lo` to `hi`
pub open spec fn between(e: (usize, usize, u32), a: Seq<usize>, b: Seq<usize>, lo: int, hi: int) -> bool {
    &&& lo <= e.2 <= hi
    &&& (a.contains(e.0) && b.contains(e.1)) || (b.contains(e.0) && a.contains(e.1))
}

/// Whether some edge of `edges` leads from `a` to `b`
pub open spec fn linked(edges: Seq<(usize, usize, u32)>, a: usize, b: usize) -> bool {
    exists|k: int| 0 <= k < edges.len() && #[trigger] edges[k].0 == a && edges[k].1 == b
}

/// Edges stay where they are as more are added
proof fn lemma_linked_grows(e1: Seq<(usize, usize, u32)>, e2: Seq<(usize, usize, u32)>, a: usize, b: usize)
    requires
        e1.len() <= e2.len(),
        e2.take(e1.len() as int) == e1,
        linked(e1, a, b),
    ensures
        linked(e2, a, b),
{
    let k = choose|k: int| 0 <= k < e1.len() && #[trigger] e1[k].0 == a && e1[k].1 == b;
    assert(e2[k] == e2.take(e1.len() as int)[k]);
}

/// Whether every two distinct members of `g` are linked, in both directions
pub open spec fn linked_within(edges: Seq<(usize, usize, u32)>, g: Seq<usize>) -> bool {
    forall|x: int, y: int| 0 <= x < g.len() && 0 <= y < g.len() && x != y ==> linked(edges, #[trigger] g[x], #[trigger] g[y])
}

/// Whether every member of `a` and every member of `b` are linked, in both
/// directions
pub open spec fn linked_across(edges: Seq<(usize, usize, u32)>, a: Seq<usize>, b: Seq<usize>) -> bool {
    forall|x: int, y: int|
        0 <= x < a.len() && 0 <= y < b.len() ==> linked(edges, #[trigger] a[x], #[trigger] b[y]) && linked(edges, b[y], a[x])
}

pub proof fn lemma_linked_within_grows(e1: Seq<(usize, usize, u32)>, e2: Seq<(usize, usize, u32)>, g: Seq<usize>)
    requires
        e1.len() <= e2.len(),
        e2.take(e1.len() as int) == e1,
        linked_within(e1, g),
    ensures
        linked_within(e2, g),
{
    assert forall|x: int, y: int| 0 <= x < g.len() && 0 <= y < g.len() && x != y implies linked(e2, #[trigger] g[x], #[trigger] g[y]) by {
        lemma_linked_grows(e1, e2, g[x], g[y]);
    }
}

proof fn lemma_linked_across_grows(e1: Seq<(usize, usize, u32)>, e2: Seq<(usize, usize, u32)>, a: Seq<usize>, b: Seq<usize>)
    requires
        e1.len() <= e2.len(),
        e2.take(e1.len() as int) == e1,
        linked_across(e1, a, b),
    ensures
        linked_across(e2, a, b),
{
    assert forall|x: int, y: int| 0 <= x < a.len() && 0 <= y < b.len() implies linked(e2, #[trigger] a[x], #[trigger] b[y]) && linked(e2, b[y], a[x]) by {
        lemma_linked_grows(e1, e2, a[x], b[y]);
        lemma_linked_grows(e1, e2, b[y], a[x]);
    }
}

/// A group made of two parts is linked within when each part is and the
/// second is linked to the first
pub proof fn lemma_linked_within_concat(e: Seq<(usize, usize, u32)>, a: Seq<usize>, b: Seq<usize>)
    requires
        linked_within(e, a),
        linked_within(e, b),
        linked_across(e, b, a),
    ensures
        linked_within(e, a + b),
{
    let g = a + b;
    assert forall|x: int, y: int| 0 <= x < g.len() && 0 <= y < g.len() && x != y implies linked(e, #[trigger] g[x], #[trigger] g[y]) by {
        if x < a.len() && y < a.len() {
            assert(g[x] == a[x] && g[y] == a[y]);
        } else if x >= a.len() && y >= a.len() {
            assert(g[x] == b[x - a.len()] && g[y] == b[y - a.len()]);
        } else if x < a.len() {
            assert(g[x] == a[x] && g[y] == b[y - a.len()]);
            assert(linked(e, b[y - a.len()], a[x]) && linked(e, a[x], b[y - a.len()]));
        } else {
            assert(g[y] == a[y] && g[x] == b[x - a.len()]);
            assert(linked(e, b[x - a.len()], a[y]));
        }
    }
}

/// Whether the edges from position `from` on come in mirrored pairs: each
/// edge at an even offset is followed by the same link the other way round
pub open spec fn mirrored(edges: Seq<(usize, usize, u32)>, from: int) -> bool {
    &&& 0 <= from <= edges.len()
    &&& (edges.len() - from) % 2 == 0
    &&& forall|k: int| from <= k < edges.len() && (k - from) % 2 == 0 ==> #[trigger] pair_at(edges, k)
}

/// Whether the edge at `k + 1` links the ends of the edge at `k` the other
/// way round
pub open spec fn pair_at(edges: Seq<(usize, usize, u32)>, k: int) -> bool {
    edges[k].0 == edges[k + 1].1 && edges[k].1 == edges[k + 1].0
}

/// Mirrored runs of edges laid one after another stay mirrored
proof fn lemma_mirrored_extend(e1: Seq<(usize, usize, u32)>, e2: Seq<(usize, usize, u32)>, from: int)
    requires
        mirrored(e1, from),
        e1.len() <= e2.len(),
        e2.take(e1.len() as int) == e1,
        mirrored(e2, e1.len() as int),
    ensures
        mirrored(e2, from),
{
    assert forall|k: int| from <= k < e2.len() && (k - from) % 2 == 0 implies #[trigger] pair_at(e2, k) by {
        if k < e1.len() {
            assert(k + 1 < e1.len()) by {
                if k + 1 == e1.len() {
                    assert((e1.len() - from) == (k - from) + 1);
                }
            }
            assert(pair_at(e1, k));
            assert(e2[k] == e2.take(e1.len() as int)[k]);
            assert(e2[k + 1] == e2.take(e1.len() as int)[k + 1]);
        } else {
            assert((k - e1.len()) % 2 == 0) by {
                assert((e1.len() - from) % 2 == 0);
            }
            assert(pair_at(e2, k));
        }
    }
}

/// Whether an edge added while the tags `ms[i]` joined the groups `gs[i]`,
/// growing them to `fin[i]`, links two tags of one grown group, weighing
/// from 5 to 10, or, weighing from 1 to 5, a newcomer to group `i` and an
/// earlier member of a later group `j`, in either direction
pub open spec fn attach_edge(fin: Seq<Seq<usize>>, gs: Seq<Seq<usize>>, ms: Seq<Seq<usize>>, e: (usize, usize, u32)) -> bool {
    ||| 5 <= e.2 <= 10 && exists|i: int| 0 <= i < fin.len() && #[trigger] fin[i].contains(e.0) && fin[i].contains(e.1)
    ||| 1 <= e.2 <= 5 && exists|i: int, j: int|
        0 <= i < j && j < ms.len() && j < gs.len() && #[trigger] ms[i].contains(e.0) && #[trigger] gs[j].contains(e.1)
    ||| 1 <= e.2 <= 5 && exists|i: int, j: int|
        0 <= i < j && j < ms.len() && j < gs.len() && #[trigger] ms[i].contains(e.1) && #[trigger] gs[j].contains(e.0)
}

/// The indices of the tags of each group
pub open spec fn group_ids(gs: Seq<Vec<TagId>>) -> Seq<Seq<usize>> {
    gs.map_values(|g: Vec<TagId>| ids(g@))
}

/// The tags of all groups, counted with multiplicity
pub open spec fn tags_in(gs: Seq<Seq<usize>>) -> Multiset<usize>
    decreases gs.len(),
{
    if gs.len() == 0 {
        Multiset::empty()
    } else {
        tags_in(gs.drop_last()).add(gs.last().to_multiset())
    }
}

/// Whether an edge between tags belongs to one of the two tag families for
/// the groups `gs`: within a group, weighing from 5 to 10, or across two
/// groups, weighing from 1 to 5
pub open spec fn tag_edge(gs: Seq<Seq<usize>>, e: (usize, usize, u32)) -> bool {
    ||| 5 <= e.2 <= 10 && exists|i: int| 0 <= i < gs.len() && #[trigger] gs[i].contains(e.0) && gs[i].contains(e.1)
    ||| 1 <= e.2 <= 5 && exists|i: int, j: int|
        0 <= i < gs.len() && 0 <= j < gs.len() && i != j && #[trigger] gs[i].contains(e.0)
            && #[trigger] gs[j].contains(e.1)
}

/// Whether every index in `s` names a node of a graph of `n` nodes
pub open spec fn all_below(s: Seq<usize>, n: nat) -> bool {
    forall|i: int| 0 <= i < s.len() ==> #[trigger] s[i] < n
}

/// The odds, one in this many, that two tags of distinct groups are linked
pub const CROSS_GROUP_ODDS: usize = 1000;

/// Identifiers for the indices `pool[from..to]`
fn slice_tags(pool: &Vec<usize>, from: usize, to: usize) -> (r: Vec<TagId>)
    requires
        from <= to <= pool@.len(),
    ensures
        ids(r@) == pool@.subrange(from as int, to as int),
{
    let mut r: Vec<TagId> = Vec::new();
    for x in from..to
        invariant
            to <= pool@.len(),
            ids(r@) == pool@.subrange(from as int, x as int),
    {
        let id = GraphId::new(pool[x]);
        let ghost prev = r@;
        r.push(id);
        assert(ids(r@) =~= ids(prev).push(id.0));
        assert(pool@.subrange(from as int, x + 1) =~= pool@.subrange(from as int, x as int).push(pool@[x as int]));
    }
    r
}

/// Every member of a sequence with the same members as a sequence of
/// indices below `n` is below `n` too
proof fn lemma_permuted_below(a: Seq<usize>, b: Seq<usize>, n: nat)
    requires
        a.to_multiset() == b.to_multiset(),
        all_below(b, n),
    ensures
        all_below(a, n),
{
    assert forall|i: int| 0 <= i < a.len() implies #[trigger] a[i] < n by {
        vstd::seq_lib::to_multiset_contains(a, a[i]);
        vstd::seq_lib::to_multiset_contains(b, a[i]);
        assert(a.contains(a[i]));
    }
}

/// Every member of `a` that is found in `b` is below `n`, when all of `b` is
proof fn lemma_contained_below(a: Seq<usize>, b: Seq<usize>, n: nat)
    requires
        forall|t: usize| a.contains(t) ==> b.contains(t),
        all_below(b, n),
    ensures
        all_below(a, n),
{
    assert forall|i: int| 0 <= i < a.len() implies #[trigger] a[i] < n by {
        assert(a.contains(a[i]));
    }
}

/// Splits a prefix of `pool` into at most `slots` consecutive parts, with
/// sizes drawn from `rate` and cut short at the end of the pool; returns the
/// parts and the length of the prefix that they cover
fn split_pool(rng: &mut StdRng, pool: &Vec<usize>, rate: &Poisson, slots: usize) -> (r: (Vec<Vec<TagId>>, usize))
    ensures
        r.0@.len() <= slots,
        r.1 <= pool@.len(),
        r.1 < pool@.len() ==> r.0@.len() == slots,
        tags_in(group_ids(r.0@)) == pool@.take(r.1 as int).to_multiset(),
        forall|gi: int, t: usize|
            0 <= gi < r.0@.len() && #[trigger] group_ids(r.0@)[gi].contains(t) ==> pool@.contains(t),
{
    let mut parts: Vec<Vec<TagId>> = Vec::new();
    let mut n: usize = 0;
    let mut g: usize = 0;
    proof {
        assert(pool@.take(0) =~= Seq::<usize>::empty());
        assert(group_ids(parts@) =~= Seq::<Seq<usize>>::empty());
        vstd::multiset::lemma_multiset_empty_len(pool@.take(0).to_multiset());
    }
    while g < slots
        invariant
            n <= pool@.len(),
            g <= slots,
            parts@.len() == g,
            tags_in(group_ids(parts@)) == pool@.take(n as int).to_multiset(),
            forall|gi: int, t: usize|
                0 <= gi < parts@.len() && #[trigger] group_ids(parts@)[gi].contains(t) ==> pool@.contains(t),
        ensures
            n <= pool@.len(),
            g <= slots,
            parts@.len() == g,
            n < pool@.len() ==> g == slots,
            tags_in(group_ids(parts@)) == pool@.take(n as int).to_multiset(),
            forall|gi: int, t: usize|
                0 <= gi < parts@.len() && #[trigger] group_ids(parts@)[gi].contains(t) ==> pool@.contains(t),
        decreases slots - g,
    {
        let draw = poisson_draw(rng, rate);
        let remaining = pool.len() - n;
        if remaining == 0 {
            break;
        }
        let size: usize = if draw >= remaining as u64 {
            remaining
        } else {
            draw as usize
        };
        let part = slice_tags(pool, n, n + size);
        let ghost before = group_ids(parts@);
        proof {
            assert(pool@.take(n + size) =~= pool@.take(n as int) + pool@.subrange(n as int, n + size));
            vstd::seq_lib::lemma_multiset_commutative(pool@.take(n as int), pool@.subrange(n as int, n + size));
            assert forall|t: usize| ids(part@).contains(t) implies pool@.contains(t) by {
                let j = choose|j: int| 0 <= j < ids(part@).len() && ids(part@)[j] == t;
                assert(pool@[n + j] == t);
            }
        }
        parts.push(part);
        proof {
            assert(group_ids(parts@) =~= before.push(ids(part@)));
            assert(before.push(ids(part@)).drop_last() =~= before);
        }
        n = n + size;
        g = g + 1;
    }
    (parts, n)
}

/// The tags of groups grown member by member are the tags of the groups
/// and of what each one gained
proof fn lemma_tags_in_pointwise(a: Seq<Seq<usize>>, b: Seq<Seq<usize>>, c: Seq<Seq<usize>>)
    requires
        a.len() == b.len(),
        b.len() == c.len(),
        forall|i: int| 0 <= i < c.len() ==> #[trigger] c[i] == a[i] + b[i],
    ensures
        tags_in(c) == tags_in(a).add(tags_in(b)),
    decreases a.len(),
{
    if a.len() > 0 {
        lemma_tags_in_pointwise(a.drop_last(), b.drop_last(), c.drop_last());
        assert(c.last() == a.last() + b.last());
        vstd::seq_lib::lemma_multiset_commutative(a.last(), b.last());
        assert(tags_in(c) =~= tags_in(a).add(tags_in(b)));
    }
}

/// Groups that gain no member add no tag
proof fn lemma_tags_in_empty_push(gs: Seq<Seq<usize>>)
    ensures
        tags_in(gs.push(Seq::empty())) == tags_in(gs),
{
    assert(gs.push(Seq::empty()).drop_last() =~= gs);
    vstd::multiset::lemma_multiset_empty_len(Seq::<usize>::empty().to_multiset());
    assert(tags_in(gs.push(Seq::empty())) =~= tags_in(gs));
}

/// Members of either part are members of a concatenation
proof fn lemma_concat_contains(a: Seq<usize>, b: Seq<usize>, x: usize)
    ensures
        a.contains(x) ==> (a + b).contains(x),
        b.contains(x) ==> (a + b).contains(x),
{
    if a.contains(x) {
        let j = choose|j: int| 0 <= j < a.len() && a[j] == x;
        assert((a + b)[j] == x);
    }
    if b.contains(x) {
        let j = choose|j: int| 0 <= j < b.len() && b[j] == x;
        assert((a + b)[a.len() + j] == x);
    }
}

/// Identifiers for the tags of `a` followed by those of `b`
fn concat_tags(a: &Vec<TagId>, b: &Vec<TagId>) -> (r: Vec<TagId>)
    ensures
        ids(r@) == ids(a@) + ids(b@),
{
    let mut r: Vec<TagId> = Vec::new();
    for x in 0..a.len()
        invariant
            ids(r@) == ids(a@).take(x as int),
    {
        let id = GraphId::new(a[x].0);
        let ghost prev = r@;
        r.push(id);
        assert(ids(r@) =~= ids(prev).push(id.0));
        assert(ids(a@).take(x + 1) =~= ids(a@).take(x as int).push(a@[x as int].0));
    }
    assert(ids(a@).take(a@.len() as int) =~= ids(a@));
    for y in 0..b.len()
        invariant
            ids(r@) == ids(a@) + ids(b@).take(y as int),
    {
        let id = GraphId::new(b[y].0);
        let ghost prev = r@;
        r.push(id);
        assert(ids(r@) =~= ids(prev).push(id.0));
        assert(ids(a@) + ids(b@).take(y + 1) =~= (ids(a@) + ids(b@).take(y as int)).push(b@[y as int].0));
    }
    assert(ids(b@).take(b@.len() as int) =~= ids(b@));
    r
}

/// The error raised when a Poisson rate is out of its domain
#[derive(Copy, Clone, PartialEq, Eq, Debug, Structural)]
pub struct NumericDomainError;

/// The end of an extremity edge at its source node
pub open spec fn source_of(e: (usize, usize, u32), reverse: bool) -> usize {
    if reverse { e.1 } else { e.0 }
}

/// The end of an extremity edge at its tag
pub open spec fn tag_of(e: (usize, usize, u32), reverse: bool) -> usize {
    if reverse { e.0 } else { e.1 }
}

/// Whether the edges at positions `from..to` all belong to `source`, number
/// from `lo` to `hi`, and, when `distinct`, reach pairwise distinct tags
pub open spec fn wired_run(
    edges: Seq<(usize, usize, u32)>,
    from: int,
    to: int,
    source: usize,
    lo: int,
    hi: int,
    reverse: bool,
    distinct: bool,
) -> bool {
    &&& 0 <= from <= to <= edges.len()
    &&& lo <= to - from <= hi
    &&& forall|k: int| from <= k < to ==> source_of(#[trigger] edges[k], reverse) == source
    &&& distinct ==> forall|k1: int, k2: int|
        from <= k1 < k2 < to ==> tag_of(#[trigger] edges[k1], reverse) != tag_of(#[trigger] edges[k2], reverse)
}

/// Whether `runs` cuts the edges from `runs[0]` on into one run per source,
/// in the order of `sources`
pub open spec fn wired_runs(
    edges: Seq<(usize, usize, u32)>,
    runs: Seq<int>,
    sources: Seq<usize>,
    lo: int,
    hi: int,
    reverse: bool,
    distinct: bool,
) -> bool {
    &&& runs.len() == sources.len() + 1
    &&& forall|j: int|
        0 <= j < sources.len() ==> wired_run(edges, #[trigger] runs[j], runs[j + 1], sources[j], lo, hi, reverse, distinct)
}

pub proof fn lemma_wired_run_grows(
    e1: Seq<(usize, usize, u32)>,
    e2: Seq<(usize, usize, u32)>,
    from: int,
    to: int,
    source: usize,
    lo: int,
    hi: int,
    reverse: bool,
    distinct: bool,
)
    requires
        wired_run(e1, from, to, source, lo, hi, reverse, distinct),
        e1.len() <= e2.len(),
        e2.take(e1.len() as int) == e1,
    ensures
        wired_run(e2, from, to, source, lo, hi, reverse, distinct),
{
    assert forall|k: int| from <= k < to implies e2[k] == e1[k] by {
        assert(e2[k] == e2.take(e1.len() as int)[k]);
    }
}

/// A chosen sample of distinct values holds no value twice
proof fn lemma_sample_distinct(chosen: Seq<usize>, pool: Seq<usize>)
    requires
        chosen.to_multiset().subset_of(pool.to_multiset()),
        pool.no_duplicates(),
    ensures
        chosen.no_duplicates(),
{
    broadcast use vstd::multiset::group_multiset_axioms;

    pool.lemma_multiset_has_no_duplicates();
    assert forall|x: usize| chosen.to_multiset().contains(x) implies chosen.to_multiset().count(x) == 1 by {
        assert(chosen.to_multiset().count(x) <= pool.to_multiset().count(x));
    }
    chosen.lemma_multiset_has_no_duplicates_conv();
}

/// A container holding the graph that organises the simulation data
pub struct Simulation(pub TagGraph);

impl Simulation {
    /// The kinds of the nodes, by index
    pub open spec fn nodes(&self) -> Seq<NodeType> {
        graph_nodes(self.0)
    }

    /// The weighted edges, in order of addition
    pub open spec fn edges(&self) -> Seq<(usize, usize, u32)> {
        graph_edges(self.0)
    }

    /// Every edge joins two nodes of the graph and weighs from 1 to 10
    pub open spec fn wf(&self) -> bool {
        forall|i: int|
            0 <= i < self.edges().len() ==> {
                let e = #[trigger] self.edges()[i];
                e.0 < self.nodes().len() && e.1 < self.nodes().len() && 1 <= e.2 <= 10
            }
    }

    /// An empty graph
    pub fn new() -> (r: Self)
        ensures
            r.nodes().len() == 0,
            r.edges().len() == 0,
            r.wf(),
    {
        Simulation(empty_graph())
    }

    /// Adds `n` nodes of kind `K`, returning their identifiers
    pub fn create_nodes<K: GraphIdKind>(&mut self, n: usize) -> (r: Vec<GraphId<K>>)
        requires
            old(self).nodes().len() + n <= usize::MAX,
        ensures
            final(self).nodes() == old(self).nodes() + Seq::new(n as nat, |i: int| K::spec_node_type()),
            final(self).edges() == old(self).edges(),
            r@.len() == n,
            forall|i: int| 0 <= i < n ==> #[trigger] r@[i].0 == old(self).nodes().len() + i,
    {
        let ghost start = self.nodes();
        let mut r: Vec<GraphId<K>> = Vec::new();
        for i in 0..n
            invariant
                self.nodes() == start + Seq::new(i as nat, |j: int| K::spec_node_type()),
                self.edges() == old(self).edges(),
                start == old(self).nodes(),
                start.len() + n <= usize::MAX,
                r@.len() == i,
                forall|j: int| 0 <= j < i ==> #[trigger] r@[j].0 == start.len() + j,
        {
            let id = add_node(&mut self.0, K::node_type());
            r.push(GraphId::new(id));
            assert(self.nodes() =~= start + Seq::new((i + 1) as nat, |j: int| K::spec_node_type()));
        }
        r
    }

    /// The tags joined to a sheep or an item: the nodes at the other end of
    /// an edge that it has, in either direction
    pub fn associated_tags<K: IsItemOrSheep>(&self, id: GraphId<K>) -> (r: Vec<TagId>)
        ensures
            forall|t: usize| ids(r@).contains(t) <==> adjacent(self.edges(), id.0, t),
            ids(r@).no_duplicates(),
    {
        let near = neighbors_undirected(&self.0, id.0);
        let mut once: Vec<usize> = Vec::new();
        for i in 0..near.len()
            invariant
                forall|t: usize| once@.contains(t) <==> near@.take(i as int).contains(t),
                once@.no_duplicates(),
        {
            let t = near[i];
            let mut seen = false;
            for j in 0..once.len()
                invariant
                    seen <==> once@.take(j as int).contains(t),
            {
                if once[j] == t {
                    seen = true;
                }
                assert(once@.take(j + 1) =~= once@.take(j as int).push(once@[j as int]));
                proof {
                    vstd::seq_lib::lemma_seq_contains_after_push(once@.take(j as int), once@[j as int], t);
                }
            }
            assert(once@.take(once@.len() as int) =~= once@);
            let ghost before = once@;
            assert(near@.take(i + 1) =~= near@.take(i as int).push(t));
            if !seen {
                once.push(t);
                assert forall|a: int, b: int| 0 <= a < b < once@.len() implies once@[a] != once@[b] by {
                    if b == once@.len() - 1 {
                        assert(before.contains(once@[a]));
                    }
                }
            }
            assert forall|x: usize| #[trigger] once@.contains(x) <==> near@.take(i + 1).contains(x) by {
                vstd::seq_lib::lemma_seq_contains_after_push(near@.take(i as int), t, x);
                vstd::seq_lib::lemma_seq_contains_after_push(before, t, x);
            }
        }
        assert(near@.take(near@.len() as int) =~= near@);
        from_ids(&once)
    }

    /// The least measure of a directed walk from `from` to `to`: its total
    /// weight, then its number of edges; absent when no walk exists
    pub fn shortest_path(&self, from: usize, to: usize) -> (r: Option<PathMeasure>)
        requires
            self.wf(),
            from < self.nodes().len(),
            self.edges().len() <= MAX_EDGES,
        ensures
            match r {
                None => forall|p: Seq<int>| !is_path(self.edges(), p, from, to),
                Some(m) => is_shortest(self.edges(), from, to, m.0 as int, m.1 as int),
            },
    {
        match dijkstra(&self.0, from, to) {
            None => None,
            Some((d, h)) => Some(PathMeasure(d, h)),
        }
    }

    /// Adds, from each source node, edges to distinct tags drawn from
    /// `target_nodes`, their number drawn from `edge_bounds` and each weight
    /// from 1 to 10; with `reverse_direction` the edges lead from the tag to
    /// the source instead
    #[verifier::rlimit(100)]
    #[verifier::spinoff_prover]
    pub fn connect_extremities<K: IsItemOrSheep>(
        &mut self,
        rng: &mut StdRng,
        source_nodes: &Vec<GraphId<K>>,
        target_nodes: &Vec<TagId>,
        edge_bounds: (usize, usize),
        reverse_direction: bool,
    )
        requires
            old(self).wf(),
            edge_bounds.0 <= edge_bounds.1,
            forall|i: int| 0 <= i < source_nodes@.len() ==> #[trigger] source_nodes@[i].0 < old(self).nodes().len(),
            forall|i: int| 0 <= i < target_nodes@.len() ==> #[trigger] target_nodes@[i].0 < old(self).nodes().len(),
        ensures
            final(self).wf(),
            final(self).nodes() == old(self).nodes(),
            final(self).edges().len() >= old(self).edges().len(),
            final(self).edges().take(old(self).edges().len() as int) == old(self).edges(),
            forall|i: int|
                old(self).edges().len() <= i < final(self).edges().len() ==> extremity_edge(
                    #[trigger] final(self).edges()[i],
                    ids(source_nodes@),
                    ids(target_nodes@),
                    reverse_direction,
                ),
            source_nodes@.len() * min(edge_bounds.0 as int, target_nodes@.len() as int) <= final(self).edges().len()
                - old(self).edges().len() <= source_nodes@.len() * min(edge_bounds.1 as int, target_nodes@.len() as int),
            exists|runs: Seq<int>|
                #[trigger] wired_runs(
                    final(self).edges(),
                    runs,
                    ids(source_nodes@),
                    min(edge_bounds.0 as int, target_nodes@.len() as int),
                    min(edge_bounds.1 as int, target_nodes@.len() as int),
                    reverse_direction,
                    ids(target_nodes@).no_duplicates(),
                ) && runs[0] == old(self).edges().len() && runs.last() == final(self).edges().len(),
    {
        let ghost start = self.edges();
        let ghost lo = min(edge_bounds.0 as int, target_nodes@.len() as int);
        let ghost hi = min(edge_bounds.1 as int, target_nodes@.len() as int);
        let targets = to_ids(target_nodes);
        let ghost distinct = ids(target_nodes@).no_duplicates();
        let ghost mut runs: Seq<int> = seq![start.len() as int];
        assert(0 * lo == 0 && 0 * hi == 0);
        for s in 0..source_nodes.len()
            invariant
                runs.len() == s + 1,
                runs[0] == start.len(),
                runs.last() == self.edges().len(),
                distinct == ids(target_nodes@).no_duplicates(),
                forall|j: int|
                    0 <= j < s ==> wired_run(self.edges(), #[trigger] runs[j], runs[j + 1], ids(source_nodes@)[j], lo, hi, reverse_direction, distinct),
                self.wf(),
                self.nodes() == old(self).nodes(),
                start == old(self).edges(),
                self.edges().len() >= start.len(),
                self.edges().take(start.len() as int) == start,
                targets@ == ids(target_nodes@),
                edge_bounds.0 <= edge_bounds.1,
                forall|i: int| 0 <= i < source_nodes@.len() ==> #[trigger] source_nodes@[i].0 < self.nodes().len(),
                forall|i: int| 0 <= i < targets@.len() ==> #[trigger] targets@[i] < self.nodes().len(),
                forall|i: int|
                    start.len() <= i < self.edges().len() ==> extremity_edge(
                        #[trigger] self.edges()[i],
                        ids(source_nodes@),
                        targets@,
                        reverse_direction,
                    ),
                lo == min(edge_bounds.0 as int, target_nodes@.len() as int),
                hi == min(edge_bounds.1 as int, target_nodes@.len() as int),
                s * lo <= self.edges().len() - start.len() <= s * hi,
        {
            let ghost at_source = self.edges().len();
            let source = source_nodes[s].0;
            assert(ids(source_nodes@)[s as int] == source);
            let ghost at_edges = self.edges();
            let n_edges = uniform_in(rng, edge_bounds.0, edge_bounds.1);
            let amount = if n_edges < targets.len() {
                n_edges
            } else {
                targets.len()
            };
            let chosen = choose_multiple(rng, &targets, amount);
            proof {
                if distinct {
                    lemma_sample_distinct(chosen@, targets@);
                }
            }
            for c in 0..chosen.len()
                invariant
                    self.edges().len() == at_source + c,
                    at_edges.len() == at_source,
                    self.edges().take(at_source as int) == at_edges,
                    forall|q: int| 0 <= q < c ==> source_of(#[trigger] self.edges()[at_source + q], reverse_direction) == source
                        && tag_of(self.edges()[at_source + q], reverse_direction) == chosen@[q],
                    self.wf(),
                    self.nodes() == old(self).nodes(),
                    self.edges().len() >= start.len(),
                    self.edges().take(start.len() as int) == start,
                    targets@ == ids(target_nodes@),
                    chosen@.to_multiset().subset_of(targets@.to_multiset()),
                    source < self.nodes().len(),
                    ids(source_nodes@).contains(source),
                    forall|i: int| 0 <= i < targets@.len() ==> #[trigger] targets@[i] < self.nodes().len(),
                    forall|i: int|
                        start.len() <= i < self.edges().len() ==> extremity_edge(
                            #[trigger] self.edges()[i],
                            ids(source_nodes@),
                            targets@,
                            reverse_direction,
                        ),
            {
                let tag = chosen[c];
                proof {
                    vstd::seq_lib::to_multiset_contains(chosen@, tag);
                    vstd::seq_lib::to_multiset_contains(targets@, tag);
                    assert(chosen@.contains(tag));
                }
                let weight = uniform_in(rng, 1, 10) as u32;
                let ghost before = self.edges();
                if reverse_direction {
                    add_edge(&mut self.0, tag, source, weight);
                } else {
                    add_edge(&mut self.0, source, tag, weight);
                }
                assert(self.edges().take(start.len() as int) =~= before.take(start.len() as int));
                assert(self.edges().take(at_source as int) =~= before.take(at_source as int));
                assert forall|q: int| 0 <= q < c + 1 implies source_of(#[trigger] self.edges()[at_source + q], reverse_direction) == source
                    && tag_of(self.edges()[at_source + q], reverse_direction) == chosen@[q] by {
                    if q < c {
                        assert(self.edges()[at_source + q] == before[at_source + q]);
                    }
                }
            }
            proof {
                let from = at_source as int;
                let to = self.edges().len() as int;
                assert forall|j: int| 0 <= j < s implies wired_run(self.edges(), #[trigger] runs[j], runs[j + 1], ids(source_nodes@)[j], lo, hi, reverse_direction, distinct) by {
                    lemma_wired_run_grows(at_edges, self.edges(), runs[j], runs[j + 1], ids(source_nodes@)[j], lo, hi, reverse_direction, distinct);
                }
                assert forall|k1: int, k2: int| from <= k1 < k2 < to && distinct implies tag_of(#[trigger] self.edges()[k1], reverse_direction) != tag_of(#[trigger] self.edges()[k2], reverse_direction) by {
                    assert(self.edges()[from + (k1 - from)] == self.edges()[k1]);
                    assert(self.edges()[from + (k2 - from)] == self.edges()[k2]);
                }
                assert forall|k: int| from <= k < to implies source_of(#[trigger] self.edges()[k], reverse_direction) == source by {
                    assert(self.edges()[from + (k - from)] == self.edges()[k]);
                }
                assert(wired_run(self.edges(), from, to, source, lo, hi, reverse_direction, distinct));
                runs = runs.push(to);
            }
            assert((s + 1) * lo == s * lo + lo && (s + 1) * hi == s * hi + hi) by (nonlinear_arith);
        }
        assert(wired_runs(self.edges(), runs, ids(source_nodes@), lo, hi, reverse_direction, distinct));
    }

    /// Forms up to `max_groups` new tag groups from `tags`, in a random
    /// order and with sizes drawn from a Poisson law of rate
    /// `tags.len() / (max_groups + 5)`; the tags left over become orphans.
    /// Members of a new group are linked pairwise in both directions with
    /// weights from 5 to 10, and members of distinct new groups by chance
    /// with weights from 1 to 5.
    #[verifier::rlimit(100)]
    #[verifier::spinoff_prover]
    pub fn add_new_tag_groups(
        &mut self,
        rng: &mut StdRng,
        groups: &mut Vec<Vec<TagId>>,
        orphans: &mut Vec<TagId>,
        max_groups: usize,
        tags: &Vec<TagId>,
    ) -> (r: Result<(), NumericDomainError>)
        requires
            old(self).wf(),
            max_groups + 5 <= usize::MAX,
            all_below(ids(tags@), old(self).nodes().len()),
        ensures
            r is Ok,
            mirrored(final(self).edges(), old(self).edges().len() as int),
            tags@.len() == 0 ==> *final(self) == *old(self) && final(groups)@ == old(groups)@ && final(orphans)@
                == old(orphans)@,
            final(self).wf(),
            final(self).nodes() == old(self).nodes(),
            final(self).edges().len() >= old(self).edges().len(),
            final(self).edges().take(old(self).edges().len() as int) == old(self).edges(),
            final(groups)@.len() >= old(groups)@.len(),
            final(groups)@.take(old(groups)@.len() as int) == old(groups)@,
            final(groups)@.len() <= old(groups)@.len() + max_groups,
            final(orphans)@.len() >= old(orphans)@.len(),
            final(orphans)@.take(old(orphans)@.len() as int) == old(orphans)@,
            tags_in(group_ids(final(groups)@.skip(old(groups)@.len() as int))).add(
                ids(final(orphans)@.skip(old(orphans)@.len() as int)).to_multiset(),
            ) == ids(tags@).to_multiset(),
            forall|k: int|
                old(self).edges().len() <= k < final(self).edges().len() ==> tag_edge(
                    group_ids(final(groups)@.skip(old(groups)@.len() as int)),
                    #[trigger] final(self).edges()[k],
                ),
            forall|i: int|
                old(groups)@.len() <= i < final(groups)@.len() ==> all_below(
                    #[trigger] group_ids(final(groups)@)[i],
                    final(self).nodes().len(),
                ),
            all_below(ids(final(orphans)@.skip(old(orphans)@.len() as int)), final(self).nodes().len()),
            forall|i: int|
                old(groups)@.len() <= i < final(groups)@.len() ==> linked_within(
                    final(self).edges(),
                    #[trigger] group_ids(final(groups)@)[i],
                ),
    {
        if tags.len() == 0 {
            proof {
                assert(group_ids(groups@.skip(groups@.len() as int)) =~= Seq::<Seq<usize>>::empty());
                assert(ids(orphans@.skip(orphans@.len() as int)) =~= Seq::<usize>::empty());
                assert(ids(tags@) =~= Seq::<usize>::empty());
                assert(groups@.take(groups@.len() as int) =~= groups@);
                assert(orphans@.take(orphans@.len() as int) =~= orphans@);
                assert(self.edges().take(self.edges().len() as int) =~= self.edges());
            }
            return Ok(());
        }
        let mut pool = to_ids(tags);
        shuffle(rng, &mut pool);
        proof {
            lemma_permuted_below(pool@, ids(tags@), self.nodes().len());
        }
        let rate = match poisson(pool.len(), max_groups + 5) {
            Ok(rate) => rate,
            Err(_) => {
                return Err(NumericDomainError);
            },
        };
        let (mut formed, n_stored) = split_pool(rng, &pool, &rate, max_groups);
        let mut rest = slice_tags(&pool, n_stored, pool.len());
        let ghost gs = group_ids(formed@);
        proof {
            assert(pool@ =~= pool@.take(n_stored as int) + pool@.subrange(n_stored as int, pool@.len() as int));
            vstd::seq_lib::lemma_multiset_commutative(pool@.take(n_stored as int), pool@.subrange(n_stored as int, pool@.len() as int));
            assert forall|gi: int| 0 <= gi < gs.len() implies all_below(#[trigger] gs[gi], self.nodes().len()) by {
                lemma_contained_below(gs[gi], pool@, self.nodes().len());
            }
        }
        let ghost start = self.edges();
        for gi in 0..formed.len()
            invariant
                self.wf(),
                self.nodes() == old(self).nodes(),
                start == old(self).edges(),
                gs == group_ids(formed@),
                forall|i: int| 0 <= i < gs.len() ==> all_below(#[trigger] gs[i], self.nodes().len()),
                self.edges().len() >= start.len(),
                self.edges().take(start.len() as int) == start,
                mirrored(self.edges(), start.len() as int),
                forall|k: int| start.len() <= k < self.edges().len() ==> tag_edge(gs, #[trigger] self.edges()[k]),
                forall|i: int| 0 <= i < gi ==> linked_within(self.edges(), #[trigger] gs[i]),
        {
            let ghost before = self.edges();
            assert(gs[gi as int] == ids(formed@[gi as int]@));
            self.link_within(rng, &formed[gi]);
            proof {
                lemma_mirrored_extend(before, self.edges(), start.len() as int);
            }
            assert(self.edges().take(start.len() as int) =~= before.take(start.len() as int));
            assert forall|i: int| 0 <= i < gi + 1 implies linked_within(self.edges(), #[trigger] gs[i]) by {
                if i < gi {
                    lemma_linked_within_grows(before, self.edges(), gs[i]);
                }
            }
            assert forall|k: int| start.len() <= k < self.edges().len() implies tag_edge(gs, #[trigger] self.edges()[k]) by {
                if k < before.len() {
                    assert(self.edges()[k] == self.edges().take(before.len() as int)[k]);
                } else {
                    let e = self.edges()[k];
                    assert(gs[gi as int].contains(e.0) && gs[gi as int].contains(e.1));
                }
            }
        }
        for gi in 0..formed.len()
            invariant
                self.wf(),
                self.nodes() == old(self).nodes(),
                start == old(self).edges(),
                gs == group_ids(formed@),
                forall|i: int| 0 <= i < gs.len() ==> all_below(#[trigger] gs[i], self.nodes().len()),
                self.edges().len() >= start.len(),
                self.edges().take(start.len() as int) == start,
                mirrored(self.edges(), start.len() as int),
                forall|k: int| start.len() <= k < self.edges().len() ==> tag_edge(gs, #[trigger] self.edges()[k]),
                forall|i: int| 0 <= i < gs.len() ==> linked_within(self.edges(), #[trigger] gs[i]),
        {
            for gj in gi + 1..formed.len()
                invariant
                    gi < formed@.len(),
                    forall|i: int| 0 <= i < gs.len() ==> linked_within(self.edges(), #[trigger] gs[i]),
                    self.wf(),
                    self.nodes() == old(self).nodes(),
                    gs == group_ids(formed@),
                    forall|i: int| 0 <= i < gs.len() ==> all_below(#[trigger] gs[i], self.nodes().len()),
                    self.edges().len() >= start.len(),
                    self.edges().take(start.len() as int) == start,
                    mirrored(self.edges(), start.len() as int),
                    forall|k: int| start.len() <= k < self.edges().len() ==> tag_edge(gs, #[trigger] self.edges()[k]),
            {
                let ghost before = self.edges();
                assert(gs[gi as int] == ids(formed@[gi as int]@));
                assert(gs[gj as int] == ids(formed@[gj as int]@));
                self.link_across(rng, &formed[gi], &formed[gj], true);
                proof {
                    lemma_mirrored_extend(before, self.edges(), start.len() as int);
                }
                assert(self.edges().take(start.len() as int) =~= before.take(start.len() as int));
                assert forall|i: int| 0 <= i < gs.len() implies linked_within(self.edges(), #[trigger] gs[i]) by {
                    lemma_linked_within_grows(before, self.edges(), gs[i]);
                }
                assert forall|k: int| start.len() <= k < self.edges().len() implies tag_edge(gs, #[trigger] self.edges()[k]) by {
                    if k < before.len() {
                        assert(self.edges()[k] == self.edges().take(before.len() as int)[k]);
                    } else {
                        let e = self.edges()[k];
                        if gs[gi as int].contains(e.0) && gs[gj as int].contains(e.1) {
                            assert(gs[gi as int].contains(e.0) && gs[gj as int].contains(e.1));
                        } else {
                            assert(gs[gj as int].contains(e.0) && gs[gi as int].contains(e.1));
                        }
                    }
                }
            }
        }
        let ghost old_groups = groups@;
        let ghost old_orphans = orphans@;
        let ghost formed_seq = formed@;
        let ghost rest_seq = rest@;
        groups.append(&mut formed);
        orphans.append(&mut rest);
        proof {
            assert(groups@.skip(old_groups.len() as int) =~= formed_seq);
            assert(groups@.take(old_groups.len() as int) =~= old_groups);
            assert forall|i: int| old_groups.len() <= i < groups@.len() implies all_below(
                #[trigger] group_ids(groups@)[i],
                self.nodes().len(),
            ) by {
                assert(group_ids(groups@)[i] == gs[i - old_groups.len()]);
            }
            assert forall|i: int| old_groups.len() <= i < groups@.len() implies linked_within(
                self.edges(),
                #[trigger] group_ids(groups@)[i],
            ) by {
                assert(group_ids(groups@)[i] == gs[i - old_groups.len()]);
            }
            assert forall|i: int| 0 <= i < rest_seq.len() implies #[trigger] ids(rest_seq)[i] < self.nodes().len() by {
                assert(ids(rest_seq)[i] == pool@[n_stored + i]);
            }
            assert(orphans@.take(old_orphans.len() as int) =~= old_orphans);
            assert(orphans@.skip(old_orphans.len() as int) =~= rest_seq);
        }
        Ok(())
    }

    /// Adds `tags` to the existing groups, in a random order and with the
    /// number joining each group drawn from a Poisson law of rate
    /// `tags.len() / (groups.len() + 50)`; the tags left over become orphans.
    /// Newcomers to a group are linked in both directions to each other and
    /// to its members with weights from 5 to 10, and by chance to the members
    /// of each later group with weights from 1 to 5.
    #[verifier::rlimit(100)]
    #[verifier::spinoff_prover]
    pub fn add_to_tag_groups(
        &mut self,
        rng: &mut StdRng,
        groups: &mut Vec<Vec<TagId>>,
        orphans: &mut Vec<TagId>,
        tags: &Vec<TagId>,
    ) -> (r: Result<(), NumericDomainError>)
        requires
            old(self).wf(),
            old(groups)@.len() + 50 <= usize::MAX,
            all_below(ids(tags@), old(self).nodes().len()),
            forall|i: int| 0 <= i < old(groups)@.len() ==> all_below(#[trigger] group_ids(old(groups)@)[i], old(self).nodes().len()),
        ensures
            r is Ok,
            mirrored(final(self).edges(), old(self).edges().len() as int),
            tags@.len() == 0 ==> *final(self) == *old(self) && final(groups)@ == old(groups)@ && final(orphans)@
                == old(orphans)@,
            final(self).wf(),
            final(self).nodes() == old(self).nodes(),
            final(self).edges().len() >= old(self).edges().len(),
            final(self).edges().take(old(self).edges().len() as int) == old(self).edges(),
            final(groups)@.len() == old(groups)@.len(),
            forall|i: int| 0 <= i < old(groups)@.len() ==> {
                let g = #[trigger] group_ids(final(groups)@)[i];
                &&& g.len() >= group_ids(old(groups)@)[i].len()
                &&& g.take(group_ids(old(groups)@)[i].len() as int) == group_ids(old(groups)@)[i]
            },
            final(orphans)@.len() >= old(orphans)@.len(),
            final(orphans)@.len() <= old(orphans)@.len() + tags@.len(),
            final(orphans)@.take(old(orphans)@.len() as int) == old(orphans)@,
            tags_in(group_ids(final(groups)@)).add(ids(final(orphans)@.skip(old(orphans)@.len() as int)).to_multiset())
                == tags_in(group_ids(old(groups)@)).add(ids(tags@).to_multiset()),
            forall|k: int|
                old(self).edges().len() <= k < final(self).edges().len() ==> tag_edge(
                    group_ids(final(groups)@),
                    #[trigger] final(self).edges()[k],
                ),
            forall|k: int|
                old(self).edges().len() <= k < final(self).edges().len() ==> attach_edge(
                    group_ids(final(groups)@),
                    group_ids(old(groups)@),
                    Seq::new(
                        old(groups)@.len() as nat,
                        |i: int| group_ids(final(groups)@)[i].skip(group_ids(old(groups)@)[i].len() as int),
                    ),
                    #[trigger] final(self).edges()[k],
                ),
            forall|i: int|
                0 <= i < final(groups)@.len() ==> all_below(#[trigger] group_ids(final(groups)@)[i], final(self).nodes().len()),
            all_below(ids(final(orphans)@.skip(old(orphans)@.len() as int)), final(self).nodes().len()),
            forall|i: int| 0 <= i < old(groups)@.len() ==> {
                let joined = (#[trigger] group_ids(final(groups)@)[i]).skip(group_ids(old(groups)@)[i].len() as int);
                &&& linked_within(final(self).edges(), joined)
                &&& linked_across(final(self).edges(), joined, group_ids(old(groups)@)[i])
            },
    {
        let ghost old_gs = group_ids(groups@);
        if tags.len() == 0 {
            proof {
                assert(ids(orphans@.skip(orphans@.len() as int)) =~= Seq::<usize>::empty());
                assert(ids(tags@) =~= Seq::<usize>::empty());
                assert(orphans@.take(orphans@.len() as int) =~= orphans@);
                assert(self.edges().take(self.edges().len() as int) =~= self.edges());
                assert forall|i: int| 0 <= i < old_gs.len() implies #[trigger] old_gs[i].take(old_gs[i].len() as int) == old_gs[i] by {
                    assert(old_gs[i].take(old_gs[i].len() as int) =~= old_gs[i]);
                }
            }
            return Ok(());
        }
        let k = groups.len();
        let mut pool = to_ids(tags);
        shuffle(rng, &mut pool);
        proof {
            lemma_permuted_below(pool@, ids(tags@), self.nodes().len());
        }
        let rate = match poisson(pool.len(), k + 50) {
            Ok(rate) => rate,
            Err(_) => {
                return Err(NumericDomainError);
            },
        };
        let (mut members, n_stored) = split_pool(rng, &pool, &rate, k);
        while members.len() < k
            invariant
                members@.len() <= k,
                tags_in(group_ids(members@)) == pool@.take(n_stored as int).to_multiset(),
                forall|gi: int, t: usize|
                    0 <= gi < members@.len() && #[trigger] group_ids(members@)[gi].contains(t) ==> pool@.contains(t),
            decreases k - members@.len(),
        {
            let ghost before = group_ids(members@);
            let fresh: Vec<TagId> = Vec::new();
            assert(ids(fresh@) =~= Seq::<usize>::empty());
            members.push(fresh);
            proof {
                assert(group_ids(members@) =~= before.push(Seq::empty()));
                lemma_tags_in_empty_push(before);
            }
        }
        let mut rest = slice_tags(&pool, n_stored, pool.len());
        let ghost ms = group_ids(members@);
        let ghost fin = Seq::new(k as nat, |i: int| old_gs[i] + ms[i]);
        proof {
            assert(pool@ =~= pool@.take(n_stored as int) + pool@.subrange(n_stored as int, pool@.len() as int));
            vstd::seq_lib::lemma_multiset_commutative(pool@.take(n_stored as int), pool@.subrange(n_stored as int, pool@.len() as int));
            assert forall|gi: int| 0 <= gi < ms.len() implies all_below(#[trigger] ms[gi], self.nodes().len()) by {
                lemma_contained_below(ms[gi], pool@, self.nodes().len());
            }
            assert forall|i: int, x: usize| 0 <= i < k && #[trigger] ms[i].contains(x) implies fin[i].contains(x) by {
                lemma_concat_contains(old_gs[i], ms[i], x);
            }
            assert forall|i: int, x: usize| 0 <= i < k && #[trigger] old_gs[i].contains(x) implies fin[i].contains(x) by {
                lemma_concat_contains(old_gs[i], ms[i], x);
            }
        }
        let ghost start = self.edges();
        for i in 0..k
            invariant
                k == groups@.len(),
                k == members@.len(),
                self.wf(),
                self.nodes() == old(self).nodes(),
                start == old(self).edges(),
                old_gs == group_ids(groups@),
                ms == group_ids(members@),
                fin.len() == k,
                forall|i: int, x: usize| 0 <= i < k && #[trigger] ms[i].contains(x) ==> fin[i].contains(x),
                forall|i: int, x: usize| 0 <= i < k && #[trigger] old_gs[i].contains(x) ==> fin[i].contains(x),
                forall|i: int| 0 <= i < k ==> all_below(#[trigger] ms[i], self.nodes().len()),
                forall|i: int| 0 <= i < k ==> all_below(#[trigger] old_gs[i], self.nodes().len()),
                self.edges().len() >= start.len(),
                self.edges().take(start.len() as int) == start,
                mirrored(self.edges(), start.len() as int),
                forall|j: int| start.len() <= j < self.edges().len() ==> (tag_edge(fin, #[trigger] self.edges()[j]) && attach_edge(fin, old_gs, ms, self.edges()[j])),
                forall|q: int| 0 <= q < i ==> linked_within(self.edges(), #[trigger] ms[q]) && linked_across(self.edges(), ms[q], old_gs[q]),
        {
            assert(ms[i as int] == ids(members@[i as int]@));
            assert(old_gs[i as int] == ids(groups@[i as int]@));
            let ghost before = self.edges();
            let ghost pre = self.edges();
            self.link_within(rng, &members[i]);
            proof {
                lemma_mirrored_extend(before, self.edges(), start.len() as int);
            }
            let ghost middle = self.edges();
            proof {
                assert(self.edges().take(start.len() as int) =~= before.take(start.len() as int));
                assert forall|j: int| start.len() <= j < self.edges().len() implies (tag_edge(fin, #[trigger] self.edges()[j]) && attach_edge(fin, old_gs, ms, self.edges()[j])) by {
                    if j < before.len() {
                        assert(self.edges()[j] == self.edges().take(before.len() as int)[j]);
                    } else {
                        let e = self.edges()[j];
                        assert(fin[i as int].contains(e.0) && fin[i as int].contains(e.1));
                    }
                }
            }
            let ghost before = self.edges();
            self.link_across(rng, &members[i], &groups[i], false);
            proof {
                lemma_mirrored_extend(before, self.edges(), start.len() as int);
            }
            proof {
                lemma_linked_within_grows(middle, self.edges(), ms[i as int]);
                assert(self.edges().take(pre.len() as int) =~= pre) by {
                    assert forall|j: int| 0 <= j < pre.len() implies self.edges()[j] == pre[j] by {
                        assert(self.edges()[j] == self.edges().take(middle.len() as int)[j]);
                        assert(middle[j] == middle.take(pre.len() as int)[j]);
                    }
                }
                assert forall|q: int| 0 <= q < i + 1 implies linked_within(self.edges(), #[trigger] ms[q]) && linked_across(self.edges(), ms[q], old_gs[q]) by {
                    if q < i {
                        lemma_linked_within_grows(pre, self.edges(), ms[q]);
                        lemma_linked_across_grows(pre, self.edges(), ms[q], old_gs[q]);
                    }
                }
                assert(self.edges().take(start.len() as int) =~= before.take(start.len() as int));
                assert forall|j: int| start.len() <= j < self.edges().len() implies (tag_edge(fin, #[trigger] self.edges()[j]) && attach_edge(fin, old_gs, ms, self.edges()[j])) by {
                    if j < before.len() {
                        assert(self.edges()[j] == self.edges().take(before.len() as int)[j]);
                    } else {
                        let e = self.edges()[j];
                        assert(fin[i as int].contains(e.0) && fin[i as int].contains(e.1));
                    }
                }
            }
        }
        for i in 0..k
            invariant
                k == groups@.len(),
                k == members@.len(),
                self.wf(),
                self.nodes() == old(self).nodes(),
                start == old(self).edges(),
                old_gs == group_ids(groups@),
                ms == group_ids(members@),
                fin.len() == k,
                forall|i: int, x: usize| 0 <= i < k && #[trigger] ms[i].contains(x) ==> fin[i].contains(x),
                forall|i: int, x: usize| 0 <= i < k && #[trigger] old_gs[i].contains(x) ==> fin[i].contains(x),
                forall|i: int| 0 <= i < k ==> all_below(#[trigger] ms[i], self.nodes().len()),
                forall|i: int| 0 <= i < k ==> all_below(#[trigger] old_gs[i], self.nodes().len()),
                self.edges().len() >= start.len(),
                self.edges().take(start.len() as int) == start,
                mirrored(self.edges(), start.len() as int),
                forall|j: int| start.len() <= j < self.edges().len() ==> (tag_edge(fin, #[trigger] self.edges()[j]) && attach_edge(fin, old_gs, ms, self.edges()[j])),
                forall|q: int| 0 <= q < k ==> linked_within(self.edges(), #[trigger] ms[q]) && linked_across(self.edges(), ms[q], old_gs[q]),
        {
            for j in i + 1..k
                invariant
                    i < k,
                    forall|q: int| 0 <= q < k ==> linked_within(self.edges(), #[trigger] ms[q]) && linked_across(self.edges(), ms[q], old_gs[q]),
                    k == groups@.len(),
                    k == members@.len(),
                    self.wf(),
                    self.nodes() == old(self).nodes(),
                    old_gs == group_ids(groups@),
                    ms == group_ids(members@),
                    fin.len() == k,
                    forall|i: int, x: usize| 0 <= i < k && #[trigger] ms[i].contains(x) ==> fin[i].contains(x),
                    forall|i: int, x: usize| 0 <= i < k && #[trigger] old_gs[i].contains(x) ==> fin[i].contains(x),
                    forall|i: int| 0 <= i < k ==> all_below(#[trigger] ms[i], self.nodes().len()),
                    forall|i: int| 0 <= i < k ==> all_below(#[trigger] old_gs[i], self.nodes().len()),
                    self.edges().len() >= start.len(),
                    self.edges().take(start.len() as int) == start,
                    mirrored(self.edges(), start.len() as int),
                    forall|j: int| start.len() <= j < self.edges().len() ==> (tag_edge(fin, #[trigger] self.edges()[j]) && attach_edge(fin, old_gs, ms, self.edges()[j])),
            {
                assert(ms[i as int] == ids(members@[i as int]@));
                assert(old_gs[j as int] == ids(groups@[j as int]@));
                let ghost before = self.edges();
                self.link_across(rng, &members[i], &groups[j], true);
                proof {
                    lemma_mirrored_extend(before, self.edges(), start.len() as int);
                }
                proof {
                    assert forall|q: int| 0 <= q < k implies linked_within(self.edges(), #[trigger] ms[q]) && linked_across(self.edges(), ms[q], old_gs[q]) by {
                        lemma_linked_within_grows(before, self.edges(), ms[q]);
                        lemma_linked_across_grows(before, self.edges(), ms[q], old_gs[q]);
                    }
                    assert(self.edges().take(start.len() as int) =~= before.take(start.len() as int));
                    assert forall|q: int| start.len() <= q < self.edges().len() implies (tag_edge(fin, #[trigger] self.edges()[q]) && attach_edge(fin, old_gs, ms, self.edges()[q])) by {
                        if q < before.len() {
                            assert(self.edges()[q] == self.edges().take(before.len() as int)[q]);
                        } else {
                            let e = self.edges()[q];
                            if ms[i as int].contains(e.0) && old_gs[j as int].contains(e.1) {
                                assert(fin[i as int].contains(e.0) && fin[j as int].contains(e.1));
                            } else {
                                assert(fin[j as int].contains(e.0) && fin[i as int].contains(e.1));
                            }
                        }
                    }
                }
            }
        }
        let mut merged: Vec<Vec<TagId>> = Vec::new();
        for i in 0..k
            invariant
                k == groups@.len(),
                k == members@.len(),
                old_gs == group_ids(groups@),
                ms == group_ids(members@),
                fin.len() == k,
                forall|q: int| 0 <= q < k ==> #[trigger] fin[q] == old_gs[q] + ms[q],
                group_ids(merged@) == fin.take(i as int),
        {
            let g = concat_tags(&groups[i], &members[i]);
            let ghost prev = group_ids(merged@);
            merged.push(g);
            assert(group_ids(merged@) =~= prev.push(ids(g@)));
            assert(fin.take(i + 1) =~= fin.take(i as int).push(fin[i as int]));
        }
        proof {
            assert(fin.take(k as int) =~= fin);
            lemma_tags_in_pointwise(old_gs, ms, fin);
            assert forall|i: int| 0 <= i < k implies #[trigger] fin[i].skip(old_gs[i].len() as int) == ms[i] by {
                assert(fin[i] == old_gs[i] + ms[i]);
                assert((old_gs[i] + ms[i]).skip(old_gs[i].len() as int) =~= ms[i]);
            }
            assert(Seq::new(k as nat, |i: int| fin[i].skip(old_gs[i].len() as int)) =~= ms);
            assert forall|i: int| 0 <= i < k implies {
                let g = #[trigger] group_ids(merged@)[i];
                &&& g.len() >= old_gs[i].len()
                &&& g.take(old_gs[i].len() as int) == old_gs[i]
            } by {
                assert(fin[i] == old_gs[i] + ms[i]);
                assert((old_gs[i] + ms[i]).take(old_gs[i].len() as int) =~= old_gs[i]);
            }
        }
        *groups = merged;
        let ghost old_orphans = orphans@;
        let ghost rest_seq = rest@;
        orphans.append(&mut rest);
        proof {
            assert(orphans@.take(old_orphans.len() as int) =~= old_orphans);
            assert(orphans@.skip(old_orphans.len() as int) =~= rest_seq);
            assert(tags_in(fin).add(ids(rest_seq).to_multiset()) =~= tags_in(old_gs).add(ids(tags@).to_multiset()));
            assert forall|i: int| 0 <= i < rest_seq.len() implies #[trigger] ids(rest_seq)[i] < self.nodes().len() by {
                assert(ids(rest_seq)[i] == pool@[n_stored + i]);
            }
            assert forall|i: int| 0 <= i < k implies all_below(#[trigger] fin[i], self.nodes().len()) by {
                assert forall|x: int| 0 <= x < fin[i].len() implies #[trigger] fin[i][x] < self.nodes().len() by {
                    if x < old_gs[i].len() {
                        assert(fin[i][x] == old_gs[i][x]);
                    } else {
                        assert(fin[i][x] == ms[i][x - old_gs[i].len()]);
                    }
                }
            }
        }
        Ok(())
    }

    /// Adds two edges between `a` and `b`, one in each direction, each with
    /// its own weight drawn from `lo..=hi`
    fn link_pair(&mut self, rng: &mut StdRng, a: usize, b: usize, lo: usize, hi: usize)
        requires
            old(self).wf(),
            a < old(self).nodes().len(),
            b < old(self).nodes().len(),
            1 <= lo <= hi <= 10,
        ensures
            final(self).wf(),
            final(self).nodes() == old(self).nodes(),
            final(self).edges().len() == old(self).edges().len() + 2,
            final(self).edges().take(old(self).edges().len() as int) == old(self).edges(),
            ({
                let e = final(self).edges()[old(self).edges().len() as int];
                e.0 == a && e.1 == b && lo <= e.2 <= hi
            }),
            ({
                let e = final(self).edges()[old(self).edges().len() + 1int];
                e.0 == b && e.1 == a && lo <= e.2 <= hi
            }),
            mirrored(final(self).edges(), old(self).edges().len() as int),
    {
        let w = uniform_in(rng, lo, hi) as u32;
        add_edge(&mut self.0, a, b, w);
        let w = uniform_in(rng, lo, hi) as u32;
        add_edge(&mut self.0, b, a, w);
        assert(self.edges().take(old(self).edges().len() as int) =~= old(self).edges());
    }

    /// Links every two distinct members of `group` in both directions, with
    /// weights from 5 to 10
    #[verifier::rlimit(100)]
    #[verifier::spinoff_prover]
    fn link_within(&mut self, rng: &mut StdRng, group: &Vec<TagId>)
        requires
            old(self).wf(),
            all_below(ids(group@), old(self).nodes().len()),
        ensures
            final(self).wf(),
            final(self).nodes() == old(self).nodes(),
            final(self).edges().len() >= old(self).edges().len(),
            final(self).edges().take(old(self).edges().len() as int) == old(self).edges(),
            forall|k: int|
                old(self).edges().len() <= k < final(self).edges().len() ==> between(
                    #[trigger] final(self).edges()[k],
                    ids(group@),
                    ids(group@),
                    5,
                    10,
                ),
            linked_within(final(self).edges(), ids(group@)),
            mirrored(final(self).edges(), old(self).edges().len() as int),
    {
        let ghost start = self.edges();
        let ghost g = ids(group@);
        for x in 0..group.len()
            invariant
                self.wf(),
                self.nodes() == old(self).nodes(),
                start == old(self).edges(),
                g == ids(group@),
                all_below(g, self.nodes().len()),
                self.edges().len() >= start.len(),
                self.edges().take(start.len() as int) == start,
                mirrored(self.edges(), start.len() as int),
                forall|k: int| start.len() <= k < self.edges().len() ==> between(#[trigger] self.edges()[k], g, g, 5, 10),
                forall|p: int, q: int| 0 <= p < x && p < q < g.len() ==> linked(self.edges(), #[trigger] g[p], #[trigger] g[q]) && linked(self.edges(), g[q], g[p]),
        {
            for y in x + 1..group.len()
                invariant
                    x < group.len(),
                    forall|p: int, q: int| 0 <= p < x && p < q < g.len() ==> linked(self.edges(), #[trigger] g[p], #[trigger] g[q]) && linked(self.edges(), g[q], g[p]),
                    forall|q: int| x < q < y ==> linked(self.edges(), g[x as int], #[trigger] g[q]) && linked(self.edges(), g[q], g[x as int]),
                    self.wf(),
                    self.nodes() == old(self).nodes(),
                    g == ids(group@),
                    all_below(g, self.nodes().len()),
                    self.edges().len() >= start.len(),
                    self.edges().take(start.len() as int) == start,
                    mirrored(self.edges(), start.len() as int),
                    forall|k: int| start.len() <= k < self.edges().len() ==> between(#[trigger] self.edges()[k], g, g, 5, 10),
            {
                let a = group[x].0;
                let b = group[y].0;
                assert(g[x as int] == a && g[y as int] == b);
                let ghost before = self.edges();
                self.link_pair(rng, a, b, 5, 10);
                proof {
                    lemma_mirrored_extend(before, self.edges(), start.len() as int);
                }
                assert(self.edges().take(start.len() as int) =~= before.take(start.len() as int));
                assert forall|k: int| start.len() <= k < self.edges().len() implies between(#[trigger] self.edges()[k], g, g, 5, 10) by {
                    if k < before.len() {
                        assert(self.edges()[k] == self.edges().take(before.len() as int)[k]);
                    }
                }
                assert(self.edges()[before.len() as int].0 == a);
                assert(self.edges()[before.len() + 1int].0 == b);
                assert forall|p: int, q: int| 0 <= p < x && p < q < g.len() implies linked(self.edges(), #[trigger] g[p], #[trigger] g[q]) && linked(self.edges(), g[q], g[p]) by {
                    lemma_linked_grows(before, self.edges(), g[p], g[q]);
                    lemma_linked_grows(before, self.edges(), g[q], g[p]);
                }
                assert forall|q: int| x < q < y + 1 implies linked(self.edges(), g[x as int], #[trigger] g[q]) && linked(self.edges(), g[q], g[x as int]) by {
                    if q < y {
                        lemma_linked_grows(before, self.edges(), g[x as int], g[q]);
                        lemma_linked_grows(before, self.edges(), g[q], g[x as int]);
                    }
                }
            }
        }
        assert forall|x: int, y: int| 0 <= x < g.len() && 0 <= y < g.len() && x != y implies linked(self.edges(), #[trigger] g[x], #[trigger] g[y]) by {
            if x < y {
                assert(linked(self.edges(), g[x], g[y]));
            } else {
                assert(linked(self.edges(), g[y], g[x]) && linked(self.edges(), g[x], g[y]));
            }
        }
    }

    /// Links members of `a` to members of `b`, in both directions: every pair
    /// with weights from 5 to 10, or, when `sparse`, each pair by chance with
    /// weights from 1 to 5
    #[verifier::rlimit(100)]
    #[verifier::spinoff_prover]
    fn link_across(&mut self, rng: &mut StdRng, a: &Vec<TagId>, b: &Vec<TagId>, sparse: bool)
        requires
            old(self).wf(),
            all_below(ids(a@), old(self).nodes().len()),
            all_below(ids(b@), old(self).nodes().len()),
        ensures
            final(self).wf(),
            final(self).nodes() == old(self).nodes(),
            final(self).edges().len() >= old(self).edges().len(),
            final(self).edges().take(old(self).edges().len() as int) == old(self).edges(),
            forall|k: int|
                old(self).edges().len() <= k < final(self).edges().len() ==> between(
                    #[trigger] final(self).edges()[k],
                    ids(a@),
                    ids(b@),
                    if sparse { 1 } else { 5 },
                    if sparse { 5 } else { 10 },
                ),
            !sparse ==> linked_across(final(self).edges(), ids(a@), ids(b@)),
            mirrored(final(self).edges(), old(self).edges().len() as int),
    {
        let ghost start = self.edges();
        let ghost ga = ids(a@);
        let ghost gb = ids(b@);
        let lo: usize = if sparse { 1 } else { 5 };
        let hi: usize = if sparse { 5 } else { 10 };
        for x in 0..a.len()
            invariant
                self.wf(),
                self.nodes() == old(self).nodes(),
                start == old(self).edges(),
                ga == ids(a@),
                gb == ids(b@),
                lo == if sparse { 1usize } else { 5 },
                hi == if sparse { 5usize } else { 10 },
                all_below(ga, self.nodes().len()),
                all_below(gb, self.nodes().len()),
                self.edges().len() >= start.len(),
                self.edges().take(start.len() as int) == start,
                mirrored(self.edges(), start.len() as int),
                forall|k: int| start.len() <= k < self.edges().len() ==> between(#[trigger] self.edges()[k], ga, gb, lo as int, hi as int),
                !sparse ==> linked_across(self.edges(), ga.take(x as int), gb),
        {
            for y in 0..b.len()
                invariant
                    x < a.len(),
                    !sparse ==> linked_across(self.edges(), ga.take(x as int), gb),
                    !sparse ==> forall|q: int| 0 <= q < y ==> linked(self.edges(), ga[x as int], #[trigger] gb[q]) && linked(self.edges(), gb[q], ga[x as int]),
                    self.wf(),
                    self.nodes() == old(self).nodes(),
                    ga == ids(a@),
                    gb == ids(b@),
                    lo == if sparse { 1usize } else { 5 },
                    hi == if sparse { 5usize } else { 10 },
                    all_below(ga, self.nodes().len()),
                    all_below(gb, self.nodes().len()),
                    self.edges().len() >= start.len(),
                    self.edges().take(start.len() as int) == start,
                    mirrored(self.edges(), start.len() as int),
                    forall|k: int| start.len() <= k < self.edges().len() ==> between(#[trigger] self.edges()[k], ga, gb, lo as int, hi as int),
            {
                let ta = a[x].0;
                let tb = b[y].0;
                assert(ga[x as int] == ta && gb[y as int] == tb);
                if !sparse || uniform_in(rng, 1, CROSS_GROUP_ODDS) == 1 {
                    let ghost before = self.edges();
                    self.link_pair(rng, ta, tb, lo, hi);
                    proof {
                        lemma_mirrored_extend(before, self.edges(), start.len() as int);
                    }
                    assert(self.edges().take(start.len() as int) =~= before.take(start.len() as int));
                    assert forall|k: int| start.len() <= k < self.edges().len() implies between(#[trigger] self.edges()[k], ga, gb, lo as int, hi as int) by {
                        if k < before.len() {
                            assert(self.edges()[k] == self.edges().take(before.len() as int)[k]);
                        }
                    }
                    proof {
                        if !sparse {
                            lemma_linked_across_grows(before, self.edges(), ga.take(x as int), gb);
                            assert(self.edges()[before.len() as int].0 == ta);
                            assert(self.edges()[before.len() + 1int].0 == tb);
                            assert forall|q: int| 0 <= q < y + 1 implies linked(self.edges(), ga[x as int], #[trigger] gb[q]) && linked(self.edges(), gb[q], ga[x as int]) by {
                                if q < y {
                                    lemma_linked_grows(before, self.edges(), ga[x as int], gb[q]);
                                    lemma_linked_grows(before, self.edges(), gb[q], ga[x as int]);
                                }
                            }
                        }
                    }
                }
            }
            proof {
                if !sparse {
                    assert forall|p: int, q: int| 0 <= p < ga.take(x + 1).len() && 0 <= q < gb.len() implies linked(self.edges(), #[trigger] ga.take(x + 1)[p], #[trigger] gb[q]) && linked(self.edges(), gb[q], ga.take(x + 1)[p]) by {
                        if p < x {
                            assert(ga.take(x + 1)[p] == ga.take(x as int)[p]);
                        }
                    }
                }
            }
        }
        assert(ga.take(a@.len() as int) =~= ga);
    }

    /// The number of nodes of the graph
    pub fn nodes_len(&self) -> (r: usize)
        ensures
            r == self.nodes().len(),
    {
        node_count(&self.0)
    }

    /// The number of edges of the graph
    pub fn edge_count(&self) -> (r: usize)
        ensures
            r == self.edges().len(),
    {
        edge_count(&self.0)
    }
}

/// Relies on petgraph's `Graph::node_count`: the number of nodes.
#[verifier::external_body]
fn node_count(g: &TagGraph) -> (r: usize)
    ensures
        r == graph_nodes(*g).len(),
{
    g.node_count()
}

/// Relies on petgraph's `Graph::edge_count`: the number of edges.
#[verifier::external_body]
fn edge_count(g: &TagGraph) -> (r: usize)
    ensures
        r == graph_edges(*g).len(),
{
    g.edge_count()
}

} // verus!
