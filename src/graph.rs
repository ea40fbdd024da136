//! Directed graphs over node numbers, kept in petgraph's `GraphMap`, and the
//! topological orders that petgraph computes for them.
use vstd::prelude::*;

use petgraph::algo::toposort;
use petgraph::graphmap::{DiGraphMap, GraphMap};
use petgraph::{Directed, Direction};
use std::hash::BuildHasher;

verus! {

#[verifier::external_type_specification]
#[verifier::external_body]
#[verifier::reject_recursive_types(N)]
#[verifier::reject_recursive_types(E)]
#[verifier::reject_recursive_types(Ty)]
#[verifier::reject_recursive_types(S)]
pub struct ExGraphMap<N, E, Ty, S: BuildHasher>(GraphMap<N, E, Ty, S>);

#[verifier::external_type_specification]
#[verifier::external_body]
pub struct ExDirected(Directed);

/// The nodes of a graph.
pub uninterp spec fn graph_nodes(g: DiGraphMap<usize, ()>) -> Set<usize>;

/// The edges of a graph, as (from, to) pairs.
pub uninterp spec fn graph_edges(g: DiGraphMap<usize, ()>) -> Set<(usize, usize)>;

/// `order` lists each node once, and each edge's source before its target.
pub open spec fn is_topological_order<A>(order: Seq<A>, nodes: Set<A>, edges: Set<(A, A)>) -> bool {
    &&& order.no_duplicates()
    &&& order.to_set() == nodes
    &&& forall|i: int, j: int|
        0 <= i < order.len() && 0 <= j < order.len() && #[trigger] edges.contains(
            (order[i], order[j]),
        ) ==> i < j
}

/// The graph has no cycle: some order of its nodes respects every edge.
pub open spec fn has_topological_order<A>(nodes: Set<A>, edges: Set<(A, A)>) -> bool {
    exists|order: Seq<A>| is_topological_order(order, nodes, edges)
}

/// Relies on `GraphMap::new`: a graph without nodes or edges.
#[verifier::external_body]
pub(crate) fn new_graph() -> (g: DiGraphMap<usize, ()>)
    ensures
        graph_nodes(g) == Set::<usize>::empty(),
        graph_edges(g) == Set::<(usize, usize)>::empty(),
{
    DiGraphMap::new()
}

/// Relies on `GraphMap::add_node`: the node is there afterwards, nothing else
/// changes.
#[verifier::external_body]
pub(crate) fn add_node(g: &mut DiGraphMap<usize, ()>, n: usize)
    ensures
        graph_nodes(*final(g)) == graph_nodes(*old(g)).insert(n),
        graph_edges(*final(g)) == graph_edges(*old(g)),
{
    g.add_node(n);
}

/// Relies on `GraphMap::add_edge`: both ends become nodes and the edge is
/// there afterwards; adding an edge twice keeps one.
#[verifier::external_body]
pub(crate) fn add_edge(g: &mut DiGraphMap<usize, ()>, a: usize, b: usize)
    ensures
        graph_nodes(*final(g)) == graph_nodes(*old(g)).insert(a).insert(b),
        graph_edges(*final(g)) == graph_edges(*old(g)).insert((a, b)),
{
    g.add_edge(a, b, ());
}

/// Relies on `GraphMap::neighbors_directed`: whether an edge enters `n`
/// (`incoming`) or leaves it (otherwise); a loop on `n` counts both ways.
#[verifier::external_body]
pub(crate) fn has_neighbors(g: &DiGraphMap<usize, ()>, n: usize, incoming: bool) -> (r: bool)
    ensures
        incoming ==> (r <==> exists|m: usize| graph_edges(*g).contains((m, n))),
        !incoming ==> (r <==> exists|m: usize| graph_edges(*g).contains((n, m))),
{
    let dir = if incoming {
        Direction::Incoming
    } else {
        Direction::Outgoing
    };
    g.neighbors_directed(n, dir).next().is_some()
}

/// Relies on `petgraph::algo::toposort`: every node once, each before its
/// successors; a cycle (a loop included) gives an error.
#[verifier::external_body]
pub(crate) fn topological_sort(g: &DiGraphMap<usize, ()>) -> (r: Option<Vec<usize>>)
    ensures
        match r {
            Some(order) => is_topological_order(order@, graph_nodes(*g), graph_edges(*g)),
            None => !has_topological_order(graph_nodes(*g), graph_edges(*g)),
        },
{
    toposort(g, None).ok()
}


/// A graph over numbers and a graph over other values, matched node for node
/// and edge for edge by an injective `name`, have topological orders together.
pub proof fn lemma_topological_order_renamed<B>(
    ids: Set<usize>,
    id_edges: Set<(usize, usize)>,
    name: spec_fn(usize) -> B,
    nodes: Set<B>,
    edges: Set<(B, B)>,
)
    requires
        forall|a: usize, b: usize|
            ids.contains(a) && ids.contains(b) && name(a) == name(b) ==> a == b,
        forall|a: usize| ids.contains(a) ==> nodes.contains(#[trigger] name(a)),
        forall|x: B| nodes.contains(x) ==> exists|a: usize| ids.contains(a) && name(a) == x,
        forall|a: usize, b: usize|
            ids.contains(a) && ids.contains(b) ==> (id_edges.contains((a, b)) <==> edges.contains(
                (name(a), name(b)),
            )),
    ensures
        has_topological_order(ids, id_edges) <==> has_topological_order(nodes, edges),
        forall|order: Seq<usize>|
            is_topological_order(order, ids, id_edges) ==> is_topological_order(
                order.map_values(name),
                nodes,
                edges,
            ),
{
    assert forall|order: Seq<usize>| is_topological_order(order, ids, id_edges) implies
        is_topological_order(order.map_values(name), nodes, edges) by {
        let s = order.map_values(name);
        assert forall|i: int| 0 <= i < order.len() implies ids.contains(order[i]) by {
            assert(order.to_set().contains(order[i]));
        }
        assert forall|i: int, j: int| 0 <= i < s.len() && 0 <= j < s.len() && i != j implies s[i]
            != s[j] by {
            assert(ids.contains(order[i]) && ids.contains(order[j]));
        }
        assert forall|x: B| s.to_set().contains(x) <==> nodes.contains(x) by {
            if s.to_set().contains(x) {
                let i = choose|i: int| 0 <= i < s.len() && s[i] == x;
                assert(ids.contains(order[i]));
            }
            if nodes.contains(x) {
                let a = choose|a: usize| ids.contains(a) && name(a) == x;
                assert(order.to_set().contains(a));
                let i = choose|i: int| 0 <= i < order.len() && order[i] == a;
                assert(s[i] == x);
            }
        }
        assert(s.to_set() =~= nodes);
        assert forall|i: int, j: int|
            0 <= i < s.len() && 0 <= j < s.len() && #[trigger] edges.contains(
                (s[i], s[j]),
            ) implies i < j by {
            assert(ids.contains(order[i]) && ids.contains(order[j]));
            assert(id_edges.contains((order[i], order[j])));
        }
    }
    if has_topological_order(ids, id_edges) {
        let order = choose|order: Seq<usize>| is_topological_order(order, ids, id_edges);
        assert(is_topological_order(order.map_values(name), nodes, edges));
    }
    if has_topological_order(nodes, edges) {
        let s = choose|s: Seq<B>| is_topological_order(s, nodes, edges);
        let back = |x: B| choose|a: usize| ids.contains(a) && name(a) == x;
        let order = s.map_values(back);
        assert forall|i: int| 0 <= i < s.len() implies ids.contains(#[trigger] order[i]) && name(
            order[i],
        ) == s[i] by {
            assert(s.to_set().contains(s[i]));
        }
        assert forall|i: int, j: int|
            0 <= i < order.len() && 0 <= j < order.len() && i != j implies order[i]
            != order[j] by {
            assert(name(order[i]) == s[i] && name(order[j]) == s[j]);
        }
        assert forall|a: usize| order.to_set().contains(a) <==> ids.contains(a) by {
            if ids.contains(a) {
                assert(nodes.contains(name(a)));
                assert(s.to_set().contains(name(a)));
                let i = choose|i: int| 0 <= i < s.len() && s[i] == name(a);
                assert(ids.contains(order[i]) && name(order[i]) == name(a));
                assert(order[i] == a);
            }
            if order.to_set().contains(a) {
                let i = choose|i: int| 0 <= i < order.len() && order[i] == a;
            }
        }
        assert(order.to_set() =~= ids);
        assert forall|i: int, j: int|
            0 <= i < order.len() && 0 <= j < order.len() && #[trigger] id_edges.contains(
                (order[i], order[j]),
            ) implies i < j by {
            assert(ids.contains(order[i]) && ids.contains(order[j]));
            assert(name(order[i]) == s[i] && name(order[j]) == s[j]);
            assert(edges.contains((s[i], s[j])));
        }
        assert(is_topological_order(order, ids, id_edges));
    }
}


/// Some position in `0..len` picks `p`.
spec fn reached(pick: spec_fn(int) -> int, len: int, p: int) -> bool {
    exists|x: int| 0 <= x < len && #[trigger] pick(x) == p
}

/// Where an order of the nodes is given by `pick` (position to old position),
/// a bijection of the positions that keeps the relative order of every
/// position but `moved`, every edge that avoids the moved node still points
/// forward.
proof fn lemma_reordered<A>(
    t: Seq<A>,
    nodes: Set<A>,
    edges: Set<(A, A)>,
    pick: spec_fn(int) -> int,
    moved: int,
    v: A,
) -> (t2: Seq<A>)
    requires
        is_topological_order(t, nodes, edges),
        0 <= moved < t.len(),
        forall|x: int| 0 <= x < t.len() ==> 0 <= #[trigger] pick(x) < t.len(),
        forall|x: int, y: int|
            0 <= x < t.len() && 0 <= y < t.len() && x != y ==> #[trigger] pick(x) != #[trigger] pick(y),
        forall|p: int| 0 <= p < t.len() ==> #[trigger] reached(pick, t.len() as int, p),
        forall|x: int, y: int|
            0 <= x < y < t.len() && x != moved && y != moved ==> #[trigger] pick(x) < #[trigger] pick(y),
        t[pick(moved)] == v,
    ensures
        t2.len() == t.len(),
        t2[moved] == v,
        t2.no_duplicates(),
        t2.to_set() == nodes,
        forall|x: int| 0 <= x < t2.len() ==> #[trigger] t2[x] == t[pick(x)],
        forall|x: int, y: int|
            0 <= x < t2.len() && 0 <= y < t2.len() && t2[x] != v && t2[y] != v
                && #[trigger] edges.contains((t2[x], t2[y])) ==> x < y,
{
    let t2 = Seq::new(t.len(), |x: int| t[pick(x)]);
    assert forall|x: int, y: int| 0 <= x < t2.len() && 0 <= y < t2.len() && x != y implies t2[x] != t2[y] by {
        assert(pick(x) != pick(y));
    }
    assert forall|a: A| t2.to_set().contains(a) <==> nodes.contains(a) by {
        if t2.to_set().contains(a) {
            let x = choose|x: int| 0 <= x < t2.len() && t2[x] == a;
            assert(t.to_set().contains(t[pick(x)]));
        }
        if nodes.contains(a) {
            assert(t.to_set().contains(a));
            let p = choose|p: int| 0 <= p < t.len() && t[p] == a;
            assert(reached(pick, t.len() as int, p));
            let x = choose|x: int| 0 <= x < t.len() && #[trigger] pick(x) == p;
            assert(t2[x] == a);
        }
    }
    assert(t2.to_set() =~= nodes);
    assert forall|x: int, y: int|
        0 <= x < t2.len() && 0 <= y < t2.len() && t2[x] != v && t2[y] != v
            && #[trigger] edges.contains((t2[x], t2[y])) implies x < y by {
        assert(x != moved && y != moved);
        assert(pick(x) < pick(y));
    }
    t2
}

/// Moving `v` to just after `u`, when no other edge touches `v`, gives an
/// order that also keeps the edge from `u` to `v`.
pub proof fn lemma_move_after<A>(t: Seq<A>, nodes: Set<A>, edges: Set<(A, A)>, u: A, v: A)
    requires
        is_topological_order(t, nodes, edges),
        nodes.contains(u),
        nodes.contains(v),
        u != v,
        forall|x: A| #[trigger] edges.contains((x, v)) ==> x == u,
        forall|x: A| !#[trigger] edges.contains((v, x)),
    ensures
        has_topological_order(nodes, edges.insert((u, v))),
{
    assert(t.to_set().contains(u) && t.to_set().contains(v));
    let iu = choose|i: int| 0 <= i < t.len() && t[i] == u;
    let iv = choose|i: int| 0 <= i < t.len() && t[i] == v;
    let len = t.len() as int;
    if iu < iv {
        let pick = |x: int|
            if x <= iu {
                x
            } else if x == iu + 1 {
                iv
            } else if x <= iv {
                x - 1
            } else {
                x
            };
        assert forall|p: int| 0 <= p < len implies reached(pick, len, p) by {
            if p <= iu {
                assert(pick(p) == p);
            } else if p < iv {
                assert(pick(p + 1) == p);
            } else if p == iv {
                assert(pick(iu + 1) == p);
            } else {
                assert(pick(p) == p);
            }
        }
        let t2 = lemma_reordered(t, nodes, edges, pick, iu + 1, v);
        assert(t2[iu] == u);
        assert forall|x: int, y: int|
            0 <= x < t2.len() && 0 <= y < t2.len() && #[trigger] edges.insert((u, v)).contains(
                (t2[x], t2[y]),
            ) implies x < y by {
            if t2[y] == v {
                assert(y == iu + 1);
                if (t2[x], t2[y]) != (u, v) {
                    assert(edges.contains((t2[x], v)));
                }
                assert(t2[x] == u);
                assert(x == iu);
            } else if t2[x] == v {
                assert((t2[x], t2[y]) != (u, v));
                assert(edges.contains((v, t2[y])));
            }
        }
        assert(is_topological_order(t2, nodes, edges.insert((u, v))));
    } else {
        let pick = |x: int|
            if x < iv {
                x
            } else if x < iu {
                x + 1
            } else if x == iu {
                iv
            } else {
                x
            };
        assert forall|p: int| 0 <= p < len implies reached(pick, len, p) by {
            if p < iv {
                assert(pick(p) == p);
            } else if p == iv {
                assert(pick(iu) == p);
            } else if p <= iu {
                assert(pick(p - 1) == p);
            } else {
                assert(pick(p) == p);
            }
        }
        let t2 = lemma_reordered(t, nodes, edges, pick, iu, v);
        assert(t2[iu - 1] == u);
        assert forall|x: int, y: int|
            0 <= x < t2.len() && 0 <= y < t2.len() && #[trigger] edges.insert((u, v)).contains(
                (t2[x], t2[y]),
            ) implies x < y by {
            if t2[y] == v {
                assert(y == iu);
                if (t2[x], t2[y]) != (u, v) {
                    assert(edges.contains((t2[x], v)));
                }
                assert(t2[x] == u);
                assert(x == iu - 1);
            } else if t2[x] == v {
                assert((t2[x], t2[y]) != (u, v));
                assert(edges.contains((v, t2[y])));
            }
        }
        assert(is_topological_order(t2, nodes, edges.insert((u, v))));
    }
}

/// Moving `v`, which no edge touches, to the front gives an order that also
/// keeps an edge from `v` to any other node.
pub proof fn lemma_move_to_front<A>(t: Seq<A>, nodes: Set<A>, edges: Set<(A, A)>, v: A, w: A)
    requires
        is_topological_order(t, nodes, edges),
        nodes.contains(v),
        v != w,
        forall|x: A| !#[trigger] edges.contains((x, v)),
        forall|x: A| !#[trigger] edges.contains((v, x)),
    ensures
        has_topological_order(nodes, edges.insert((v, w))),
{
    assert(t.to_set().contains(v));
    let iv = choose|i: int| 0 <= i < t.len() && t[i] == v;
    let len = t.len() as int;
    let pick = |x: int|
        if x == 0 {
            iv
        } else if x <= iv {
            x - 1
        } else {
            x
        };
    assert forall|p: int| 0 <= p < len implies reached(pick, len, p) by {
        if p < iv {
            assert(pick(p + 1) == p);
        } else if p == iv {
            assert(pick(0) == p);
        } else {
            assert(pick(p) == p);
        }
    }
    let t2 = lemma_reordered(t, nodes, edges, pick, 0, v);
    assert forall|x: int, y: int|
        0 <= x < t2.len() && 0 <= y < t2.len() && #[trigger] edges.insert((v, w)).contains(
            (t2[x], t2[y]),
        ) implies x < y by {
        if t2[x] == v {
            assert(x == 0);
            if y == 0 {
                assert(t2[y] == v);
                assert(edges.contains((v, v)));
            }
        } else if t2[y] == v {
            assert(edges.contains((t2[x], v)));
        }
    }
    assert(is_topological_order(t2, nodes, edges.insert((v, w))));
}

} // verus!
