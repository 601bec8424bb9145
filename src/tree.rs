//! The tree builder: a minimum spanning tree over the cluster under the
//! Manhattan distance, grown from one node by nearest-fragment steps.
use vstd::prelude::*;
use crate::cluster::Chunk;

verus! {

pub open spec fn abs_diff(a: i32, b: i32) -> int {
    if a >= b {
        a - b
    } else {
        b - a
    }
}

/// The Manhattan distance between two coordinates.
pub open spec fn dist_spec(p: (i32, i32), q: (i32, i32)) -> int {
    abs_diff(p.0, q.0) + abs_diff(p.1, q.1)
}

pub open spec fn chunk_dist(a: Chunk, b: Chunk) -> int {
    dist_spec((a.x, a.z), (b.x, b.z))
}

/// The Manhattan distance between two coordinates.
pub fn dist(pos1: &(i32, i32), pos2: &(i32, i32)) -> (r: u64)
    ensures
        r == dist_spec(*pos1, *pos2),
{
    let dx: u64 = if pos1.0 >= pos2.0 {
        (pos1.0 as i64 - pos2.0 as i64) as u64
    } else {
        (pos2.0 as i64 - pos1.0 as i64) as u64
    };
    let dz: u64 = if pos1.1 >= pos2.1 {
        (pos1.1 as i64 - pos2.1 as i64) as u64
    } else {
        (pos2.1 as i64 - pos1.1 as i64) as u64
    };
    dx + dz
}

/// A tree edge between the nodes with indices `a` and `b`.
#[derive(Clone, Copy, Debug, PartialEq, Eq, Structural)]
pub struct Edge {
    pub a: usize,
    pub b: usize,
    pub weight: u64,
}

/// The nodes, and the edges in the order they were added: edge `i` joins a
/// node already in the tree (`a`) to a new one (`b`).
pub struct SpanningTree {
    pub nodes: Vec<Chunk>,
    pub edges: Vec<Edge>,
}

/// Node `v` is in the tree after its first `i` edges: it is the seed, node 0,
/// or the new end of one of them.
pub open spec fn joined(edges: Seq<Edge>, i: int, v: int) -> bool {
    v == 0 || exists|t: int| 0 <= t < i && #[trigger] edges[t].b == v
}

/// The pair `(u1, v1)` comes before `(u2, v2)` in row-major order.
pub open spec fn lex_before(u1: int, v1: int, u2: int, v2: int) -> bool {
    u1 < u2 || (u1 == u2 && v1 < v2)
}

/// Edge `i` is a shortest one between the first `i` edges' tree and the
/// other nodes, and leads out of that tree; of the shortest ones it is the
/// first in the order of (tree node, other node) indices.
pub open spec fn greedy_step(nodes: Seq<Chunk>, edges: Seq<Edge>, i: int) -> bool {
    let e = edges[i];
    &&& e.a < nodes.len() && e.b < nodes.len()
    &&& e.weight == chunk_dist(nodes[e.a as int], nodes[e.b as int])
    &&& joined(edges, i, e.a as int)
    &&& !joined(edges, i, e.b as int)
    &&& forall|u: int, v: int|
        0 <= u < nodes.len() && 0 <= v < nodes.len() && joined(edges, i, u) && !joined(edges, i, v)
            ==> e.weight <= #[trigger] chunk_dist(nodes[u], nodes[v])
    &&& forall|u: int, v: int|
        0 <= u < nodes.len() && 0 <= v < nodes.len() && joined(edges, i, u) && !joined(edges, i, v)
            && lex_before(u, v, e.a as int, e.b as int) ==> e.weight < #[trigger] chunk_dist(
            nodes[u],
            nodes[v],
        )
}

/// A tree over `nodes` grown one greedy step at a time.
pub open spec fn is_prim_tree(nodes: Seq<Chunk>, edges: Seq<Edge>) -> bool {
    &&& edges.len() == if nodes.len() == 0 { 0 } else { nodes.len() - 1 }
    &&& forall|i: int| 0 <= i < edges.len() ==> #[trigger] greedy_step(nodes, edges, i)
}

/// The total weight of the edges.
pub open spec fn total_weight(edges: Seq<Edge>) -> int
    decreases edges.len(),
{
    if edges.len() == 0 {
        0
    } else {
        total_weight(edges.drop_last()) + edges.last().weight
    }
}

/// No pair (tree node below row `u`, node outside the tree) is shorter than
/// `best`, and there is one only if `found`.
pub open spec fn scanned_rows(cells: Seq<Chunk>, used: Seq<bool>, found: bool, best: int, u: int) -> bool {
    forall|u2: int, v2: int|
        #![trigger used[u2], used[v2]]
        0 <= u2 < u && 0 <= v2 < cells.len() && used[u2] && !used[v2] ==> found && best
            <= chunk_dist(cells[u2], cells[v2])
}

/// Every pair of rows below `u` that comes before `(bu, bv)` is longer than
/// `best`.
pub open spec fn strictly_before(
    cells: Seq<Chunk>,
    used: Seq<bool>,
    best: int,
    bu: int,
    bv: int,
    u: int,
) -> bool {
    forall|u2: int, v2: int|
        #![trigger used[u2], used[v2]]
        0 <= u2 < u && 0 <= v2 < cells.len() && used[u2] && !used[v2] && lex_before(u2, v2, bu, bv)
            ==> best < chunk_dist(cells[u2], cells[v2])
}

proof fn lemma_missing(order: Seq<int>, n: int)
    requires
        order.no_duplicates(),
        forall|i: int| 0 <= i < order.len() ==> 0 <= #[trigger] order[i] < n,
        order.len() < n,
    ensures
        exists|v: int| 0 <= v < n && !order.contains(v),
{
    if forall|v: int| 0 <= v < n ==> order.contains(v) {
        vstd::set_lib::lemma_int_range(0, n);
        assert(vstd::set_lib::set_int_range(0, n).subset_of(order.to_set()));
        order.unique_seq_to_set();
        vstd::set_lib::lemma_len_subset(vstd::set_lib::set_int_range(0, n), order.to_set());
    }
}

/// Build the tree over `cells`: seed it with the first cell, then add a
/// shortest edge from the tree to a cell outside it until every cell is in.
pub fn build_tree(cells: &Vec<Chunk>) -> (r: SpanningTree)
    ensures
        r.nodes@ == cells@,
        is_prim_tree(r.nodes@, r.edges@),
{
    let n = cells.len();
    let mut edges: Vec<Edge> = Vec::new();
    if n == 0 {
        return SpanningTree { nodes: cells.clone(), edges };
    }
    let mut used: Vec<bool> = Vec::new();
    let mut i: usize = 0;
    while i < n
        invariant
            i <= n,
            used@.len() == i,
            forall|k: int| 0 <= k < i ==> used@[k] == (k == 0),
        decreases n - i,
    {
        used.push(i == 0);
        i = i + 1;
    }
    let ghost mut order: Seq<int> = seq![0int];
    proof {
        assert forall|v: int| 0 <= v < n implies (used@[v] <==> order.contains(v)) by {
            if v == 0 {
                assert(order[0] == 0);
            }
        }
    }
    while edges.len() < n - 1
        invariant
            n == cells@.len(),
            n >= 1,
            used@.len() == n,
            edges@.len() <= n - 1,
            order.len() == edges@.len() + 1,
            order.no_duplicates(),
            forall|k: int| 0 <= k < order.len() ==> 0 <= #[trigger] order[k] < n,
            forall|v: int| 0 <= v < n ==> (used@[v] <==> order.contains(v)),
            forall|v: int| 0 <= v < n ==> (used@[v] <==> joined(edges@, edges@.len() as int, v)),
            forall|t: int| 0 <= t < edges@.len() ==> #[trigger] greedy_step(cells@, edges@, t),
        decreases n - 1 - edges@.len(),
    {
        proof {
            lemma_missing(order, n as int);
        }
        let mut found = false;
        let mut bu: usize = 0;
        let mut bv: usize = 0;
        let mut best: u64 = 0;
        let mut u: usize = 0;
        while u < n
            invariant
                n == cells@.len(),
                used@.len() == n,
                u <= n,
                found ==> bu < n && bv < n && used@[bu as int] && !used@[bv as int] && best
                    == chunk_dist(cells@[bu as int], cells@[bv as int]),
                scanned_rows(cells@, used@, found, best as int, u as int),
                strictly_before(cells@, used@, best as int, bu as int, bv as int, u as int),
                found ==> bu < u,
                !found ==> bu == 0 && bv == 0,
            decreases n - u,
        {
            if used[u] {
                let mut v: usize = 0;
                while v < n
                    invariant
                        n == cells@.len(),
                        used@.len() == n,
                        u < n,
                        used@[u as int],
                        v <= n,
                        found ==> bu < n && bv < n && used@[bu as int] && !used@[bv as int] && best
                            == chunk_dist(cells@[bu as int], cells@[bv as int]),
                        scanned_rows(cells@, used@, found, best as int, u as int),
                        forall|v2: int|
                            #![trigger used@[v2]]
                            0 <= v2 < v && !used@[v2] ==> found && best <= chunk_dist(
                                cells@[u as int],
                                cells@[v2],
                            ),
                        strictly_before(cells@, used@, best as int, bu as int, bv as int, u as int),
                        forall|v2: int|
                            #![trigger used@[v2]]
                            0 <= v2 < v && !used@[v2] && lex_before(u as int, v2, bu as int, bv as int)
                                ==> best < chunk_dist(cells@[u as int], cells@[v2]),
                        found ==> bu < u || (bu == u && bv < v),
                        !found ==> bu == 0 && bv == 0,
                    decreases n - v,
                {
                    if !used[v] {
                        let d = dist(&(cells[u].x, cells[u].z), &(cells[v].x, cells[v].z));
                        assert(d == chunk_dist(cells@[u as int], cells@[v as int]));
                        if !found || d < best {
                            let ghost old_found = found;
                            let ghost old_best = best;
                            found = true;
                            best = d;
                            bu = u;
                            bv = v;
                            assert(scanned_rows(cells@, used@, found, best as int, u as int)) by {
                                assert forall|u2: int, v2: int|
                                    0 <= u2 < u && 0 <= v2 < cells@.len() && used@[u2] && !used@[v2] implies found
                                        && best <= chunk_dist(cells@[u2], cells@[v2]) by {
                                    assert(old_found && old_best <= chunk_dist(cells@[u2], cells@[v2]));
                                }
                            }
                            assert(strictly_before(cells@, used@, best as int, bu as int, bv as int, u as int)) by {
                                assert forall|u2: int, v2: int|
                                    0 <= u2 < u && 0 <= v2 < cells@.len() && used@[u2] && !used@[v2]
                                        && lex_before(u2, v2, bu as int, bv as int) implies best < chunk_dist(
                                        cells@[u2],
                                        cells@[v2],
                                    ) by {
                                    assert(old_found && old_best <= chunk_dist(cells@[u2], cells@[v2]));
                                }
                            }
                        }
                    }
                    v = v + 1;
                }
                assert(scanned_rows(cells@, used@, found, best as int, u + 1)) by {
                    assert forall|u2: int, v2: int|
                        0 <= u2 < u + 1 && 0 <= v2 < cells@.len() && used@[u2] && !used@[v2] implies found
                            && best <= chunk_dist(cells@[u2], cells@[v2]) by {
                        if u2 < u {
                            assert(scanned_rows(cells@, used@, found, best as int, u as int));
                        }
                    }
                }
                assert(strictly_before(cells@, used@, best as int, bu as int, bv as int, u + 1)) by {
                    assert forall|u2: int, v2: int|
                        0 <= u2 < u + 1 && 0 <= v2 < cells@.len() && used@[u2] && !used@[v2]
                            && lex_before(u2, v2, bu as int, bv as int) implies best < chunk_dist(
                            cells@[u2],
                            cells@[v2],
                        ) by {
                        if u2 < u {
                            assert(strictly_before(cells@, used@, best as int, bu as int, bv as int, u as int));
                        }
                    }
                }
            } else {
                assert(strictly_before(cells@, used@, best as int, bu as int, bv as int, u + 1)) by {
                    assert forall|u2: int, v2: int|
                        0 <= u2 < u + 1 && 0 <= v2 < cells@.len() && used@[u2] && !used@[v2]
                            && lex_before(u2, v2, bu as int, bv as int) implies best < chunk_dist(
                            cells@[u2],
                            cells@[v2],
                        ) by {
                        assert(strictly_before(cells@, used@, best as int, bu as int, bv as int, u as int));
                    }
                }
                assert(scanned_rows(cells@, used@, found, best as int, u + 1)) by {
                    assert forall|u2: int, v2: int|
                        0 <= u2 < u + 1 && 0 <= v2 < cells@.len() && used@[u2] && !used@[v2] implies found
                            && best <= chunk_dist(cells@[u2], cells@[v2]) by {
                        assert(scanned_rows(cells@, used@, found, best as int, u as int));
                    }
                }
            }
            u = u + 1;
        }
        proof {
            let m = choose|v: int| 0 <= v < n && !order.contains(v);
            assert(used@[0]);
            assert(!used@[m]);
            assert(chunk_dist(cells@[0], cells@[m]) >= 0);
            assert(found);
        }
        let ghost old_edges = edges@;
        let ghost old_used = used@;
        let ghost old_order = order;
        let e = Edge { a: bu, b: bv, weight: best };
        edges.push(e);
        used.set(bv, true);
        proof {
            let i = old_edges.len() as int;
            assert(edges@[i] == e);
            assert forall|t: int, v: int| 0 <= t <= i implies joined(old_edges, t, v) <==> joined(edges@, t, v) by {
                if v != 0 && joined(old_edges, t, v) {
                    let t2 = choose|t2: int| 0 <= t2 < t && #[trigger] old_edges[t2].b == v;
                    assert(edges@[t2].b == v);
                }
                if v != 0 && joined(edges@, t, v) {
                    let t2 = choose|t2: int| 0 <= t2 < t && #[trigger] edges@[t2].b == v;
                    assert(old_edges[t2].b == v);
                }
            }
            assert forall|u2: int, v2: int|
                0 <= u2 < n && 0 <= v2 < n && joined(edges@, i, u2) && !joined(edges@, i, v2) implies best
                    <= #[trigger] chunk_dist(cells@[u2], cells@[v2]) by {
                assert(old_used[u2] && !old_used[v2]);
            }
            assert forall|u2: int, v2: int|
                0 <= u2 < n && 0 <= v2 < n && joined(edges@, i, u2) && !joined(edges@, i, v2)
                    && lex_before(u2, v2, bu as int, bv as int) implies best < #[trigger] chunk_dist(
                cells@[u2],
                cells@[v2],
            ) by {
                assert(old_used[u2] && !old_used[v2]);
                assert(strictly_before(cells@, old_used, best as int, bu as int, bv as int, n as int));
            }
            assert(greedy_step(cells@, edges@, i));
            assert forall|t: int| 0 <= t < i implies #[trigger] greedy_step(cells@, edges@, t) by {
                assert(greedy_step(cells@, old_edges, t));
                assert(edges@[t] == old_edges[t]);
            }
            assert forall|v: int| 0 <= v < n implies (used@[v] <==> joined(edges@, i + 1, v)) by {
                if v == bv {
                    assert(edges@[i].b == v);
                } else if v != 0 && joined(edges@, i + 1, v) {
                    let t = choose|t: int| 0 <= t < i + 1 && #[trigger] edges@[t].b == v;
                    assert(t != i);
                    assert(old_edges[t].b == v);
                }
            }
            order = old_order.push(bv as int);
            assert(!old_order.contains(bv as int));
            assert forall|a: int, b: int| 0 <= a < b < order.len() implies order[a] != order[b] by {
                if b == order.len() - 1 {
                    assert(old_order[a] == order[a]);
                } else {
                    assert(old_order[a] == order[a] && old_order[b] == order[b]);
                }
            }
            assert forall|v: int| 0 <= v < n implies (used@[v] <==> order.contains(v)) by {
                if v == bv {
                    assert(order[order.len() - 1] == v);
                } else {
                    assert(used@[v] == old_used[v]);
                    if order.contains(v) {
                        let k = choose|k: int| 0 <= k < order.len() && order[k] == v;
                        assert(old_order[k] == v);
                    }
                    if old_order.contains(v) {
                        let k = choose|k: int| 0 <= k < old_order.len() && old_order[k] == v;
                        assert(order[k] == v);
                    }
                }
            }
        }
    }
    SpanningTree { nodes: cells.clone(), edges }
}

/// A tree grown by greedy steps over `n >= 1` nodes has `n - 1` edges, each
/// joining a node already reached to a new one, and reaches every node: it is
/// a spanning tree.
pub proof fn lemma_tree_spans(nodes: Seq<Chunk>, edges: Seq<Edge>)
    requires
        nodes.len() >= 1,
        is_prim_tree(nodes, edges),
    ensures
        edges.len() == nodes.len() - 1,
        forall|i: int|
            0 <= i < edges.len() ==> joined(edges, i, (#[trigger] edges[i]).a as int) && !joined(
                edges,
                i,
                edges[i].b as int,
            ),
        forall|v: int| 0 <= v < nodes.len() ==> #[trigger] joined(edges, edges.len() as int, v),
{
    let n = nodes.len() as int;
    let m = edges.len() as int;
    assert forall|i: int| 0 <= i < m implies joined(edges, i, (#[trigger] edges[i]).a as int) && !joined(
        edges,
        i,
        edges[i].b as int,
    ) by {
        assert(greedy_step(nodes, edges, i));
    }
    let order: Seq<int> = seq![0int] + edges.map_values(|e: Edge| e.b as int);
    assert(order.len() == n);
    assert forall|k: int| 0 <= k < n implies 0 <= #[trigger] order[k] < n by {
        if k > 0 {
            assert(greedy_step(nodes, edges, k - 1));
        }
    }
    assert forall|a: int, b: int| 0 <= a < b < n implies order[a] != order[b] by {
        assert(greedy_step(nodes, edges, b - 1));
        if a > 0 {
            assert(edges[a - 1].b == order[a]);
            assert(joined(edges, b - 1, order[a]));
        }
    }
    assert(order.no_duplicates());
    assert forall|v: int| 0 <= v < n implies #[trigger] joined(edges, m, v) by {
        if !joined(edges, m, v) {
            assert forall|x: int| order.to_set().contains(x) implies vstd::set_lib::set_int_range(
                0,
                n,
            ).remove(v).contains(x) by {
                let k = choose|k: int| 0 <= k < order.len() && order[k] == x;
                if k > 0 {
                    assert(edges[k - 1].b == x);
                }
            }
            vstd::set_lib::lemma_int_range(0, n);
            vstd::set_lib::lemma_len_subset(order.to_set(), vstd::set_lib::set_int_range(0, n).remove(v));
            order.unique_seq_to_set();
        }
    }
}

proof fn lemma_prefix_equal(nodes: Seq<Chunk>, e1: Seq<Edge>, e2: Seq<Edge>, i: int)
    requires
        is_prim_tree(nodes, e1),
        is_prim_tree(nodes, e2),
        0 <= i <= e1.len(),
    ensures
        forall|t: int| 0 <= t < i ==> e1[t] == e2[t],
    decreases i,
{
    if i > 0 {
        let k = i - 1;
        lemma_prefix_equal(nodes, e1, e2, k);
        assert forall|v: int| joined(e1, k, v) <==> joined(e2, k, v) by {
            if v != 0 && joined(e1, k, v) {
                let t = choose|t: int| 0 <= t < k && #[trigger] e1[t].b == v;
                assert(e2[t].b == v);
            }
            if v != 0 && joined(e2, k, v) {
                let t = choose|t: int| 0 <= t < k && #[trigger] e2[t].b == v;
                assert(e1[t].b == v);
            }
        }
        assert(greedy_step(nodes, e1, k));
        assert(greedy_step(nodes, e2, k));
        let x = e1[k];
        let y = e2[k];
        if lex_before(x.a as int, x.b as int, y.a as int, y.b as int) {
            assert(y.weight < chunk_dist(nodes[x.a as int], nodes[x.b as int]));
            assert(x.weight <= chunk_dist(nodes[y.a as int], nodes[y.b as int]));
        } else if lex_before(y.a as int, y.b as int, x.a as int, x.b as int) {
            assert(x.weight < chunk_dist(nodes[y.a as int], nodes[y.b as int]));
            assert(y.weight <= chunk_dist(nodes[x.a as int], nodes[x.b as int]));
        }
    }
}

/// There is one greedy tree over a list of nodes: ties between shortest
/// edges are broken by the order of the node indices, so the tree, and all
/// that is computed from it, depends on the nodes alone.
pub proof fn lemma_prim_tree_unique(nodes: Seq<Chunk>, e1: Seq<Edge>, e2: Seq<Edge>)
    requires
        is_prim_tree(nodes, e1),
        is_prim_tree(nodes, e2),
    ensures
        e1 == e2,
{
    lemma_prefix_equal(nodes, e1, e2, e1.len() as int);
    assert(e1 =~= e2);
}

} // verus!
