//! The topology classifier: which grid cells a spanning tree's edges pass
//! through (connectors) and which are its nodes (anchors), and the raster
//! image of that classification.
use vstd::prelude::*;
use crate::cluster::Chunk;
use crate::tree::{Edge, SpanningTree, is_prim_tree};

verus! {

/// What a grid cell holds.
#[derive(Clone, Copy, Debug, PartialEq, Eq, Structural)]
pub enum ChunkType {
    Empty,
    /// On the path of a tree edge.
    Connecting,
    /// A node of the tree.
    Target,
}

/// The path of the edge from `a` to `b`: along x at `a.z`, then along z at
/// `b.x`, meeting at the corner `(b.x, a.z)`.
pub open spec fn on_path(a: Chunk, b: Chunk, x: int, z: int) -> bool {
    (z == a.z && ((a.x <= x <= b.x) || (b.x <= x <= a.x))) || (x == b.x && ((a.z <= z <= b.z) || (
    b.z <= z <= a.z)))
}

pub open spec fn edges_in_range(nodes: Seq<Chunk>, edges: Seq<Edge>) -> bool {
    forall|i: int| 0 <= i < edges.len() ==> (#[trigger] edges[i]).a < nodes.len() && edges[i].b < nodes.len()
}

/// The cell lies on the path of one of the first `m` edges.
pub open spec fn on_some_path(nodes: Seq<Chunk>, edges: Seq<Edge>, m: int, x: int, z: int) -> bool {
    exists|i: int|
        0 <= i < m && on_path(nodes[#[trigger] edges[i].a as int], nodes[edges[i].b as int], x, z)
}

/// The cell is one of the first `m` nodes.
pub open spec fn is_node(nodes: Seq<Chunk>, m: int, x: int, z: int) -> bool {
    exists|j: int| 0 <= j < m && (#[trigger] nodes[j]).x == x && nodes[j].z == z
}

/// The class of a cell: anchors override connectors.
pub open spec fn class_of(nodes: Seq<Chunk>, edges: Seq<Edge>, x: int, z: int) -> ChunkType {
    if is_node(nodes, nodes.len() as int, x, z) {
        ChunkType::Target
    } else if on_some_path(nodes, edges, edges.len() as int, x, z) {
        ChunkType::Connecting
    } else {
        ChunkType::Empty
    }
}

/// Where the cell `dx` along x, `dz` along z stands in a grid `size_x` wide.
pub open spec fn grid_index(dx: int, dz: int, size_x: int) -> int {
    dx + dz * size_x
}

/// The classes of the cells of a `size_x` by `size_z` box from `(origin_x,
/// origin_z)`; the cell `(origin_x + dx, origin_z + dz)` is at
/// `dx + dz * size_x`.
pub struct ClassifiedGrid {
    pub origin_x: i32,
    pub origin_z: i32,
    pub size_x: u32,
    pub size_z: u32,
    pub cells: Vec<ChunkType>,
}

fn cell_is_node(nodes: &Vec<Chunk>, x: i32, z: i32) -> (r: bool)
    ensures
        r == is_node(nodes@, nodes@.len() as int, x as int, z as int),
{
    let mut j: usize = 0;
    while j < nodes.len()
        invariant
            j <= nodes@.len(),
            !is_node(nodes@, j as int, x as int, z as int),
        decreases nodes@.len() - j,
    {
        if nodes[j].x == x && nodes[j].z == z {
            assert(is_node(nodes@, nodes@.len() as int, x as int, z as int)) by {
                assert(nodes@[j as int].x == x);
            }
            return true;
        }
        j = j + 1;
    }
    false
}

fn cell_on_path(tree: &SpanningTree, x: i32, z: i32) -> (r: bool)
    requires
        edges_in_range(tree.nodes@, tree.edges@),
    ensures
        r == on_some_path(tree.nodes@, tree.edges@, tree.edges@.len() as int, x as int, z as int),
{
    let mut i: usize = 0;
    while i < tree.edges.len()
        invariant
            edges_in_range(tree.nodes@, tree.edges@),
            i <= tree.edges@.len(),
            !on_some_path(tree.nodes@, tree.edges@, i as int, x as int, z as int),
        decreases tree.edges@.len() - i,
    {
        let e = tree.edges[i];
        assert(e == tree.edges@[i as int]);
        let a = tree.nodes[e.a];
        let b = tree.nodes[e.b];
        let along_x = z == a.z && ((a.x <= x && x <= b.x) || (b.x <= x && x <= a.x));
        let along_z = x == b.x && ((a.z <= z && z <= b.z) || (b.z <= z && z <= a.z));
        if along_x || along_z {
            return true;
        }
        proof {
            assert forall|k: int|
                0 <= k < i + 1 implies !on_path(
                tree.nodes@[#[trigger] tree.edges@[k].a as int],
                tree.nodes@[tree.edges@[k].b as int],
                x as int,
                z as int,
            ) by {
                if k < i {
                    assert(!on_some_path(tree.nodes@, tree.edges@, i as int, x as int, z as int));
                }
            }
        }
        i = i + 1;
    }
    false
}

/// Classify every cell of the box of `size_x` by `size_z` cells from
/// `(origin_x, origin_z)`.
pub fn classify(tree: &SpanningTree, origin_x: i32, origin_z: i32, size_x: u32, size_z: u32) -> (r:
    ClassifiedGrid)
    requires
        edges_in_range(tree.nodes@, tree.edges@),
        origin_x + size_x <= i32::MAX + 1,
        origin_z + size_z <= i32::MAX + 1,
        size_x * size_z <= usize::MAX,
    ensures
        r.origin_x == origin_x,
        r.origin_z == origin_z,
        r.size_x == size_x,
        r.size_z == size_z,
        r.cells@.len() == size_x * size_z,
        forall|dx: int, dz: int|
            0 <= dx < size_x && 0 <= dz < size_z ==> r.cells@[#[trigger] grid_index(dx, dz, size_x as int)] == class_of(
                tree.nodes@,
                tree.edges@,
                origin_x + dx,
                origin_z + dz,
            ),
{
    let mut cells: Vec<ChunkType> = Vec::new();
    let mut dz: u32 = 0;
    while dz < size_z
        invariant
            edges_in_range(tree.nodes@, tree.edges@),
            origin_x + size_x <= i32::MAX + 1,
            origin_z + size_z <= i32::MAX + 1,
            size_x * size_z <= usize::MAX,
            dz <= size_z,
            cells@.len() == dz * size_x,
            forall|dx2: int, dz2: int|
                0 <= dx2 < size_x && 0 <= dz2 < dz ==> cells@[#[trigger] grid_index(dx2, dz2, size_x as int)] == class_of(
                    tree.nodes@,
                    tree.edges@,
                    origin_x + dx2,
                    origin_z + dz2,
                ),
        decreases size_z - dz,
    {
        let mut dx: u32 = 0;
        while dx < size_x
            invariant
                edges_in_range(tree.nodes@, tree.edges@),
                origin_x + size_x <= i32::MAX + 1,
                origin_z + size_z <= i32::MAX + 1,
                dz < size_z,
                dx <= size_x,
                cells@.len() == dz * size_x + dx,
                forall|dx2: int, dz2: int|
                    0 <= dx2 < size_x && 0 <= dz2 < dz ==> cells@[#[trigger] grid_index(dx2, dz2, size_x as int)] == class_of(
                        tree.nodes@,
                        tree.edges@,
                        origin_x + dx2,
                        origin_z + dz2,
                    ),
                forall|dx2: int|
                    0 <= dx2 < dx ==> cells@[#[trigger] grid_index(dx2, dz as int, size_x as int)] == class_of(
                        tree.nodes@,
                        tree.edges@,
                        origin_x + dx2,
                        origin_z + dz,
                    ),
            decreases size_x - dx,
        {
            let x: i32 = (origin_x as i64 + dx as i64) as i32;
            let z: i32 = (origin_z as i64 + dz as i64) as i32;
            let c = if cell_is_node(&tree.nodes, x, z) {
                ChunkType::Target
            } else if cell_on_path(tree, x, z) {
                ChunkType::Connecting
            } else {
                ChunkType::Empty
            };
            let ghost before = cells@;
            cells.push(c);
            proof {
                assert forall|dx2: int, dz2: int|
                    0 <= dx2 < size_x && 0 <= dz2 < dz implies cells@[#[trigger] grid_index(dx2, dz2, size_x as int)] == class_of(
                        tree.nodes@,
                        tree.edges@,
                        origin_x + dx2,
                        origin_z + dz2,
                    ) by {
                    assert(dx2 + dz2 * size_x < dz * size_x) by (nonlinear_arith)
                        requires
                            0 <= dx2 < size_x,
                            0 <= dz2 < dz,
                    ;
                    assert(cells@[grid_index(dx2, dz2, size_x as int)] == before[grid_index(dx2, dz2, size_x as int)]);
                }
                assert(dz * size_x + dx == dx + dz * size_x) by (nonlinear_arith);
            }
            dx = dx + 1;
        }
        proof {
            assert(dz * size_x + size_x == (dz + 1) * size_x) by (nonlinear_arith);
            assert((dz + 1) * size_x <= size_x * size_z) by (nonlinear_arith)
                requires
                    dz + 1 <= size_z,
            ;
        }
        dz = dz + 1;
    }
    assert(dz * size_x == size_x * size_z) by (nonlinear_arith)
        requires
            dz == size_z,
    ;
    ClassifiedGrid { origin_x, origin_z, size_x, size_z, cells }
}

/// The grey level of a class: 0 empty, 127 connector, 255 anchor.
pub open spec fn pixel_of(c: ChunkType) -> u8 {
    match c {
        ChunkType::Empty => 0,
        ChunkType::Connecting => 127,
        ChunkType::Target => 255,
    }
}

/// `r` is the raster image of the cells: one pixel per cell, in order.
pub open spec fn is_raster_of(cells: Seq<ChunkType>, r: Seq<u8>) -> bool {
    r.len() == cells.len() && forall|k: int| 0 <= k < r.len() ==> r[k] == pixel_of(#[trigger] cells[k])
}

/// The 8-bit greyscale image of the grid, one pixel per cell, in the grid's
/// order.
pub fn raster(grid: &ClassifiedGrid) -> (r: Vec<u8>)
    ensures
        is_raster_of(grid.cells@, r@),
{
    let mut r: Vec<u8> = Vec::new();
    let mut k: usize = 0;
    while k < grid.cells.len()
        invariant
            k <= grid.cells@.len(),
            r@.len() == k,
            forall|j: int| 0 <= j < k ==> r@[j] == pixel_of(#[trigger] grid.cells@[j]),
        decreases grid.cells@.len() - k,
    {
        let p: u8 = match grid.cells[k] {
            ChunkType::Empty => 0,
            ChunkType::Connecting => 127,
            ChunkType::Target => 255,
        };
        r.push(p);
        k = k + 1;
    }
    r
}

/// The coordinates of the first `m` nodes that lie on no edge's path, in
/// node order.
pub open spec fn unlinked(nodes: Seq<Chunk>, edges: Seq<Edge>, m: int) -> Seq<(i32, i32)>
    decreases m,
{
    if m <= 0 {
        Seq::empty()
    } else {
        let prev = unlinked(nodes, edges, m - 1);
        let c = nodes[m - 1];
        if on_some_path(nodes, edges, edges.len() as int, c.x as int, c.z as int) {
            prev
        } else {
            prev.push((c.x, c.z))
        }
    }
}

/// The anchors that no connector reaches: every node should lie on the path
/// of one of its edges, and each one that does not is reported.
pub fn missing_connectors(tree: &SpanningTree) -> (r: Vec<(i32, i32)>)
    requires
        edges_in_range(tree.nodes@, tree.edges@),
    ensures
        r@ == unlinked(tree.nodes@, tree.edges@, tree.nodes@.len() as int),
{
    let mut r: Vec<(i32, i32)> = Vec::new();
    let mut j: usize = 0;
    while j < tree.nodes.len()
        invariant
            edges_in_range(tree.nodes@, tree.edges@),
            j <= tree.nodes@.len(),
            r@ == unlinked(tree.nodes@, tree.edges@, j as int),
        decreases tree.nodes@.len() - j,
    {
        let c = tree.nodes[j];
        if !cell_on_path(tree, c.x, c.z) {
            r.push((c.x, c.z));
        }
        j = j + 1;
    }
    r
}

/// A tree over a single node has no edges; its cell is an anchor and no
/// cell is a connector.
pub proof fn lemma_single_node(nodes: Seq<Chunk>, edges: Seq<Edge>)
    requires
        nodes.len() == 1,
        is_prim_tree(nodes, edges),
    ensures
        edges.len() == 0,
        class_of(nodes, edges, nodes[0].x as int, nodes[0].z as int) == ChunkType::Target,
        forall|x: int, z: int| #[trigger] class_of(nodes, edges, x, z) != ChunkType::Connecting,
{
}

} // verus!
